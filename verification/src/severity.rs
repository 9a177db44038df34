//! High-severity heuristics for fatal / ANR / native-crash shaped lines.

use vstd::prelude::*;

use crate::content::{content_matches, ContentType};
use crate::text::ascii_lower;

verus! {

/// A line is high severity when it matches any [`ContentType`].
pub open spec fn high_severity(level: char, tag: Seq<char>, message: Seq<char>) -> bool {
    ||| content_matches(ContentType::Fatal, level, tag, message)
    ||| content_matches(ContentType::Anr, level, tag, message)
    ||| content_matches(ContentType::Crash, level, tag, message)
}

/// Returns true for fatal, ANR, panic, or native-crash shaped logcat lines.
///
/// Equivalent to matching any [`ContentType`].
pub fn is_high_severity(level: char, tag: &str, message: &str) -> (res: bool)
    ensures
        res == high_severity(level, tag@, message@),
{
    ContentType::Fatal.matches(level, tag, message) || ContentType::Anr.matches(
        level,
        tag,
        message,
    ) || ContentType::Crash.matches(level, tag, message)
}

/// A line is high severity when its level is Fatal, its tag is a crash tag,
/// or its message holds, anywhere and in any ASCII case, one of the needles
/// `fatal exception`, `fatal signal`, `anr in`, `tombstone`, `checkjni`,
/// `panic`: here the message is any text `p`, the needle as spelled `w`, then
/// any text `q`.
pub proof fn lemma_high_severity_needle_anywhere(
    level: char,
    tag: Seq<char>,
    p: Seq<char>,
    w: Seq<char>,
    q: Seq<char>,
)
    ensures
        ({
            let n = ascii_lower(w);
            ||| level == 'F'
            ||| tag == "AndroidRuntime"@ || tag == "DEBUG"@ || tag == "libc"@
            ||| n == "fatal exception"@ || n == "fatal signal"@ || n == "anr in"@
            ||| n == "tombstone"@ || n == "checkjni"@ || n == "panic"@
        }) ==> high_severity(level, tag, p + w + q),
{
    crate::content::lemma_needle_anywhere_matches(level, tag, p, w, q);
}

} // verus!
