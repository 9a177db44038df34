//! Public filter enums: content type and log priority level.

use vstd::prelude::*;

use crate::text::{ascii_lower, chars_of, contains_chars, has_sub, lower_chars, str_eq};

verus! {

/// Shape of log content a caller may request in a snapshot.
#[derive(Debug, Clone, Copy, PartialEq, Eq, Structural, Hash)]
pub enum ContentType {
    /// Fatal exceptions / fatal signals / Fatal priority.
    Fatal,
    /// Application Not Responding.
    Anr,
    /// Native or runtime crash-shaped lines (tombstone, libc, panic, etc.).
    Crash,
}

/// The tags whose lines are crash-shaped whatever their text says.
pub open spec fn is_crash_tag(tag: Seq<char>) -> bool {
    tag == "AndroidRuntime"@ || tag == "DEBUG"@ || tag == "libc"@
}

/// When a line with this level, tag and message has the given content type.
///
/// The message needles are compared against the ASCII lower-cased message.
pub open spec fn content_matches(
    kind: ContentType,
    level: char,
    tag: Seq<char>,
    message: Seq<char>,
) -> bool {
    let lower = ascii_lower(message);
    match kind {
        ContentType::Fatal => {
            ||| level == 'F'
            ||| has_sub(lower, "fatal exception"@)
            ||| has_sub(lower, "fatal signal"@)
        },
        ContentType::Anr => has_sub(lower, "anr in"@),
        ContentType::Crash => {
            ||| is_crash_tag(tag)
            ||| has_sub(lower, "tombstone"@)
            ||| has_sub(lower, "checkjni"@)
            ||| has_sub(lower, "panic"@)
        },
    }
}

/// Whether `tag` is one of the crash-shaped tags.
pub fn crash_tag(tag: &str) -> (res: bool)
    ensures
        res == is_crash_tag(tag@),
{
    str_eq(tag, "AndroidRuntime") || str_eq(tag, "DEBUG") || str_eq(tag, "libc")
}

impl ContentType {
    /// True when this content type matches the given level, tag, and message text.
    ///
    /// Message matching is ASCII case-insensitive for the built-in needles.
    pub fn matches(self, level: char, tag: &str, message: &str) -> (res: bool)
        ensures
            res == content_matches(self, level, tag@, message@),
    {
        let lower = lower_chars(&chars_of(message));
        match self {
            ContentType::Fatal => {
                level == 'F' || contains_chars(&lower, &chars_of("fatal exception"))
                    || contains_chars(&lower, &chars_of("fatal signal"))
            },
            ContentType::Anr => contains_chars(&lower, &chars_of("anr in")),
            ContentType::Crash => {
                crash_tag(tag) || contains_chars(&lower, &chars_of("tombstone")) || contains_chars(
                    &lower,
                    &chars_of("checkjni"),
                ) || contains_chars(&lower, &chars_of("panic"))
            },
        }
    }
}

/// Android logcat priority letter.
#[derive(Debug, Clone, Copy, PartialEq, Eq, Structural, Hash)]
pub enum LogLevel {
    /// `V`
    Verbose,
    /// `D`
    Debug,
    /// `I`
    Info,
    /// `W`
    Warn,
    /// `E`
    Error,
    /// `F`
    Fatal,
}

/// The upper-case priority letter of a level.
pub open spec fn level_letter(level: LogLevel) -> char {
    match level {
        LogLevel::Verbose => 'V',
        LogLevel::Debug => 'D',
        LogLevel::Info => 'I',
        LogLevel::Warn => 'W',
        LogLevel::Error => 'E',
        LogLevel::Fatal => 'F',
    }
}

/// The level a priority letter names, in either case.
pub open spec fn level_of_letter(c: char) -> Option<LogLevel> {
    if c == 'V' || c == 'v' {
        Some(LogLevel::Verbose)
    } else if c == 'D' || c == 'd' {
        Some(LogLevel::Debug)
    } else if c == 'I' || c == 'i' {
        Some(LogLevel::Info)
    } else if c == 'W' || c == 'w' {
        Some(LogLevel::Warn)
    } else if c == 'E' || c == 'e' {
        Some(LogLevel::Error)
    } else if c == 'F' || c == 'f' {
        Some(LogLevel::Fatal)
    } else {
        None
    }
}

impl LogLevel {
    /// Priority letter used in threadtime lines and snapshot JSON.
    pub fn as_char(self) -> (res: char)
        ensures
            res == level_letter(self),
    {
        match self {
            LogLevel::Verbose => 'V',
            LogLevel::Debug => 'D',
            LogLevel::Info => 'I',
            LogLevel::Warn => 'W',
            LogLevel::Error => 'E',
            LogLevel::Fatal => 'F',
        }
    }

    /// Static label for snapshot `levels` field: the priority letter as a string.
    pub fn as_str(self) -> (res: &'static str)
        ensures
            res@ == seq![level_letter(self)],
    {
        match self {
            LogLevel::Verbose => {
                proof {
                    reveal_strlit("V");
                }
                "V"
            },
            LogLevel::Debug => {
                proof {
                    reveal_strlit("D");
                }
                "D"
            },
            LogLevel::Info => {
                proof {
                    reveal_strlit("I");
                }
                "I"
            },
            LogLevel::Warn => {
                proof {
                    reveal_strlit("W");
                }
                "W"
            },
            LogLevel::Error => {
                proof {
                    reveal_strlit("E");
                }
                "E"
            },
            LogLevel::Fatal => {
                proof {
                    reveal_strlit("F");
                }
                "F"
            },
        }
    }

    /// Parse a priority letter (either case) into a level.
    pub fn from_char(c: char) -> (res: Option<Self>)
        ensures
            res == level_of_letter(c),
    {
        if c == 'V' || c == 'v' {
            Some(LogLevel::Verbose)
        } else if c == 'D' || c == 'd' {
            Some(LogLevel::Debug)
        } else if c == 'I' || c == 'i' {
            Some(LogLevel::Info)
        } else if c == 'W' || c == 'w' {
            Some(LogLevel::Warn)
        } else if c == 'E' || c == 'e' {
            Some(LogLevel::Error)
        } else if c == 'F' || c == 'f' {
            Some(LogLevel::Fatal)
        } else {
            None
        }
    }
}

/// Reading back the letter of a level gives the same level.
pub proof fn lemma_level_letter_roundtrip(level: LogLevel)
    ensures
        level_of_letter(level_letter(level)) == Some(level),
{
}

proof fn lemma_lower_piece_occurs(p: Seq<char>, w: Seq<char>, q: Seq<char>)
    ensures
        crate::text::occurs_at(ascii_lower(p + w + q), ascii_lower(w), p.len() as int),
{
    let m = p + w + q;
    assert(ascii_lower(m).subrange(p.len() as int, (p.len() + w.len()) as int) =~= ascii_lower(w)) by {
        assert forall|k: int| 0 <= k < w.len() implies m[p.len() + k] == w[k] by {}
    }
}

/// Needles are found anywhere in the message and in any ASCII case: a message
/// made of any text `p`, then a needle `w` spelled in any case, then any text
/// `q`, matches the content type of that needle, whatever the level and tag.
/// A Fatal level matches Fatal and a crash tag matches Crash whatever the text.
pub proof fn lemma_needle_anywhere_matches(
    level: char,
    tag: Seq<char>,
    p: Seq<char>,
    w: Seq<char>,
    q: Seq<char>,
)
    ensures
        ascii_lower(w) == "fatal exception"@ || ascii_lower(w) == "fatal signal"@
            ==> content_matches(ContentType::Fatal, level, tag, p + w + q),
        ascii_lower(w) == "anr in"@ ==> content_matches(ContentType::Anr, level, tag, p + w + q),
        ascii_lower(w) == "tombstone"@ || ascii_lower(w) == "checkjni"@ || ascii_lower(w)
            == "panic"@ ==> content_matches(ContentType::Crash, level, tag, p + w + q),
        level == 'F' ==> content_matches(ContentType::Fatal, level, tag, p + w + q),
        tag == "AndroidRuntime"@ || tag == "DEBUG"@ || tag == "libc"@ ==> content_matches(
            ContentType::Crash,
            level,
            tag,
            p + w + q,
        ),
{
    lemma_lower_piece_occurs(p, w, q);
}

/// A match needs a reason: a Fatal level or a crash tag, or a stretch of the
/// message that, ASCII lower-cased, is one of the content type's needles.
pub proof fn lemma_match_has_needle(
    kind: ContentType,
    level: char,
    tag: Seq<char>,
    message: Seq<char>,
)
    requires
        content_matches(kind, level, tag, message),
    ensures
        exists|i: int, j: int|
            #![trigger message.subrange(i, j)]
            0 <= i <= j <= message.len() && {
                let w = ascii_lower(message.subrange(i, j));
                match kind {
                    ContentType::Fatal => level == 'F' || w == "fatal exception"@ || w
                        == "fatal signal"@,
                    ContentType::Anr => w == "anr in"@,
                    ContentType::Crash => tag == "AndroidRuntime"@ || tag == "DEBUG"@ || tag
                        == "libc"@ || w == "tombstone"@ || w == "checkjni"@ || w == "panic"@,
                }
            },
{
    let lower = ascii_lower(message);
    if (kind == ContentType::Fatal && level == 'F') || (kind == ContentType::Crash
        && is_crash_tag(tag)) {
        let _ = message.subrange(0, 0);
    } else {
        let n = if kind == ContentType::Fatal {
            if has_sub(lower, "fatal exception"@) {
                "fatal exception"@
            } else {
                "fatal signal"@
            }
        } else if kind == ContentType::Anr {
            "anr in"@
        } else if has_sub(lower, "tombstone"@) {
            "tombstone"@
        } else if has_sub(lower, "checkjni"@) {
            "checkjni"@
        } else {
            "panic"@
        };
        assert(has_sub(lower, n));
        let i = choose|i: int| crate::text::occurs_at(lower, n, i);
        let j = i + n.len();
        assert(ascii_lower(message.subrange(i, j)) =~= lower.subrange(i, j));
    }
}

} // verus!
