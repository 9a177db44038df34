//! Parse `adb logcat -v threadtime` lines.
//!
//! A threadtime line is a `MM-DD HH:MM:SS.mmm` timestamp, whitespace, the pid,
//! whitespace, the tid, whitespace, one priority letter of `VDIWEF`, whitespace,
//! the tag up to the first `:`, an optional single space, and the message,
//! which holds no line feed. The pid and tid are runs of ASCII digits whose
//! values fit a `u32`; whitespace is Unicode `White_Space`. Trailing whitespace
//! of the line is ignored. Message wrapping for a TUI is intentionally omitted;
//! callers own display layout.

use vstd::prelude::*;

use crate::pattern::{is_match, regex_is_match};
use crate::text::{
    chars_of, collapse_ws, collapse_chars_then_trim, is_ascii_digit, slice_chars, string_of,
    trim, trim_chars, trim_end, trim_end_len_exec, ws_run_end, ws_run_end_exec,
};

verus! {

/// One parsed threadtime logcat line.
#[derive(Debug, Clone, PartialEq, Eq)]
pub struct LogLine {
    /// Timestamp as printed by logcat (`MM-DD HH:MM:SS.mmm`).
    pub timestamp: String,
    /// Process id.
    pub pid: u32,
    /// Thread id.
    pub tid: u32,
    /// Priority letter: `V`, `D`, `I`, `W`, `E`, or `F`.
    pub level: char,
    /// Log tag (whitespace-trimmed).
    pub tag: String,
    /// Message body after the tag colon, whitespace runs collapsed and trimmed.
    pub message: String,
}

/// Error (`E`) and Fatal (`F`) priority letters.
pub open spec fn is_error_letter(level: char) -> bool {
    level == 'E' || level == 'F'
}

impl LogLine {
    /// Returns true for Error (`E`) and Fatal (`F`) levels.
    pub fn is_error_level(&self) -> (res: bool)
        ensures
            res == is_error_letter(self.level),
    {
        self.level == 'E' || self.level == 'F'
    }
}

/// One of the six priority letters a threadtime line may carry.
pub open spec fn is_level_letter(c: char) -> bool {
    c == 'V' || c == 'D' || c == 'I' || c == 'W' || c == 'E' || c == 'F'
}

/// Pattern of the timestamp: `MM-DD HH:MM:SS.mmm`, where a digit is any
/// Unicode decimal digit as the regex class `\d` reads it.
pub const TIMESTAMP_PATTERN: &'static str = r"^\d{2}-\d{2} \d{2}:\d{2}:\d{2}\.\d{3}$";

/// Characters the timestamp takes at the start of a line.
pub const TIMESTAMP_LEN: usize = 18;

/// The first 18 characters are a timestamp.
pub open spec fn timestamp_shape(t: Seq<char>) -> bool {
    &&& t.len() >= TIMESTAMP_LEN
    &&& regex_is_match(TIMESTAMP_PATTERN@, t.take(TIMESTAMP_LEN as int)) == Some(true)
}

/// End of the run of ASCII digits that starts at `i`.
pub open spec fn digit_run_end(s: Seq<char>, i: int) -> int
    decreases s.len() - i,
{
    if 0 <= i < s.len() && is_ascii_digit(s[i]) {
        digit_run_end(s, i + 1)
    } else {
        i
    }
}

/// First position at or after `i` that holds `:`, or `s.len()` if none.
pub open spec fn first_colon(s: Seq<char>, i: int) -> int
    decreases s.len() - i,
{
    if i < 0 || i >= s.len() {
        s.len() as int
    } else if s[i] == ':' {
        i
    } else {
        first_colon(s, i + 1)
    }
}

/// Value of one ASCII digit.
pub open spec fn digit_value(c: char) -> nat {
    ((c as u32) - ('0' as u32)) as nat
}

/// Value of a run of ASCII digits read as a decimal number.
pub open spec fn decimal_value(s: Seq<char>) -> nat
    decreases s.len(),
{
    if s.len() == 0 {
        0
    } else {
        decimal_value(s.drop_last()) * 10 + digit_value(s.last())
    }
}

/// Where the pid starts: after the whitespace that follows the timestamp.
pub open spec fn pid_start(t: Seq<char>) -> int {
    ws_run_end(t, 18)
}

/// Where the pid ends.
pub open spec fn pid_end(t: Seq<char>) -> int {
    digit_run_end(t, pid_start(t))
}

/// Where the tid starts.
pub open spec fn tid_start(t: Seq<char>) -> int {
    ws_run_end(t, pid_end(t))
}

/// Where the tid ends.
pub open spec fn tid_end(t: Seq<char>) -> int {
    digit_run_end(t, tid_start(t))
}

/// Position of the priority letter.
pub open spec fn level_pos(t: Seq<char>) -> int {
    ws_run_end(t, tid_end(t))
}

/// Where the tag starts.
pub open spec fn tag_start(t: Seq<char>) -> int {
    ws_run_end(t, level_pos(t) + 1)
}

/// Position of the colon that ends the tag.
pub open spec fn colon_pos(t: Seq<char>) -> int {
    first_colon(t, tag_start(t))
}

/// Where the message starts: after the colon and one optional space.
pub open spec fn message_start(t: Seq<char>) -> int {
    if colon_pos(t) + 1 < t.len() && t[colon_pos(t) + 1] == ' ' {
        colon_pos(t) + 2
    } else {
        colon_pos(t) + 1
    }
}

/// The pid digits.
pub open spec fn pid_digits(t: Seq<char>) -> Seq<char> {
    t.subrange(pid_start(t), pid_end(t))
}

/// The tid digits.
pub open spec fn tid_digits(t: Seq<char>) -> Seq<char> {
    t.subrange(tid_start(t), tid_end(t))
}

/// The raw message text, before whitespace is normalised.
pub open spec fn raw_message(t: Seq<char>) -> Seq<char> {
    t.subrange(message_start(t), t.len() as int)
}

/// Whether a line, with trailing whitespace already removed, is a threadtime line.
pub open spec fn threadtime_ok(t: Seq<char>) -> bool {
    timestamp_shape(t) && fields_ok(t)
}

/// Whether everything after the 18 timestamp characters of `t` has the
/// threadtime layout.
pub open spec fn fields_ok(t: Seq<char>) -> bool {
    &&& t.len() >= TIMESTAMP_LEN
    &&& pid_start(t) > 18
    &&& pid_end(t) > pid_start(t)
    &&& decimal_value(pid_digits(t)) <= u32::MAX
    &&& tid_start(t) > pid_end(t)
    &&& tid_end(t) > tid_start(t)
    &&& decimal_value(tid_digits(t)) <= u32::MAX
    &&& level_pos(t) > tid_end(t)
    &&& level_pos(t) < t.len()
    &&& is_level_letter(t[level_pos(t)])
    &&& tag_start(t) > level_pos(t) + 1
    &&& colon_pos(t) < t.len()
    &&& !raw_message(t).contains('\n')
}

/// The fields a threadtime line `t` (trailing whitespace removed) parses to.
pub open spec fn fields_of(l: LogLine, t: Seq<char>) -> bool {
    &&& l.timestamp@ == t.take(18)
    &&& l.pid as nat == decimal_value(pid_digits(t))
    &&& l.tid as nat == decimal_value(tid_digits(t))
    &&& l.level == t[level_pos(t)]
    &&& l.tag@ == trim(t.subrange(tag_start(t), colon_pos(t)))
    &&& l.message@ == trim(collapse_ws(raw_message(t)))
}

proof fn lemma_digit_run_end_bounds(s: Seq<char>, i: int)
    requires
        0 <= i <= s.len(),
    ensures
        i <= digit_run_end(s, i) <= s.len(),
        forall|k: int| i <= k < digit_run_end(s, i) ==> is_ascii_digit(#[trigger] s[k]),
    decreases s.len() - i,
{
    if i < s.len() && is_ascii_digit(s[i]) {
        lemma_digit_run_end_bounds(s, i + 1);
    }
}

proof fn lemma_first_colon_bounds(s: Seq<char>, i: int)
    requires
        0 <= i <= s.len(),
    ensures
        i <= first_colon(s, i) <= s.len(),
        first_colon(s, i) < s.len() ==> s[first_colon(s, i)] == ':',
    decreases s.len() - i,
{
    if i < s.len() && s[i] != ':' {
        lemma_first_colon_bounds(s, i + 1);
    }
}

/// A decimal number only grows when digits are appended.
proof fn lemma_decimal_prefix_le(s: Seq<char>, k: int)
    requires
        0 <= k <= s.len(),
    ensures
        decimal_value(s.take(k)) <= decimal_value(s),
    decreases s.len(),
{
    if k < s.len() {
        lemma_decimal_prefix_le(s.drop_last(), k);
        assert(s.drop_last().take(k) == s.take(k));
    } else {
        assert(s.take(k) == s);
    }
}

/// End of the run of ASCII digits of `s` that starts at `i`.
fn digit_run_end_exec(s: &Vec<char>, i: usize) -> (res: usize)
    requires
        i <= s.len(),
    ensures
        res == digit_run_end(s@, i as int),
{
    let mut j = i;
    while j < s.len() && '0' <= s[j] && s[j] <= '9'
        invariant
            i <= j <= s.len(),
            digit_run_end(s@, j as int) == digit_run_end(s@, i as int),
        decreases s.len() - j,
    {
        j = j + 1;
    }
    j
}

/// First `:` at or after `i`, or `s.len()`.
fn first_colon_exec(s: &Vec<char>, i: usize) -> (res: usize)
    requires
        i <= s.len(),
    ensures
        res == first_colon(s@, i as int),
{
    let mut j = i;
    while j < s.len() && s[j] != ':'
        invariant
            i <= j <= s.len(),
            first_colon(s@, j as int) == first_colon(s@, i as int),
        decreases s.len() - j,
    {
        j = j + 1;
    }
    j
}

/// The digits `s[from..to]` as a `u32`, or `None` when the value does not fit.
fn decimal_u32(s: &Vec<char>, from: usize, to: usize) -> (res: Option<u32>)
    requires
        from <= to <= s.len(),
        forall|k: int| from <= k < to ==> is_ascii_digit(#[trigger] s@[k]),
    ensures
        res is Some <==> decimal_value(s@.subrange(from as int, to as int)) <= u32::MAX,
        res matches Some(v) ==> v as nat == decimal_value(s@.subrange(from as int, to as int)),
{
    let ghost run = s@.subrange(from as int, to as int);
    let mut v: u64 = 0;
    let mut i = from;
    assert(run.take(0) =~= Seq::<char>::empty());
    while i < to
        invariant
            from <= i <= to <= s.len(),
            run == s@.subrange(from as int, to as int),
            forall|k: int| from <= k < to ==> is_ascii_digit(#[trigger] s@[k]),
            v as nat == decimal_value(run.take(i - from)),
            v <= u32::MAX,
        decreases to - i,
    {
        let c = s[i];
        assert(is_ascii_digit(s@[i as int]));
        let d = ((c as u32) - ('0' as u32)) as u64;
        let nv = v * 10 + d;
        let ghost pre = run.take(i + 1 - from);
        assert(pre.drop_last() == run.take(i - from));
        assert(pre.last() == c);
        assert(nv as nat == decimal_value(pre));
        if nv > 4294967295 {
            proof {
                lemma_decimal_prefix_le(run, i + 1 - from);
            }
            return None;
        }
        v = nv;
        i = i + 1;
    }
    assert(run.take(to - from) == run);
    Some(v as u32)
}

/// Whether the first 18 characters are a timestamp.
fn timestamp_shape_exec(t: &Vec<char>) -> (res: bool)
    ensures
        res == timestamp_shape(t@),
{
    if t.len() < TIMESTAMP_LEN {
        return false;
    }
    let head = string_of(&slice_chars(t, 0, TIMESTAMP_LEN));
    match is_match(TIMESTAMP_PATTERN, head.as_str()) {
        Some(b) => b,
        None => false,
    }
}

/// Whether `s[from..]` holds a line feed.
fn has_line_feed_from(s: &Vec<char>, from: usize) -> (res: bool)
    requires
        from <= s.len(),
    ensures
        res == s@.subrange(from as int, s.len() as int).contains('\n'),
{
    let ghost rest = s@.subrange(from as int, s.len() as int);
    let mut i = from;
    while i < s.len()
        invariant
            from <= i <= s.len(),
            rest == s@.subrange(from as int, s.len() as int),
            forall|k: int| from <= k < i ==> s@[k] != '\n',
        decreases s.len() - i,
    {
        if s[i] == '\n' {
            assert(rest[i - from] == '\n');
            return true;
        }
        i = i + 1;
    }
    assert(forall|k: int| 0 <= k < rest.len() ==> rest[k] == s@[from + k]);
    false
}

/// Parse a single `adb logcat -v threadtime` line.
///
/// Returns `None` for headers and other non-matching input.
pub fn parse_threadtime(line: &str) -> (res: Option<LogLine>)
    ensures
        res is Some <==> threadtime_ok(trim_end(line@)),
        res matches Some(l) ==> fields_of(l, trim_end(line@)),
{
    let all = chars_of(line);
    let n = trim_end_len_exec(&all);
    let t = slice_chars(&all, 0, n);
    let timestamp_matches = timestamp_shape_exec(&t);
    parse_checked_timestamp(line, timestamp_matches)
}

/// Parse a threadtime line once it is known whether its first 18 characters
/// (after trailing whitespace is removed) match [`TIMESTAMP_PATTERN`].
pub fn parse_checked_timestamp(line: &str, timestamp_matches: bool) -> (res: Option<LogLine>)
    ensures
        res is Some <==> timestamp_matches && fields_ok(trim_end(line@)),
        res matches Some(l) ==> fields_of(l, trim_end(line@)),
{
    let all = chars_of(line);
    let n = trim_end_len_exec(&all);
    let t = slice_chars(&all, 0, n);
    let ghost tv = t@;
    assert(tv == trim_end(line@));
    if !timestamp_matches || t.len() < TIMESTAMP_LEN {
        return None;
    }
    let a = ws_run_end_exec(&t, 18);
    if a == 18 {
        return None;
    }
    let b = digit_run_end_exec(&t, a);
    proof {
        lemma_digit_run_end_bounds(tv, a as int);
    }
    if b == a {
        return None;
    }
    let pid = match decimal_u32(&t, a, b) {
        Some(v) => v,
        None => {
            return None;
        },
    };
    let c = ws_run_end_exec(&t, b);
    if c == b {
        return None;
    }
    let d = digit_run_end_exec(&t, c);
    proof {
        lemma_digit_run_end_bounds(tv, c as int);
    }
    if d == c {
        return None;
    }
    let tid = match decimal_u32(&t, c, d) {
        Some(v) => v,
        None => {
            return None;
        },
    };
    let e = ws_run_end_exec(&t, d);
    if e == d || e >= t.len() {
        return None;
    }
    let level = t[e];
    if !(level == 'V' || level == 'D' || level == 'I' || level == 'W' || level == 'E' || level
        == 'F') {
        return None;
    }
    let f = ws_run_end_exec(&t, e + 1);
    if f == e + 1 {
        return None;
    }
    let g = first_colon_exec(&t, f);
    proof {
        lemma_first_colon_bounds(tv, f as int);
    }
    if g >= t.len() {
        return None;
    }
    let ms = if g + 1 < t.len() && t[g + 1] == ' ' {
        g + 2
    } else {
        g + 1
    };
    if has_line_feed_from(&t, ms) {
        return None;
    }
    let tag = trim_chars(&slice_chars(&t, f, g));
    let message = collapse_chars_then_trim(&slice_chars(&t, ms, t.len()));
    Some(
        LogLine {
            timestamp: string_of(&slice_chars(&t, 0, 18)),
            pid,
            tid,
            level,
            tag: string_of(&tag),
            message: string_of(&message),
        },
    )
}

} // verus!
