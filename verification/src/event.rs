//! Group time-ordered lines into single-line or multi-line fatal/ANR events.
//!
//! Uses line index (not `Instant`) so offline files and bugreports work.

use vstd::prelude::*;
use vstd::std_specs::iter::IteratorSpec;

use crate::content::{crash_tag, is_crash_tag};
use crate::fingerprint::{redact, redacted};
use crate::parse::LogLine;
use crate::severity::{high_severity, is_high_severity};
use crate::text::{
    ascii_lower, chars_of, contains_chars, has_sub, lower_chars, starts_with, starts_with_chars,
    str_eq, trim_start, trim_start_chars,
};

verus! {

/// Longest stack, in lines, that one event may fold.
pub const MAX_GROUP_LINES: usize = 32;

/// One log line plus a stable order index — input to
/// [`GroupedEventList::group_from_indexed_log_lines`].
#[derive(Debug)]
pub struct IndexedLogLine {
    /// Stable order index from the source line list (not wall-clock time).
    pub index: usize,
    /// Process id used when grouping multi-line stacks.
    pub pid: u32,
    /// Priority letter: `V`, `D`, `I`, `W`, `E`, or `F`.
    pub level: char,
    /// Log tag.
    pub tag: String,
    /// Message body (not yet redacted).
    pub message: String,
}

impl Clone for IndexedLogLine {
    fn clone(&self) -> (res: Self)
        ensures
            res == *self,
    {
        IndexedLogLine {
            index: self.index,
            pid: self.pid,
            level: self.level,
            tag: self.tag.clone(),
            message: self.message.clone(),
        }
    }
}

impl IndexedLogLine {
    /// The indexed form of a parsed line at position `index` of its source list.
    pub fn from_log_line(index: usize, line: &LogLine) -> (res: Self)
        ensures
            res.index == index,
            res.pid == line.pid,
            res.level == line.level,
            res.tag == line.tag,
            res.message == line.message,
    {
        IndexedLogLine {
            index,
            pid: line.pid,
            level: line.level,
            tag: line.tag.clone(),
            message: line.message.clone(),
        }
    }
}

impl<'a> From<(usize, &'a LogLine)> for IndexedLogLine {
    fn from(pair: (usize, &'a LogLine)) -> (res: Self) {
        Self::from_log_line(pair.0, pair.1)
    }
}

impl<'a> vstd::std_specs::convert::FromSpecImpl<(usize, &'a LogLine)> for IndexedLogLine {
    open spec fn obeys_from_spec() -> bool {
        true
    }

    open spec fn from_spec(pair: (usize, &'a LogLine)) -> Self {
        IndexedLogLine {
            index: pair.0,
            pid: pair.1.pid,
            level: pair.1.level,
            tag: pair.1.tag,
            message: pair.1.message,
        }
    }
}

/// One error: a single log line, or a multi-line fatal/ANR stack grouped by PID.
#[derive(Debug, Clone)]
pub struct GroupedEvent {
    /// Index of the first line that formed this event.
    pub index: usize,
    /// Process id of the event.
    pub pid: u32,
    /// Priority letter from the head line.
    pub level: char,
    /// Tag from the head line.
    pub tag: String,
    /// First line message; used for fingerprinting.
    pub headline: String,
    /// Redacted sample lines from the event (headline first).
    pub samples: Vec<String>,
}

/// What an event holds, with every text taken by its characters.
pub struct EventView {
    /// Index of the first line.
    pub index: usize,
    /// Process id.
    pub pid: u32,
    /// Priority letter of the head line.
    pub level: char,
    /// Tag of the head line.
    pub tag: Seq<char>,
    /// Message of the head line.
    pub headline: Seq<char>,
    /// Redacted samples, one per line.
    pub samples: Seq<Seq<char>>,
}

/// The characters of each string, in order.
pub open spec fn strings_view(v: Seq<String>) -> Seq<Seq<char>> {
    Seq::new(v.len(), |i: int| v[i]@)
}

impl View for GroupedEvent {
    type V = EventView;

    open spec fn view(&self) -> EventView {
        EventView {
            index: self.index,
            pid: self.pid,
            level: self.level,
            tag: self.tag@,
            headline: self.headline@,
            samples: strings_view(self.samples@),
        }
    }
}

/// The event a group of lines becomes.
pub open spec fn group_view(g: Seq<IndexedLogLine>) -> EventView {
    EventView {
        index: g[0].index,
        pid: g[0].pid,
        level: g[0].level,
        tag: g[0].tag@,
        headline: g[0].message@,
        samples: Seq::new(g.len(), |i: int| redacted(g[i].message@)),
    }
}

/// The events that `lines` group into.
pub open spec fn grouped_views(lines: Seq<IndexedLogLine>) -> Seq<EventView> {
    Seq::new(line_groups(lines).len(), |i: int| group_view(line_groups(lines)[i]))
}

pub(crate) proof fn lemma_event_of_view(e: GroupedEvent, g: Seq<IndexedLogLine>)
    requires
        event_of(e, g),
    ensures
        e@ == group_view(g),
{
    assert(strings_view(e.samples@) =~= Seq::new(g.len(), |i: int| redacted(g[i].message@)));
}

impl GroupedEvent {
    /// Returns true when this event's headline is high severity.
    pub fn is_high_severity(&self) -> (res: bool)
        ensures
            res == high_severity(self.level, self.tag@, self.headline@),
    {
        is_high_severity(self.level, self.tag.as_str(), self.headline.as_str())
    }
}

/// Ordered list of [`GroupedEvent`]s produced by grouping indexed log lines.
#[derive(Debug, Clone)]
pub struct GroupedEventList(Vec<GroupedEvent>);

impl Default for GroupedEventList {
    /// The empty list.
    fn default() -> (res: Self)
        ensures
            res@ == Seq::<GroupedEvent>::empty(),
    {
        GroupedEventList(Vec::new())
    }
}

impl View for GroupedEventList {
    type V = Seq<GroupedEvent>;

    closed spec fn view(&self) -> Seq<GroupedEvent> {
        self.0@
    }
}

/// Whether a line with this level and message starts a multi-line fatal/ANR event.
pub open spec fn stack_head(level: char, message: Seq<char>) -> bool {
    ||| level == 'F'
    ||| has_sub(ascii_lower(message), "fatal exception"@)
    ||| has_sub(ascii_lower(message), "anr in"@)
    ||| has_sub(ascii_lower(message), "fatal signal"@)
}

/// Whether a stack headed by this line is an ANR dump (otherwise a crash).
pub open spec fn anr_head(head: IndexedLogLine) -> bool {
    has_sub(ascii_lower(head.message@), "anr in"@)
}

/// Message shapes that continue any stack: `at `, `caused by:`, `process:`,
/// `pid:`, `reason:` (case-insensitive, after leading whitespace) or a tab.
pub open spec fn continuation_text(message: Seq<char>) -> bool {
    let msg = trim_start(message);
    let lower = ascii_lower(msg);
    ||| starts_with(lower, "at "@)
    ||| starts_with(lower, "caused by:"@)
    ||| starts_with(lower, "process:"@)
    ||| starts_with(lower, "pid:"@)
    ||| starts_with(lower, "reason:"@)
    ||| starts_with(msg, "\t"@)
}

/// Whether `line` continues the open stack `stack` (whose first line is its head).
pub open spec fn continues_stack(stack: Seq<IndexedLogLine>, line: IndexedLogLine) -> bool {
    let head = stack[0];
    &&& line.pid == head.pid
    &&& !stack_head(line.level, line.message@)
    &&& stack.len() < MAX_GROUP_LINES
    &&& {
        ||| continuation_text(line.message@)
        ||| if anr_head(head) {
            line.tag@ == "ActivityManager"@ || line.tag@ == head.tag@
        } else {
            is_crash_tag(line.tag@)
        }
    }
}

/// One step of grouping: `done` holds the closed groups, `open` the stack being
/// built (empty when none).
pub open spec fn group_step(
    done: Seq<Seq<IndexedLogLine>>,
    open: Seq<IndexedLogLine>,
    line: IndexedLogLine,
) -> (Seq<Seq<IndexedLogLine>>, Seq<IndexedLogLine>) {
    if open.len() > 0 && continues_stack(open, line) {
        (done, open.push(line))
    } else {
        let closed = if open.len() > 0 {
            done.push(open)
        } else {
            done
        };
        if stack_head(line.level, line.message@) {
            (closed, seq![line])
        } else {
            (closed.push(seq![line]), Seq::empty())
        }
    }
}

/// Grouping state after reading all of `lines` in order.
pub open spec fn group_fold(lines: Seq<IndexedLogLine>) -> (
    Seq<Seq<IndexedLogLine>>,
    Seq<IndexedLogLine>,
)
    decreases lines.len(),
{
    if lines.len() == 0 {
        (Seq::empty(), Seq::empty())
    } else {
        let prev = group_fold(lines.drop_last());
        group_step(prev.0, prev.1, lines.last())
    }
}

/// The groups of consecutive lines that become events, in order.
pub open spec fn line_groups(lines: Seq<IndexedLogLine>) -> Seq<Seq<IndexedLogLine>> {
    let state = group_fold(lines);
    if state.1.len() > 0 {
        state.0.push(state.1)
    } else {
        state.0
    }
}

/// `e` is the event built from the lines `g`: head fields from the first line,
/// one redacted sample per line.
pub open spec fn event_of(e: GroupedEvent, g: Seq<IndexedLogLine>) -> bool {
    &&& g.len() > 0
    &&& e.index == g[0].index
    &&& e.pid == g[0].pid
    &&& e.level == g[0].level
    &&& e.tag@ == g[0].tag@
    &&& e.headline@ == g[0].message@
    &&& e.samples@.len() == g.len()
    &&& forall|i: int| 0 <= i < g.len() ==> #[trigger] e.samples@[i]@ == redacted(g[i].message@)
}

/// Concatenation of groups, in order.
pub open spec fn concat_groups(gs: Seq<Seq<IndexedLogLine>>) -> Seq<IndexedLogLine>
    decreases gs.len(),
{
    if gs.len() == 0 {
        Seq::empty()
    } else {
        concat_groups(gs.drop_last()) + gs.last()
    }
}

/// A well-formed group: non-empty, at most [`MAX_GROUP_LINES`] lines, all of one
/// pid, and headed by a stack head whenever it has more than one line.
pub open spec fn group_shape(g: Seq<IndexedLogLine>) -> bool {
    &&& 0 < g.len() <= MAX_GROUP_LINES
    &&& forall|k: int| 0 <= k < g.len() ==> (#[trigger] g[k]).pid == g[0].pid
    &&& g.len() > 1 ==> stack_head(g[0].level, g[0].message@)
}

proof fn lemma_concat_push(gs: Seq<Seq<IndexedLogLine>>, g: Seq<IndexedLogLine>)
    ensures
        concat_groups(gs.push(g)) == concat_groups(gs) + g,
{
    assert(gs.push(g).drop_last() == gs);
}

/// Invariant of the grouping fold over `lines`.
spec fn fold_inv(lines: Seq<IndexedLogLine>) -> bool {
    let state = group_fold(lines);
    &&& concat_groups(state.0) + state.1 == lines
    &&& forall|k: int| 0 <= k < state.0.len() ==> group_shape(#[trigger] state.0[k])
    &&& state.1.len() > 0 ==> group_shape(state.1) && stack_head(
        state.1[0].level,
        state.1[0].message@,
    )
}

proof fn lemma_fold_inv(lines: Seq<IndexedLogLine>)
    ensures
        fold_inv(lines),
    decreases lines.len(),
{
    if lines.len() == 0 {
        assert(concat_groups(Seq::<Seq<IndexedLogLine>>::empty()) + Seq::<IndexedLogLine>::empty()
            =~= lines);
    } else {
        let pre = lines.drop_last();
        let line = lines.last();
        lemma_fold_inv(pre);
        let (done, open) = group_fold(pre);
        assert(pre.push(line) == lines);
        if open.len() > 0 && continues_stack(open, line) {
            assert(concat_groups(done) + open.push(line) =~= lines);
            let g = open.push(line);
            assert forall|k: int| 0 <= k < g.len() implies (#[trigger] g[k]).pid == g[0].pid by {
                if k < open.len() {
                    assert(g[k] == open[k]);
                }
            }
        } else {
            let closed = if open.len() > 0 {
                done.push(open)
            } else {
                done
            };
            if open.len() > 0 {
                lemma_concat_push(done, open);
            }
            assert(concat_groups(closed) == concat_groups(done) + open);
            assert forall|k: int| 0 <= k < closed.len() implies group_shape(#[trigger] closed[k]) by {
                if k < done.len() {
                    assert(closed[k] == done[k]);
                }
            }
            let single = seq![line];
            if stack_head(line.level, line.message@) {
                assert(concat_groups(closed) + single =~= lines);
            } else {
                lemma_concat_push(closed, single);
                assert(concat_groups(closed.push(single)) + Seq::<IndexedLogLine>::empty()
                    =~= lines);
                let next = closed.push(single);
                assert forall|k: int| 0 <= k < next.len() implies group_shape(#[trigger] next[k]) by {
                    if k < closed.len() {
                        assert(next[k] == closed[k]);
                    }
                }
            }
        }
    }
}

/// Grouping consumes every line exactly once and in order: the groups, joined
/// in order, are the input lines. Each group is non-empty, holds at most
/// [`MAX_GROUP_LINES`] lines of one pid, and a group of several lines starts
/// with a fatal/ANR head line.
pub proof fn lemma_groups_partition_lines(lines: Seq<IndexedLogLine>)
    ensures
        concat_groups(line_groups(lines)) == lines,
        forall|k: int|
            0 <= k < line_groups(lines).len() ==> group_shape(#[trigger] line_groups(lines)[k]),
{
    lemma_fold_inv(lines);
    let (done, open) = group_fold(lines);
    if open.len() > 0 {
        lemma_concat_push(done, open);
        let gs = done.push(open);
        assert forall|k: int| 0 <= k < gs.len() implies group_shape(#[trigger] gs[k]) by {
            if k < done.len() {
                assert(gs[k] == done[k]);
            }
        }
    } else {
        assert(concat_groups(done) + open =~= concat_groups(done));
    }
}

proof fn lemma_concat_len(gs: Seq<Seq<IndexedLogLine>>)
    requires
        forall|k: int| 0 <= k < gs.len() ==> (#[trigger] gs[k]).len() > 0,
    ensures
        gs.len() <= concat_groups(gs).len(),
    decreases gs.len(),
{
    if gs.len() > 0 {
        lemma_concat_len(gs.drop_last());
    }
}

/// Grouping never yields more events than lines.
pub proof fn lemma_group_count_le(lines: Seq<IndexedLogLine>)
    ensures
        line_groups(lines).len() <= lines.len(),
{
    lemma_groups_partition_lines(lines);
    lemma_concat_len(line_groups(lines));
}

/// Whether level/message start a multi-line fatal/ANR event.
pub fn is_stack_head_message(level: char, message: &str) -> (res: bool)
    ensures
        res == stack_head(level, message@),
{
    if level == 'F' {
        return true;
    }
    let lower = lower_chars(&chars_of(message));
    contains_chars(&lower, &chars_of("fatal exception")) || contains_chars(
        &lower,
        &chars_of("anr in"),
    ) || contains_chars(&lower, &chars_of("fatal signal"))
}

#[derive(Clone, Copy, PartialEq, Eq, Structural)]
enum StackKind {
    Crash,
    Anr,
}

/// An open multi-line stack.
struct LineStackBuilder {
    kind: StackKind,
    pid: u32,
    tag: String,
    level: char,
    index: usize,
    lines: Vec<IndexedLogLine>,
}

/// `b` is the builder for the open stack `open`.
spec fn builder_of(b: LineStackBuilder, open: Seq<IndexedLogLine>) -> bool {
    &&& open.len() > 0
    &&& b.lines@ == open
    &&& b.kind == (if anr_head(open[0]) {
        StackKind::Anr
    } else {
        StackKind::Crash
    })
    &&& b.pid == open[0].pid
    &&& b.tag@ == open[0].tag@
    &&& b.level == open[0].level
    &&& b.index == open[0].index
}

impl LineStackBuilder {
    fn start(line: IndexedLogLine) -> (res: Self)
        ensures
            builder_of(res, seq![line]),
    {
        let lower = lower_chars(&chars_of(line.message.as_str()));
        let kind = if contains_chars(&lower, &chars_of("anr in")) {
            StackKind::Anr
        } else {
            StackKind::Crash
        };
        let pid = line.pid;
        let tag = line.tag.clone();
        let level = line.level;
        let index = line.index;
        let mut lines: Vec<IndexedLogLine> = Vec::new();
        lines.push(line);
        LineStackBuilder { kind, pid, tag, level, index, lines }
    }

    fn into_event(self) -> (res: GroupedEvent)
        requires
            builder_of(self, self.lines@),
        ensures
            event_of(res, self.lines@),
    {
        GroupedEvent::from_lines(self.tag, self.level, self.pid, self.index, self.lines)
    }
}

/// Whether `line` continues the stack `builder` is building.
fn is_stack_continuation(builder: &LineStackBuilder, line: &IndexedLogLine) -> (res: bool)
    requires
        builder_of(*builder, builder.lines@),
    ensures
        res == continues_stack(builder.lines@, *line),
{
    if line.pid != builder.pid || is_stack_head_message(line.level, line.message.as_str()) {
        return false;
    }
    if builder.lines.len() >= MAX_GROUP_LINES {
        return false;
    }
    let msg = trim_start_chars(&chars_of(line.message.as_str()));
    let lower = lower_chars(&msg);
    if starts_with_chars(&lower, &chars_of("at ")) || starts_with_chars(
        &lower,
        &chars_of("caused by:"),
    ) || starts_with_chars(&lower, &chars_of("process:")) || starts_with_chars(
        &lower,
        &chars_of("pid:"),
    ) || starts_with_chars(&lower, &chars_of("reason:")) || starts_with_chars(
        &msg,
        &chars_of("\t"),
    ) {
        return true;
    }
    match builder.kind {
        StackKind::Crash => crash_tag(line.tag.as_str()),
        StackKind::Anr => str_eq(line.tag.as_str(), "ActivityManager") || line.tag
            == builder.tag,
    }
}

impl GroupedEvent {
    fn from_line(line: IndexedLogLine) -> (res: Self)
        ensures
            event_of(res, seq![line]),
    {
        let tag = line.tag.clone();
        let level = line.level;
        let pid = line.pid;
        let index = line.index;
        let mut lines: Vec<IndexedLogLine> = Vec::new();
        lines.push(line);
        Self::from_lines(tag, level, pid, index, lines)
    }

    fn from_lines(
        tag: String,
        level: char,
        pid: u32,
        index: usize,
        lines: Vec<IndexedLogLine>,
    ) -> (res: Self)
        ensures
            res.index == index,
            res.level == level,
            res.tag == tag,
            res.pid == pid,
            lines.len() > 0 ==> res.headline@ == lines@[0].message@,
            lines.len() == 0 ==> res.headline@ == Seq::<char>::empty(),
            res.samples@.len() == lines@.len(),
            forall|i: int|
                0 <= i < lines@.len() ==> #[trigger] res.samples@[i]@ == redacted(
                    lines@[i].message@,
                ),
    {
        let headline = if lines.len() > 0 {
            lines[0].message.clone()
        } else {
            String::new()
        };
        let mut samples: Vec<String> = Vec::new();
        let mut i: usize = 0;
        while i < lines.len()
            invariant
                i <= lines.len(),
                samples@.len() == i,
                forall|k: int|
                    0 <= k < i ==> #[trigger] samples@[k]@ == redacted(lines@[k].message@),
            decreases lines.len() - i,
        {
            samples.push(redact(lines[i].message.as_str()));
            i = i + 1;
        }
        GroupedEvent { index, level, tag, pid, headline, samples }
    }
}

impl core::ops::Deref for GroupedEventList {
    type Target = [GroupedEvent];

    fn deref(&self) -> (res: &[GroupedEvent])
        ensures
            res@ == self@,
    {
        self.0.as_slice()
    }
}

impl AsRef<[GroupedEvent]> for GroupedEventList {
    fn as_ref(&self) -> (res: &[GroupedEvent])
        ensures
            res@ == self@,
    {
        self.0.as_slice()
    }
}

impl IntoIterator for GroupedEventList {
    type Item = GroupedEvent;
    type IntoIter = std::vec::IntoIter<GroupedEvent>;

    fn into_iter(self) -> (res: Self::IntoIter)
        ensures
            res.remaining() == self@,
            res.decrease() is Some,
    {
        self.0.into_iter()
    }
}

impl<'a> IntoIterator for &'a GroupedEventList {
    type Item = &'a GroupedEvent;
    type IntoIter = std::slice::Iter<'a, GroupedEvent>;

    fn into_iter(self) -> (res: Self::IntoIter)
        ensures
            res.remaining() == self@.as_ref(),
            res.decrease() is Some,
    {
        self.0.as_slice().iter()
    }
}

impl GroupedEventList {
    /// Group time-ordered indexed lines into events. Every line is consumed.
    pub fn group_from_indexed_log_lines(lines: &[IndexedLogLine]) -> (res: Self)
        ensures
            res@.len() == line_groups(lines@).len(),
            forall|i: int|
                0 <= i < res@.len() ==> event_of(#[trigger] res@[i], line_groups(lines@)[i]),
            Seq::new(res@.len(), |i: int| res@[i]@) == grouped_views(lines@),
    {
        let mut events: Vec<GroupedEvent> = Vec::new();
        let mut builder: Option<LineStackBuilder> = None;
        let mut i: usize = 0;
        while i < lines.len()
            invariant
                i <= lines.len(),
                events@.len() == group_fold(lines@.take(i as int)).0.len(),
                forall|k: int|
                    0 <= k < events@.len() ==> event_of(
                        #[trigger] events@[k],
                        group_fold(lines@.take(i as int)).0[k],
                    ),
                builder is Some <==> group_fold(lines@.take(i as int)).1.len() > 0,
                builder matches Some(b) ==> builder_of(b, group_fold(lines@.take(i as int)).1),
            decreases lines.len() - i,
        {
            let ghost prev = group_fold(lines@.take(i as int));
            let line = &lines[i];
            assert(lines@.take(i + 1).drop_last() == lines@.take(i as int));
            assert(lines@.take(i + 1).last() == *line);
            let ghost next = group_fold(lines@.take(i + 1));
            assert(next == group_step(prev.0, prev.1, *line));
            let mut extended = false;
            match builder {
                Some(mut stack) => {
                    if is_stack_continuation(&stack, line) {
                        stack.lines.push(line.clone());
                        builder = Some(stack);
                        extended = true;
                    } else {
                        let ev = stack.into_event();
                        events.push(ev);
                        builder = None;
                    }
                },
                None => {},
            }
            if !extended {
                if is_stack_head_message(line.level, line.message.as_str()) {
                    builder = Some(LineStackBuilder::start(line.clone()));
                } else {
                    events.push(GroupedEvent::from_line(line.clone()));
                }
            }
            proof {
                assert forall|k: int| 0 <= k < events@.len() implies event_of(
                    #[trigger] events@[k],
                    next.0[k],
                ) by {}
            }
            i = i + 1;
        }
        assert(lines@.take(lines.len() as int) == lines@);
        match builder {
            Some(stack) => {
                let ev = stack.into_event();
                events.push(ev);
            },
            None => {},
        }
        proof {
            assert forall|k: int| 0 <= k < events@.len() implies #[trigger] events@[k]@ == group_view(
                line_groups(lines@)[k],
            ) by {
                lemma_event_of_view(events@[k], line_groups(lines@)[k]);
            }
            assert(Seq::new(events@.len(), |i: int| events@[i]@) =~= grouped_views(lines@));
        }
        GroupedEventList(events)
    }

    /// Number of grouped events.
    pub fn len(&self) -> (res: usize)
        ensures
            res == self@.len(),
    {
        self.0.len()
    }

    /// True when there are no events.
    pub fn is_empty(&self) -> (res: bool)
        ensures
            res == (self@.len() == 0),
    {
        self.0.len() == 0
    }

    /// Borrow the underlying events.
    pub fn as_slice(&self) -> (res: &[GroupedEvent])
        ensures
            res@ == self@,
    {
        self.0.as_slice()
    }

    /// Take the underlying events.
    pub fn into_vec(self) -> (res: Vec<GroupedEvent>)
        ensures
            res@ == self@,
    {
        self.0
    }
}

/// Two lines agree in everything but their index.
pub open spec fn same_but_index(a: IndexedLogLine, b: IndexedLogLine) -> bool {
    a.pid == b.pid && a.level == b.level && a.tag == b.tag && a.message == b.message
}

/// Two line sequences agree position by position in everything but the index.
pub open spec fn lines_match(s1: Seq<IndexedLogLine>, s2: Seq<IndexedLogLine>) -> bool {
    s1.len() == s2.len() && forall|i: int| 0 <= i < s1.len() ==> same_but_index(#[trigger] s1[i], s2[i])
}

/// Two group sequences agree group by group in everything but the indices.
pub open spec fn groups_match(g1: Seq<Seq<IndexedLogLine>>, g2: Seq<Seq<IndexedLogLine>>) -> bool {
    g1.len() == g2.len() && forall|k: int| 0 <= k < g1.len() ==> lines_match(#[trigger] g1[k], g2[k])
}

pub(crate) proof fn lemma_lines_match_push(
    s1: Seq<IndexedLogLine>,
    s2: Seq<IndexedLogLine>,
    a: IndexedLogLine,
    b: IndexedLogLine,
)
    requires
        lines_match(s1, s2),
        same_but_index(a, b),
    ensures
        lines_match(s1.push(a), s2.push(b)),
{
    assert forall|i: int| 0 <= i < s1.push(a).len() implies same_but_index(
        #[trigger] s1.push(a)[i],
        s2.push(b)[i],
    ) by {
        if i < s1.len() {
            assert(s1.push(a)[i] == s1[i] && s2.push(b)[i] == s2[i]);
        }
    }
}

proof fn lemma_groups_match_push(
    g1: Seq<Seq<IndexedLogLine>>,
    g2: Seq<Seq<IndexedLogLine>>,
    a: Seq<IndexedLogLine>,
    b: Seq<IndexedLogLine>,
)
    requires
        groups_match(g1, g2),
        lines_match(a, b),
    ensures
        groups_match(g1.push(a), g2.push(b)),
{
    assert forall|k: int| 0 <= k < g1.push(a).len() implies lines_match(
        #[trigger] g1.push(a)[k],
        g2.push(b)[k],
    ) by {
        if k < g1.len() {
            assert(g1.push(a)[k] == g1[k] && g2.push(b)[k] == g2[k]);
        }
    }
}

/// Grouping does not look at the line indices: lines that agree in everything
/// else fall into groups of the same shape.
pub proof fn lemma_groups_ignore_index(l1: Seq<IndexedLogLine>, l2: Seq<IndexedLogLine>)
    requires
        lines_match(l1, l2),
    ensures
        groups_match(line_groups(l1), line_groups(l2)),
{
    lemma_fold_ignores_index(l1, l2);
    let (d1, o1) = group_fold(l1);
    let (d2, o2) = group_fold(l2);
    if o1.len() > 0 {
        lemma_groups_match_push(d1, d2, o1, o2);
    }
}

proof fn lemma_fold_ignores_index(l1: Seq<IndexedLogLine>, l2: Seq<IndexedLogLine>)
    requires
        lines_match(l1, l2),
    ensures
        groups_match(group_fold(l1).0, group_fold(l2).0),
        lines_match(group_fold(l1).1, group_fold(l2).1),
    decreases l1.len(),
{
    if l1.len() > 0 {
        let p1 = l1.drop_last();
        let p2 = l2.drop_last();
        assert forall|i: int| 0 <= i < p1.len() implies same_but_index(#[trigger] p1[i], p2[i]) by {
            assert(p1[i] == l1[i] && p2[i] == l2[i]);
        }
        lemma_fold_ignores_index(p1, p2);
        let (d1, o1) = group_fold(p1);
        let (d2, o2) = group_fold(p2);
        let x1 = l1.last();
        let x2 = l2.last();
        assert(same_but_index(x1, x2));
        if o1.len() > 0 {
            assert(o1[0].pid == o2[0].pid && o1[0].tag == o2[0].tag && o1[0].message
                == o2[0].message);
        }
        if o1.len() > 0 && continues_stack(o1, x1) {
            assert(continues_stack(o2, x2));
            lemma_lines_match_push(o1, o2, x1, x2);
        } else {
            assert(!(o2.len() > 0 && continues_stack(o2, x2)));
            let c1 = if o1.len() > 0 {
                d1.push(o1)
            } else {
                d1
            };
            let c2 = if o2.len() > 0 {
                d2.push(o2)
            } else {
                d2
            };
            if o1.len() > 0 {
                lemma_groups_match_push(d1, d2, o1, o2);
            }
            assert(groups_match(c1, c2));
            lemma_lines_match_push(Seq::empty(), Seq::empty(), x1, x2);
            assert(Seq::<IndexedLogLine>::empty().push(x1) == seq![x1]);
            assert(Seq::<IndexedLogLine>::empty().push(x2) == seq![x2]);
            if !stack_head(x1.level, x1.message@) {
                lemma_groups_match_push(c1, c2, seq![x1], seq![x2]);
            }
        }
    }
}

} // verus!
