//! Build an LLM-ready snapshot from parsed log lines.

use vstd::prelude::*;

use crate::event::{
    event_of, grouped_views, line_groups, lines_match, same_but_index, strings_view, EventView,
    GroupedEvent, GroupedEventList, IndexedLogLine,
};
use crate::fingerprint::{DeviceLabel, DeviceModel};
use crate::parse::{is_error_letter, LogLine};
use crate::reduce::{
    absorb, absorbed, events_view, retain_clusters, retained, same_content, same_contents,
    trim_to_json_budget, trimmed,
};
use crate::text::{chars_of, contains_chars, has_sub, str_eq, string_of};

verus! {

/// One error shape: fingerprint, counts, and redacted samples.
#[derive(Debug, Clone)]
pub struct Cluster {
    /// Noise-stable hex fingerprint for this shape.
    pub fingerprint: String,
    /// Representative log tag.
    pub tag: String,
    /// Representative priority letter.
    pub level: char,
    /// How many events folded into this cluster.
    pub count: u32,
    /// Redacted sample messages (stacks may span several lines).
    pub samples: Vec<String>,
}

/// What a cluster holds, with every text taken by its characters.
pub struct ClusterView {
    /// Fingerprint.
    pub fingerprint: Seq<char>,
    /// Representative tag.
    pub tag: Seq<char>,
    /// Representative priority letter.
    pub level: char,
    /// Number of events folded in.
    pub count: nat,
    /// Redacted samples.
    pub samples: Seq<Seq<char>>,
}

impl View for Cluster {
    type V = ClusterView;

    open spec fn view(&self) -> ClusterView {
        ClusterView {
            fingerprint: self.fingerprint@,
            tag: self.tag@,
            level: self.level,
            count: self.count as nat,
            samples: strings_view(self.samples@),
        }
    }
}

/// The views of a sequence of clusters.
pub open spec fn clusters_view(cs: Seq<Cluster>) -> Seq<ClusterView> {
    Seq::new(cs.len(), |i: int| cs[i]@)
}

/// Count buckets of the digest key: a cluster's count is divided by this.
pub const DIGEST_COUNT_BUCKET: u32 = 5;

/// Cluster cap of the default options.
pub const DEFAULT_MAX_CLUSTERS: usize = 8;

/// Options for [`Snapshot::from_lines`] / [`Snapshot::from_events`].
#[derive(Debug, Clone)]
pub struct SnapshotOpts {
    /// Non-reversible device id from [`DeviceLabel::new`].
    pub device_label: DeviceLabel,
    /// Human-readable model stored on the snapshot.
    pub device_model: DeviceModel,
    /// When true, only Error and Fatal lines are included.
    pub errors_only: bool,
    /// Soft cap on retained clusters (high-severity shapes are pinned first).
    pub max_clusters: usize,
}

impl Default for SnapshotOpts {
    /// Empty label and model, errors only, at most 8 clusters.
    fn default() -> (res: Self)
        ensures
            res.device_label@ == Seq::<char>::empty(),
            res.device_model@ == Seq::<char>::empty(),
            res.errors_only,
            res.max_clusters == DEFAULT_MAX_CLUSTERS,
    {
        SnapshotOpts {
            device_label: DeviceLabel::default(),
            device_model: DeviceModel::default(),
            errors_only: true,
            max_clusters: DEFAULT_MAX_CLUSTERS,
        }
    }
}

/// Typestate builder for [`SnapshotOpts`]. Missing label or model is a compile error.
#[derive(Debug, Clone)]
pub struct SnapshotOptsBuilder<L, M> {
    label: L,
    model: M,
    errors_only: bool,
    max_clusters: usize,
}

impl<L, M> SnapshotOptsBuilder<L, M> {
    /// The label set so far.
    pub closed spec fn label_value(&self) -> L {
        self.label
    }

    /// The model set so far.
    pub closed spec fn model_value(&self) -> M {
        self.model
    }

    /// The errors-only flag set so far.
    pub closed spec fn errors_only_value(&self) -> bool {
        self.errors_only
    }

    /// The cluster cap set so far.
    pub closed spec fn max_clusters_value(&self) -> usize {
        self.max_clusters
    }

    /// Include only Error/Fatal lines when `true` (the default).
    pub fn errors_only(self, errors_only: bool) -> (res: Self)
        ensures
            res.label_value() == self.label_value(),
            res.model_value() == self.model_value(),
            res.errors_only_value() == errors_only,
            res.max_clusters_value() == self.max_clusters_value(),
    {
        SnapshotOptsBuilder {
            label: self.label,
            model: self.model,
            errors_only,
            max_clusters: self.max_clusters,
        }
    }

    /// Soft cap on retained clusters (default 8).
    pub fn max_clusters(self, max_clusters: usize) -> (res: Self)
        ensures
            res.label_value() == self.label_value(),
            res.model_value() == self.model_value(),
            res.errors_only_value() == self.errors_only_value(),
            res.max_clusters_value() == max_clusters,
    {
        SnapshotOptsBuilder {
            label: self.label,
            model: self.model,
            errors_only: self.errors_only,
            max_clusters,
        }
    }
}

impl SnapshotOpts {
    /// Start a typestate builder; [`SnapshotOptsBuilder::build`] requires label and model.
    pub fn builder() -> (res: SnapshotOptsBuilder<(), ()>)
        ensures
            res.errors_only_value(),
            res.max_clusters_value() == DEFAULT_MAX_CLUSTERS,
    {
        SnapshotOptsBuilder {
            label: (),
            model: (),
            errors_only: true,
            max_clusters: DEFAULT_MAX_CLUSTERS,
        }
    }
}

impl SnapshotOptsBuilder<(), ()> {
    /// Set the device label.
    pub fn label(self, label: DeviceLabel) -> (res: SnapshotOptsBuilder<DeviceLabel, ()>)
        ensures
            res.label_value() == label,
            res.errors_only_value() == self.errors_only_value(),
            res.max_clusters_value() == self.max_clusters_value(),
    {
        SnapshotOptsBuilder {
            label,
            model: self.model,
            errors_only: self.errors_only,
            max_clusters: self.max_clusters,
        }
    }

    /// Set the device model.
    pub fn model(self, model: DeviceModel) -> (res: SnapshotOptsBuilder<(), DeviceModel>)
        ensures
            res.model_value() == model,
            res.errors_only_value() == self.errors_only_value(),
            res.max_clusters_value() == self.max_clusters_value(),
    {
        SnapshotOptsBuilder {
            label: self.label,
            model,
            errors_only: self.errors_only,
            max_clusters: self.max_clusters,
        }
    }
}

impl SnapshotOptsBuilder<DeviceLabel, ()> {
    /// Set the device model.
    pub fn model(self, model: DeviceModel) -> (res: SnapshotOptsBuilder<DeviceLabel, DeviceModel>)
        ensures
            res.label_value() == self.label_value(),
            res.model_value() == model,
            res.errors_only_value() == self.errors_only_value(),
            res.max_clusters_value() == self.max_clusters_value(),
    {
        SnapshotOptsBuilder {
            label: self.label,
            model,
            errors_only: self.errors_only,
            max_clusters: self.max_clusters,
        }
    }
}

impl SnapshotOptsBuilder<(), DeviceModel> {
    /// Set the device label.
    pub fn label(self, label: DeviceLabel) -> (res: SnapshotOptsBuilder<DeviceLabel, DeviceModel>)
        ensures
            res.label_value() == label,
            res.model_value() == self.model_value(),
            res.errors_only_value() == self.errors_only_value(),
            res.max_clusters_value() == self.max_clusters_value(),
    {
        SnapshotOptsBuilder {
            label,
            model: self.model,
            errors_only: self.errors_only,
            max_clusters: self.max_clusters,
        }
    }
}

impl SnapshotOptsBuilder<DeviceLabel, DeviceModel> {
    /// Finish the builder into [`SnapshotOpts`].
    pub fn build(self) -> (res: SnapshotOpts)
        ensures
            res.device_label == self.label_value(),
            res.device_model == self.model_value(),
            res.errors_only == self.errors_only_value(),
            res.max_clusters == self.max_clusters_value(),
    {
        SnapshotOpts {
            device_label: self.label,
            device_model: self.model,
            errors_only: self.errors_only,
            max_clusters: self.max_clusters,
        }
    }
}

/// Reduced digest of log lines for one device.
#[derive(Debug, Clone)]
pub struct Snapshot {
    /// Non-reversible device label.
    pub device_label: DeviceLabel,
    /// Human-readable device model.
    pub device_model: DeviceModel,
    /// Priority letters included in this digest (`E`/`F` when errors-only).
    pub levels: Vec<&'static str>,
    /// Budgeted clusters, high-severity shapes first when pinned.
    pub clusters: Vec<Cluster>,
}

/// The priority letters a snapshot covers.
pub open spec fn levels_for(errors_only: bool) -> Seq<Seq<char>> {
    if errors_only {
        seq![seq!['E'], seq!['F']]
    } else {
        seq![seq!['V'], seq!['D'], seq!['I'], seq!['W'], seq!['E'], seq!['F']]
    }
}

/// The characters of each level label.
pub open spec fn levels_view(levels: Seq<&'static str>) -> Seq<Seq<char>> {
    Seq::new(levels.len(), |i: int| levels[i]@)
}

/// The clusters a snapshot keeps of some events: absorbed by fingerprint, then
/// pinned and capped, then trimmed to the JSON budget.
pub open spec fn snapshot_clusters(events: Seq<EventView>, max: usize) -> Seq<ClusterView> {
    trimmed(retained(absorbed(events), max))
}

/// The indexed lines a snapshot is built from: every line (or only the Error
/// and Fatal ones), each with its position in `lines`.
pub open spec fn selected_lines(lines: Seq<LogLine>, errors_only: bool) -> Seq<IndexedLogLine>
    decreases lines.len(),
{
    if lines.len() == 0 {
        Seq::empty()
    } else {
        let prev = selected_lines(lines.drop_last(), errors_only);
        let l = lines.last();
        if !errors_only || is_error_letter(l.level) {
            prev.push(
                IndexedLogLine {
                    index: (lines.len() - 1) as usize,
                    pid: l.pid,
                    level: l.level,
                    tag: l.tag,
                    message: l.message,
                },
            )
        } else {
            prev
        }
    }
}

/// The labels of the levels a snapshot covers.
fn level_labels(errors_only: bool) -> (res: Vec<&'static str>)
    ensures
        levels_view(res@) == levels_for(errors_only),
{
    proof {
        reveal_strlit("V");
        reveal_strlit("D");
        reveal_strlit("I");
        reveal_strlit("W");
        reveal_strlit("E");
        reveal_strlit("F");
        assert("V"@ =~= seq!['V']);
        assert("D"@ =~= seq!['D']);
        assert("I"@ =~= seq!['I']);
        assert("W"@ =~= seq!['W']);
        assert("E"@ =~= seq!['E']);
        assert("F"@ =~= seq!['F']);
    }
    let res = if errors_only {
        vec!["E", "F"]
    } else {
        vec!["V", "D", "I", "W", "E", "F"]
    };
    assert(levels_view(res@) =~= levels_for(errors_only));
    res
}

impl Snapshot {
    /// Filter, fold (redact), fingerprint, and cluster already-parsed log lines.
    pub fn from_lines(lines: &[LogLine], opts: SnapshotOpts) -> (res: Self)
        requires
            lines.len() <= u32::MAX,
        ensures
            res.device_label == opts.device_label,
            res.device_model == opts.device_model,
            levels_view(res.levels@) == levels_for(opts.errors_only),
            clusters_view(res.clusters@) == snapshot_clusters(
                grouped_views(selected_lines(lines@, opts.errors_only)),
                opts.max_clusters,
            ),
    {
        let mut indexed: Vec<IndexedLogLine> = Vec::new();
        let mut i: usize = 0;
        while i < lines.len()
            invariant
                i <= lines.len(),
                indexed@ == selected_lines(lines@.take(i as int), opts.errors_only),
                indexed@.len() <= i,
            decreases lines.len() - i,
        {
            let ghost pre = lines@.take(i + 1);
            assert(pre.drop_last() == lines@.take(i as int));
            assert(pre.last() == lines@[i as int]);
            if !opts.errors_only || lines[i].is_error_level() {
                indexed.push(IndexedLogLine::from_log_line(i, &lines[i]));
            }
            i = i + 1;
        }
        assert(lines@.take(lines.len() as int) == lines@);
        let grouped = GroupedEventList::group_from_indexed_log_lines(indexed.as_slice());
        proof {
            crate::event::lemma_group_count_le(indexed@);
        }
        let events = grouped.into_vec();
        assert(events_view(events@) =~= grouped_views(indexed@));
        Self::from_events(events.as_slice(), opts)
    }

    /// Fingerprint and consolidate folded events into a snapshot.
    ///
    /// Events should already carry redacted samples (as produced by
    /// [`GroupedEventList::group_from_indexed_log_lines`]). Identical bugs
    /// collapse by fingerprint; the result is pinned/trimmed to the cluster and
    /// JSON budgets.
    pub fn from_events(events: &[GroupedEvent], opts: SnapshotOpts) -> (res: Self)
        requires
            events.len() <= u32::MAX,
        ensures
            res.device_label == opts.device_label,
            res.device_model == opts.device_model,
            levels_view(res.levels@) == levels_for(opts.errors_only),
            clusters_view(res.clusters@) == snapshot_clusters(
                events_view(events@),
                opts.max_clusters,
            ),
    {
        let mut clusters = absorb(events);
        retain_clusters(&mut clusters, opts.max_clusters);
        trim_to_json_budget(&mut clusters);
        Snapshot {
            device_label: opts.device_label,
            device_model: opts.device_model,
            levels: level_labels(opts.errors_only),
            clusters,
        }
    }
}

/// The decimal digit character for a value below 10.
pub open spec fn digit_char(d: nat) -> char {
    (('0' as u32) + d) as char
}

/// Decimal text of a number, without leading zeros.
pub open spec fn decimal_text(n: nat) -> Seq<char>
    decreases n,
{
    if n < 10 {
        seq![digit_char(n)]
    } else {
        decimal_text(n / 10).push(digit_char(n % 10))
    }
}

/// One entry of the digest key: `fingerprint:{count / 5}`.
pub open spec fn digest_entry(c: ClusterView) -> Seq<char> {
    c.fingerprint + ":"@ + decimal_text(c.count / (DIGEST_COUNT_BUCKET as nat))
}

/// The digest key of clusters: their entries joined by `|`.
pub open spec fn digest_key_of(cs: Seq<ClusterView>) -> Seq<char>
    decreases cs.len(),
{
    if cs.len() == 0 {
        Seq::empty()
    } else if cs.len() == 1 {
        digest_entry(cs[0])
    } else {
        digest_key_of(cs.drop_last()) + "|"@ + digest_entry(cs.last())
    }
}

/// A cluster that counts as high severity for change detection: Fatal level or
/// the `AndroidRuntime` tag.
pub open spec fn alarming(c: ClusterView) -> bool {
    c.level == 'F' || c.tag == "AndroidRuntime"@
}

/// Some alarming cluster's fingerprint does not occur in `previous_key`.
pub open spec fn has_new_alarm(cs: Seq<ClusterView>, previous_key: Seq<char>) -> bool {
    exists|k: int| 0 <= k < cs.len() && alarming(cs[k]) && !has_sub(previous_key, #[trigger] cs[k].fingerprint)
}

/// Decimal text of `n`.
fn decimal_chars(n: u32) -> (res: Vec<char>)
    ensures
        res@ == decimal_text(n as nat),
    decreases n,
{
    let d = ((n % 10) as u8 + 48u8) as char;
    assert(d == digit_char((n % 10) as nat));
    if n < 10 {
        let mut v: Vec<char> = Vec::new();
        v.push(d);
        assert(v@ =~= seq![digit_char(n as nat)]);
        v
    } else {
        let mut v = decimal_chars(n / 10);
        v.push(d);
        v
    }
}

/// Append the characters of `src` to `dst`.
fn push_all(dst: &mut Vec<char>, src: &Vec<char>)
    ensures
        final(dst)@ == old(dst)@ + src@,
{
    let mut i: usize = 0;
    while i < src.len()
        invariant
            i <= src.len(),
            dst@ == old(dst)@ + src@.take(i as int),
        decreases src.len() - i,
    {
        dst.push(src[i]);
        i = i + 1;
        assert(dst@ =~= old(dst)@ + src@.take(i as int));
    }
    assert(src@.take(src.len() as int) == src@);
}

impl Snapshot {
    /// Short change-detection key: `fingerprint:{count / 5}` pairs joined by `|`.
    pub fn digest_key(&self) -> (res: String)
        ensures
            res@ == digest_key_of(clusters_view(self.clusters@)),
    {
        proof {
            reveal_strlit(":");
            reveal_strlit("|");
            assert(":"@ =~= seq![':']);
            assert("|"@ =~= seq!['|']);
        }
        let ghost cv = clusters_view(self.clusters@);
        let mut out: Vec<char> = Vec::new();
        let mut i: usize = 0;
        while i < self.clusters.len()
            invariant
                i <= self.clusters.len(),
                cv == clusters_view(self.clusters@),
                out@ == digest_key_of(cv.take(i as int)),
                ":"@ == seq![':'],
                "|"@ == seq!['|'],
            decreases self.clusters.len() - i,
        {
            let c = &self.clusters[i];
            let ghost pre = cv.take(i + 1);
            assert(pre.drop_last() == cv.take(i as int));
            assert(pre.last() == c@);
            let ghost before = out@;
            if i > 0 {
                out.push('|');
            }
            let ghost mid = out@;
            let fpc = chars_of(c.fingerprint.as_str());
            push_all(&mut out, &fpc);
            out.push(':');
            let dec = decimal_chars(c.count / DIGEST_COUNT_BUCKET);
            push_all(&mut out, &dec);
            assert(((c.count / DIGEST_COUNT_BUCKET) as nat) == c@.count / (
            DIGEST_COUNT_BUCKET as nat));
            let ghost entry = digest_entry(c@);
            assert(entry =~= fpc@ + seq![':'] + dec@);
            assert(out@ =~= mid + entry);
            if i == 0 {
                assert(mid =~= Seq::<char>::empty());
                assert(pre.len() == 1);
                assert(pre[0] == c@);
                assert(out@ =~= digest_key_of(pre));
            } else {
                assert(mid =~= before + seq!['|']);
                assert(out@ =~= digest_key_of(pre));
            }
            i = i + 1;
        }
        assert(cv.take(self.clusters.len() as int) == cv);
        string_of(&out)
    }

    /// True if any fatal or AndroidRuntime cluster fingerprint is absent from `previous_key`.
    pub fn has_new_high_severity(&self, previous_key: &str) -> (res: bool)
        ensures
            res == has_new_alarm(clusters_view(self.clusters@), previous_key@),
    {
        let ghost cv = clusters_view(self.clusters@);
        let key = chars_of(previous_key);
        let mut i: usize = 0;
        while i < self.clusters.len()
            invariant
                i <= self.clusters.len(),
                cv == clusters_view(self.clusters@),
                key@ == previous_key@,
                forall|k: int|
                    0 <= k < i ==> !(alarming(cv[k]) && !has_sub(
                        previous_key@,
                        #[trigger] cv[k].fingerprint,
                    )),
            decreases self.clusters.len() - i,
        {
            let c = &self.clusters[i];
            assert(cv[i as int] == c@);
            if (c.level == 'F' || str_eq(c.tag.as_str(), "AndroidRuntime")) && !contains_chars(
                &key,
                &chars_of(c.fingerprint.as_str()),
            ) {
                assert(alarming(cv[i as int]) && !has_sub(previous_key@, cv[i as int].fingerprint));
                return true;
            }
            i = i + 1;
        }
        false
    }
}

proof fn lemma_occurs_in_prefix(a: Seq<char>, b: Seq<char>, p: Seq<char>, i: int)
    requires
        crate::text::occurs_at(a, p, i),
    ensures
        crate::text::occurs_at(a + b, p, i),
{
    assert((a + b).subrange(i, i + p.len()) =~= a.subrange(i, i + p.len()));
}

/// Every cluster's fingerprint occurs in the digest key of the clusters.
pub proof fn lemma_fingerprints_in_digest_key(cs: Seq<ClusterView>)
    ensures
        forall|k: int| 0 <= k < cs.len() ==> has_sub(digest_key_of(cs), #[trigger] cs[k].fingerprint),
    decreases cs.len(),
{
    if cs.len() == 1 {
        let e = digest_entry(cs[0]);
        assert(crate::text::occurs_at(e, cs[0].fingerprint, 0)) by {
            assert(e.subrange(0, cs[0].fingerprint.len() as int) =~= cs[0].fingerprint);
        }
    } else if cs.len() > 1 {
        let pre = cs.drop_last();
        lemma_fingerprints_in_digest_key(pre);
        let head = digest_key_of(pre) + "|"@;
        let e = digest_entry(cs.last());
        let key = digest_key_of(cs);
        assert(key == head + e);
        assert forall|k: int| 0 <= k < cs.len() implies has_sub(key, #[trigger] cs[k].fingerprint) by {
            if k < pre.len() {
                assert(cs[k] == pre[k]);
                let i = choose|i: int| crate::text::occurs_at(digest_key_of(pre), pre[k].fingerprint, i);
                lemma_occurs_in_prefix(digest_key_of(pre), "|"@ + e, pre[k].fingerprint, i);
                assert(digest_key_of(pre) + ("|"@ + e) =~= key);
            } else {
                let fp = cs.last().fingerprint;
                assert(key.subrange(head.len() as int, (head.len() + fp.len()) as int) =~= fp);
                assert(crate::text::occurs_at(key, fp, head.len() as int));
            }
        }
    }
}

/// A snapshot has no new alarming cluster relative to its own digest key.
pub proof fn lemma_own_digest_key_has_no_new_alarm(cs: Seq<ClusterView>)
    ensures
        !has_new_alarm(cs, digest_key_of(cs)),
{
    lemma_fingerprints_in_digest_key(cs);
}

/// The digest key depends only on the fingerprints, in order, and on each
/// count divided by [`DIGEST_COUNT_BUCKET`].
pub proof fn lemma_digest_key_by_buckets(a: Seq<ClusterView>, b: Seq<ClusterView>)
    requires
        a.len() == b.len(),
        forall|k: int|
            0 <= k < a.len() ==> (#[trigger] a[k]).fingerprint == b[k].fingerprint && a[k].count
                / (DIGEST_COUNT_BUCKET as nat) == b[k].count / (DIGEST_COUNT_BUCKET as nat),
    ensures
        digest_key_of(a) == digest_key_of(b),
    decreases a.len(),
{
    if a.len() > 1 {
        lemma_digest_key_by_buckets(a.drop_last(), b.drop_last());
        assert(a.last() == a[a.len() - 1]);
    }
    if a.len() == 1 {
        assert(a[0].fingerprint == b[0].fingerprint);
    }
}

/// A snapshot keeps at most `max` clusters, or at most the two pinned
/// high-severity ones when `max` is smaller.
pub proof fn lemma_snapshot_cluster_cap(events: Seq<EventView>, max: usize)
    ensures
        snapshot_clusters(events, max).len() <= max || snapshot_clusters(events, max).len()
            <= crate::reduce::MAX_HIGH_PIN,
{
    let r = retained(absorbed(events), max);
    crate::reduce::lemma_retained_bounded_subset(absorbed(events), max);
    crate::reduce::lemma_trimmed_prefix_within_budget(r);
}

proof fn lemma_selected_lines_levels(lines: Seq<LogLine>)
    ensures
        forall|k: int|
            0 <= k < selected_lines(lines, true).len() ==> is_error_letter(
                (#[trigger] selected_lines(lines, true)[k]).level,
            ),
    decreases lines.len(),
{
    if lines.len() > 0 {
        let pre = lines.drop_last();
        lemma_selected_lines_levels(pre);
        let prev = selected_lines(pre, true);
        let cur = selected_lines(lines, true);
        assert forall|k: int| 0 <= k < cur.len() implies is_error_letter((#[trigger] cur[k]).level) by {
            if k < prev.len() {
                assert(cur[k] == prev[k]);
            }
        }
    }
}

proof fn lemma_concat_contains(gs: Seq<Seq<IndexedLogLine>>)
    ensures
        forall|k: int, i: int|
            0 <= k < gs.len() && 0 <= i < gs[k].len() ==> crate::event::concat_groups(gs).contains(
                #[trigger] gs[k][i],
            ),
    decreases gs.len(),
{
    if gs.len() > 0 {
        let pre = gs.drop_last();
        lemma_concat_contains(pre);
        let c = crate::event::concat_groups(gs);
        assert(c == crate::event::concat_groups(pre) + gs.last());
        assert forall|k: int, i: int|
            0 <= k < gs.len() && 0 <= i < gs[k].len() implies c.contains(#[trigger] gs[k][i]) by {
            if k < pre.len() {
                assert(gs[k] == pre[k]);
                let j = choose|j: int|
                    0 <= j < crate::event::concat_groups(pre).len()
                        && crate::event::concat_groups(pre)[j] == pre[k][i];
                assert(c[j] == pre[k][i]);
            } else {
                assert(c[crate::event::concat_groups(pre).len() + i] == gs[k][i]);
            }
        }
    }
}

proof fn lemma_absorbed_levels(es: Seq<EventView>)
    ensures
        forall|k: int|
            0 <= k < absorbed(es).len() ==> exists|i: int|
                0 <= i < es.len() && #[trigger] es[i].level == (#[trigger] absorbed(es)[k]).level,
    decreases es.len(),
{
    if es.len() > 0 {
        let pre = es.drop_last();
        lemma_absorbed_levels(pre);
        let cs = absorbed(pre);
        let next = absorbed(es);
        let e = es.last();
        let fp = crate::reduce::event_fingerprint(e);
        let k0 = crate::reduce::find_fingerprint(cs, fp, 0);
        crate::reduce::lemma_find_fingerprint_bounds(cs, fp, 0);
        if k0 < cs.len() {
            assert(next == cs.update(k0, crate::reduce::absorb_event(cs[k0], e)));
        } else {
            assert(next == cs.push(
                crate::reduce::absorb_event(crate::reduce::fresh_cluster(fp, e), e),
            ));
        }
        assert(next.len() >= cs.len());
        assert forall|k: int| 0 <= k < next.len() implies exists|i: int|
            0 <= i < es.len() && #[trigger] es[i].level == (#[trigger] next[k]).level by {
            if k < cs.len() {
                assert(next[k].level == cs[k].level);
                let i = choose|i: int| 0 <= i < pre.len() && #[trigger] pre[i].level == cs[k].level;
                assert(es[i] == pre[i]);
            } else {
                assert(next[k].level == es[es.len() - 1].level);
            }
        }
    }
}

/// With `errors_only`, every cluster of a snapshot built from lines has an
/// Error or Fatal level.
pub proof fn lemma_errors_only_clusters(lines: Seq<LogLine>, max: usize)
    ensures
        forall|k: int|
            0 <= k < snapshot_clusters(grouped_views(selected_lines(lines, true)), max).len()
                ==> is_error_letter(
                (#[trigger] snapshot_clusters(grouped_views(selected_lines(lines, true)), max)[k]).level,
            ),
{
    let sel = selected_lines(lines, true);
    let gs = crate::event::line_groups(sel);
    let es = grouped_views(sel);
    let a = absorbed(es);
    let r = retained(a, max);
    let t = trimmed(r);
    lemma_selected_lines_levels(lines);
    crate::event::lemma_groups_partition_lines(sel);
    lemma_concat_contains(gs);
    lemma_absorbed_levels(es);
    crate::reduce::lemma_retained_bounded_subset(a, max);
    crate::reduce::lemma_trimmed_prefix_within_budget(r);
    assert forall|k: int| 0 <= k < t.len() implies is_error_letter((#[trigger] t[k]).level) by {
        assert(t[k] == r[k]);
        assert(a.contains(r[k]));
        let j = choose|j: int| 0 <= j < a.len() && a[j] == r[k];
        let i = choose|i: int| 0 <= i < es.len() && #[trigger] es[i].level == a[j].level;
        assert(es[i].level == gs[i][0].level);
        assert(crate::event::group_shape(gs[i]));
        assert(sel.contains(gs[i][0]));
    }
}

/// Building a snapshot from events is deterministic, and looks only at each
/// event's level, tag, headline and samples, in order: two runs over the same
/// events (wherever in the log they stood, under whatever pid) keep the same
/// clusters in the same order, and so give the same digest key.
pub proof fn lemma_from_events_deterministic(
    events1: Seq<GroupedEvent>,
    events2: Seq<GroupedEvent>,
    max: usize,
)
    requires
        same_contents(events_view(events1), events_view(events2)),
    ensures
        snapshot_clusters(events_view(events1), max) == snapshot_clusters(
            events_view(events2),
            max,
        ),
        digest_key_of(snapshot_clusters(events_view(events1), max)) == digest_key_of(
            snapshot_clusters(events_view(events2), max),
        ),
{
    crate::reduce::lemma_absorbed_by_content(events_view(events1), events_view(events2));
}

/// Building a snapshot from lines is building it from events: the events that
/// the selected lines, each indexed by its position in `lines`, group into.
pub proof fn lemma_from_lines_is_from_events(
    lines: Seq<LogLine>,
    errors_only: bool,
    max: usize,
    indexed: Seq<IndexedLogLine>,
    events: Seq<GroupedEvent>,
)
    requires
        indexed == selected_lines(lines, errors_only),
        events.len() == line_groups(indexed).len(),
        forall|i: int|
            0 <= i < events.len() ==> event_of(#[trigger] events[i], line_groups(indexed)[i]),
    ensures
        snapshot_clusters(grouped_views(selected_lines(lines, errors_only)), max)
            == snapshot_clusters(events_view(events), max),
{
    assert forall|i: int| 0 <= i < events.len() implies #[trigger] events_view(events)[i]
        == grouped_views(indexed)[i] by {
        crate::event::lemma_event_of_view(events[i], line_groups(indexed)[i]);
    }
    assert(events_view(events) =~= grouped_views(indexed));
}

/// The lines of an Error or Fatal level, in order.
pub open spec fn error_lines(lines: Seq<LogLine>) -> Seq<LogLine> {
    lines.filter(|l: LogLine| is_error_letter(l.level))
}

proof fn lemma_selected_error_lines(lines: Seq<LogLine>)
    ensures
        lines_match(selected_lines(lines, true), selected_lines(error_lines(lines), true)),
    decreases lines.len(),
{
    if lines.len() > 0 {
        let pre = lines.drop_last();
        let x = lines.last();
        lemma_selected_error_lines(pre);
        assert(pre.push(x) == lines);
        pre.lemma_filter_push(x, |l: LogLine| is_error_letter(l.level));
        let f = error_lines(pre);
        if is_error_letter(x.level) {
            let fx = f.push(x);
            assert(error_lines(lines) == fx);
            assert(fx.drop_last() == f);
            let a = IndexedLogLine {
                index: (lines.len() - 1) as usize,
                pid: x.pid,
                level: x.level,
                tag: x.tag,
                message: x.message,
            };
            let b = IndexedLogLine {
                index: (fx.len() - 1) as usize,
                pid: x.pid,
                level: x.level,
                tag: x.tag,
                message: x.message,
            };
            assert(selected_lines(lines, true) == selected_lines(pre, true).push(a));
            assert(selected_lines(fx, true) == selected_lines(f, true).push(b));
            crate::event::lemma_lines_match_push(
                selected_lines(pre, true),
                selected_lines(f, true),
                a,
                b,
            );
        } else {
            assert(error_lines(lines) == f);
        }
    }
}

/// With errors-only set, dropping the Verbose, Debug, Info and Warn lines first
/// gives the same snapshot: such lines neither form clusters nor break stacks.
pub proof fn lemma_errors_only_ignores_other_lines(lines: Seq<LogLine>, max: usize)
    ensures
        snapshot_clusters(grouped_views(selected_lines(lines, true)), max) == snapshot_clusters(
            grouped_views(selected_lines(error_lines(lines), true)),
            max,
        ),
{
    let s1 = selected_lines(lines, true);
    let s2 = selected_lines(error_lines(lines), true);
    lemma_selected_error_lines(lines);
    crate::event::lemma_groups_ignore_index(s1, s2);
    crate::event::lemma_groups_partition_lines(s1);
    let g1 = line_groups(s1);
    let g2 = line_groups(s2);
    let v1 = grouped_views(s1);
    let v2 = grouped_views(s2);
    assert forall|i: int| 0 <= i < v1.len() implies same_content(#[trigger] v1[i], v2[i]) by {
        let a = g1[i];
        let b = g2[i];
        assert(lines_match(a, b));
        assert(crate::event::group_shape(a));
        assert(same_but_index(a[0], b[0]));
        assert forall|j: int| 0 <= j < a.len() implies #[trigger] a[j].message == b[j].message by {
            assert(same_but_index(a[j], b[j]));
        }
        assert(v1[i].samples =~= v2[i].samples);
    }
    crate::reduce::lemma_absorbed_by_content(v1, v2);
}

/// The change alarm fires exactly when some cluster has the Fatal level or the
/// `AndroidRuntime` tag (at any level) and its fingerprint appears nowhere in
/// the previous key.
pub proof fn lemma_new_alarm_exactly(cs: Seq<ClusterView>, previous_key: Seq<char>)
    ensures
        has_new_alarm(cs, previous_key) <==> exists|k: int|
            #![trigger cs[k]]
            0 <= k < cs.len() && (cs[k].level == 'F' || cs[k].tag == "AndroidRuntime"@) && forall|
                i: int,
            |
                #![trigger previous_key.subrange(i, i + cs[k].fingerprint.len())]
                0 <= i && i + cs[k].fingerprint.len() <= previous_key.len()
                    ==> previous_key.subrange(i, i + cs[k].fingerprint.len())
                    != cs[k].fingerprint,
{
    assert forall|k: int| 0 <= k < cs.len() implies (has_sub(previous_key, cs[k].fingerprint)
        <==> exists|i: int|
        #![trigger previous_key.subrange(i, i + cs[k].fingerprint.len())]
        0 <= i && i + cs[k].fingerprint.len() <= previous_key.len() && previous_key.subrange(
            i,
            i + cs[k].fingerprint.len(),
        ) == cs[k].fingerprint) by {
        if has_sub(previous_key, cs[k].fingerprint) {
            let i = choose|i: int| crate::text::occurs_at(previous_key, cs[k].fingerprint, i);
            assert(previous_key.subrange(i, i + cs[k].fingerprint.len()) == cs[k].fingerprint);
        }
        if exists|i: int|
            #![trigger previous_key.subrange(i, i + cs[k].fingerprint.len())]
            0 <= i && i + cs[k].fingerprint.len() <= previous_key.len() && previous_key.subrange(
                i,
                i + cs[k].fingerprint.len(),
            ) == cs[k].fingerprint {
            let i = choose|i: int|
                #![trigger previous_key.subrange(i, i + cs[k].fingerprint.len())]
                0 <= i && i + cs[k].fingerprint.len() <= previous_key.len()
                    && previous_key.subrange(i, i + cs[k].fingerprint.len())
                    == cs[k].fingerprint;
            assert(crate::text::occurs_at(previous_key, cs[k].fingerprint, i));
        }
    }
}

/// The number a run of decimal digit characters reads as.
pub open spec fn digits_value(s: Seq<char>) -> int
    decreases s.len(),
{
    if s.len() == 0 {
        0
    } else {
        digits_value(s.drop_last()) * 10 + ((s.last() as int) - ('0' as int))
    }
}

proof fn lemma_digit_char_value(d: nat)
    requires
        d < 10,
    ensures
        (digit_char(d) as int) - ('0' as int) == d,
        '0' <= digit_char(d) <= '9',
{
    assert((('0' as u32) + d) as char as int == 48 + d);
}

/// The decimal text of a number is its standard decimal writing: at least one
/// character, every character a digit `0`..=`9`, no leading zero unless the
/// number is zero, and the digits read back as the number.
pub proof fn lemma_decimal_text_reads_back(n: nat)
    ensures
        decimal_text(n).len() > 0,
        forall|i: int| 0 <= i < decimal_text(n).len() ==> '0' <= #[trigger] decimal_text(n)[i] <= '9',
        n > 0 ==> decimal_text(n)[0] != '0',
        n == 0 ==> decimal_text(n) == seq!['0'],
        digits_value(decimal_text(n)) == n,
    decreases n,
{
    if n >= 10 {
        lemma_decimal_text_reads_back(n / 10);
        lemma_digit_char_value(n % 10);
        let pre = decimal_text(n / 10);
        let t = decimal_text(n);
        assert(t == pre.push(digit_char(n % 10)));
        assert(t.drop_last() == pre);
        assert forall|i: int| 0 <= i < t.len() implies '0' <= #[trigger] t[i] <= '9' by {
            if i < pre.len() {
                assert(t[i] == pre[i]);
            }
        }
        assert(t[0] == pre[0]);
        assert(t.last() == digit_char(n % 10));
        assert(digits_value(t) == digits_value(pre) * 10 + (n % 10) as int);
        assert((n / 10) * 10 + n % 10 == n);
    } else {
        lemma_digit_char_value(n);
        let t = decimal_text(n);
        assert(t.drop_last() =~= Seq::<char>::empty());
        assert(t.last() == digit_char(n));
        assert(digits_value(t) == digits_value(t.drop_last()) * 10 + n);
    }
}

/// The digest key of one cluster is its fingerprint, `:`, then `count / 5`
/// written in standard decimal; the key of several clusters joins their keys
/// with `|`, in order.
pub proof fn lemma_digest_key_layout(cs: Seq<ClusterView>, c: ClusterView)
    ensures
        ({
            let key = digest_key_of(seq![c]);
            let f = c.fingerprint.len();
            let num = key.skip((f + 1) as int);
            &&& key.len() > f + 1
            &&& key.take(f as int) == c.fingerprint
            &&& key[f as int] == ':'
            &&& forall|i: int| 0 <= i < num.len() ==> '0' <= #[trigger] num[i] <= '9'
            &&& num.len() > 1 ==> num[0] != '0'
            &&& digits_value(num) == c.count / 5
        }),
        cs.len() > 0 ==> digest_key_of(cs.push(c)) == digest_key_of(cs) + seq!['|']
            + digest_key_of(seq![c]),
{
    reveal_strlit(":");
    reveal_strlit("|");
    let key = digest_key_of(seq![c]);
    let f = c.fingerprint.len();
    let num = decimal_text(c.count / (DIGEST_COUNT_BUCKET as nat));
    lemma_decimal_text_reads_back(c.count / (DIGEST_COUNT_BUCKET as nat));
    assert(key == c.fingerprint + seq![':'] + num);
    assert(key.take(f as int) =~= c.fingerprint);
    assert(key.skip((f + 1) as int) =~= num);
    if cs.len() > 0 {
        assert(cs.push(c).drop_last() == cs);
        assert("|"@ =~= seq!['|']);
    }
}

/// A snapshot keeps the ranked, pinned and capped clusters up to some point:
/// the clusters dropped for the JSON budget are the last-ranked ones, at least
/// one cluster stays when there is any, the kept ones fit in 6144 bytes of
/// compact JSON unless only one is left, and no cluster is dropped unless
/// keeping it too would go over the budget.
pub proof fn lemma_snapshot_is_ranked_prefix(events: Seq<EventView>, max: usize)
    ensures
        ({
            let r = retained(absorbed(events), max);
            let s = snapshot_clusters(events, max);
            &&& s == r.take(s.len() as int)
            &&& r.len() > 0 ==> s.len() > 0
            &&& s.len() > 1 ==> crate::reduce::payload_json_len(s) <= 6144
            &&& s.len() < r.len() ==> crate::reduce::payload_json_len(r.take(s.len() + 1int)) > 6144
        }),
{
    let r = retained(absorbed(events), max);
    crate::reduce::lemma_trimmed_prefix_within_budget(r);
    crate::reduce::lemma_trimmed_drops_only_over_budget(r);
}

} // verus!
