//! Cluster events by fingerprint and retain a budgeted top set.

use vstd::prelude::*;

use crate::event::{strings_view, EventView, GroupedEvent};
use crate::fingerprint::{fingerprint, fingerprint_spec};
use crate::severity::{high_severity, is_high_severity};
use crate::snapshot::{clusters_view, Cluster, ClusterView};
use crate::text::{chars_of, string_of};

verus! {

/// Most high-severity clusters pinned ahead of the count order.
pub const MAX_HIGH_PIN: usize = 2;

/// Budget, in bytes, for the compact JSON of the retained clusters.
pub const MAX_JSON_BYTES: usize = 6144;

/// The views of a sequence of events.
pub open spec fn events_view(es: Seq<GroupedEvent>) -> Seq<EventView> {
    Seq::new(es.len(), |i: int| es[i]@)
}

/// The fingerprint of an event: of its tag and headline.
pub open spec fn event_fingerprint(e: EventView) -> Seq<char> {
    fingerprint_spec(e.tag, e.headline)
}

/// `acc` followed by the samples of `s` it does not hold yet, in order.
pub open spec fn merge_samples(acc: Seq<Seq<char>>, s: Seq<Seq<char>>) -> Seq<Seq<char>>
    decreases s.len(),
{
    if s.len() == 0 {
        acc
    } else {
        let merged = merge_samples(acc, s.drop_last());
        if merged.contains(s.last()) {
            merged
        } else {
            merged.push(s.last())
        }
    }
}

/// A cluster before any event is folded in.
pub open spec fn fresh_cluster(fp: Seq<char>, e: EventView) -> ClusterView {
    ClusterView { fingerprint: fp, tag: e.tag, level: e.level, count: 0, samples: Seq::empty() }
}

/// A cluster after one more event is folded in: the count grows by one and the
/// samples become the event's when it has more of them (the fullest stack),
/// else the event's new samples are appended.
pub open spec fn absorb_event(c: ClusterView, e: EventView) -> ClusterView {
    ClusterView {
        fingerprint: c.fingerprint,
        tag: c.tag,
        level: c.level,
        count: c.count + 1,
        samples: if e.samples.len() > c.samples.len() {
            e.samples
        } else {
            merge_samples(c.samples, e.samples)
        },
    }
}

/// First position at or after `k` of a cluster with fingerprint `fp`, or `cs.len()`.
pub open spec fn find_fingerprint(cs: Seq<ClusterView>, fp: Seq<char>, k: int) -> int
    decreases cs.len() - k,
{
    if k < 0 || k >= cs.len() {
        cs.len() as int
    } else if cs[k].fingerprint == fp {
        k
    } else {
        find_fingerprint(cs, fp, k + 1)
    }
}

/// Fold one event into the clusters: into the cluster of its fingerprint, or a
/// new cluster at the end.
pub open spec fn absorb_step(cs: Seq<ClusterView>, e: EventView) -> Seq<ClusterView> {
    let fp = event_fingerprint(e);
    let k = find_fingerprint(cs, fp, 0);
    if k < cs.len() {
        cs.update(k, absorb_event(cs[k], e))
    } else {
        cs.push(absorb_event(fresh_cluster(fp, e), e))
    }
}

/// The clusters of a sequence of events, in order of first appearance.
pub open spec fn absorbed(es: Seq<EventView>) -> Seq<ClusterView>
    decreases es.len(),
{
    if es.len() == 0 {
        Seq::empty()
    } else {
        absorb_step(absorbed(es.drop_last()), es.last())
    }
}

pub(crate) proof fn lemma_find_fingerprint_bounds(cs: Seq<ClusterView>, fp: Seq<char>, k: int)
    requires
        0 <= k <= cs.len(),
    ensures
        k <= find_fingerprint(cs, fp, k) <= cs.len(),
        find_fingerprint(cs, fp, k) < cs.len() ==> cs[find_fingerprint(cs, fp, k)].fingerprint
            == fp,
        forall|j: int| k <= j < find_fingerprint(cs, fp, k) ==> cs[j].fingerprint != fp,
    decreases cs.len() - k,
{
    if k < cs.len() && cs[k].fingerprint != fp {
        lemma_find_fingerprint_bounds(cs, fp, k + 1);
    }
}

/// Two events carry the same content: level, tag, headline and samples (the
/// index and pid may differ).
pub open spec fn same_content(a: EventView, b: EventView) -> bool {
    a.level == b.level && a.tag == b.tag && a.headline == b.headline && a.samples == b.samples
}

/// Two event sequences carry the same content, position by position.
pub open spec fn same_contents(es1: Seq<EventView>, es2: Seq<EventView>) -> bool {
    es1.len() == es2.len() && forall|i: int|
        0 <= i < es1.len() ==> same_content(#[trigger] es1[i], es2[i])
}

/// Clustering looks only at each event's content, in order: events that agree
/// in level, tag, headline and samples give the same clusters.
pub proof fn lemma_absorbed_by_content(es1: Seq<EventView>, es2: Seq<EventView>)
    requires
        same_contents(es1, es2),
    ensures
        absorbed(es1) == absorbed(es2),
    decreases es1.len(),
{
    if es1.len() > 0 {
        let p1 = es1.drop_last();
        let p2 = es2.drop_last();
        assert forall|i: int| 0 <= i < p1.len() implies same_content(#[trigger] p1[i], p2[i]) by {
            assert(p1[i] == es1[i] && p2[i] == es2[i]);
        }
        lemma_absorbed_by_content(p1, p2);
        let e1 = es1.last();
        let e2 = es2.last();
        assert(same_content(es1[es1.len() - 1], es2[es1.len() - 1]));
        let fp = event_fingerprint(e1);
        assert(event_fingerprint(e2) == fp);
        let cs = absorbed(p1);
        let k = find_fingerprint(cs, fp, 0);
        assert(fresh_cluster(fp, e1) == fresh_cluster(fp, e2));
        assert(absorb_event(fresh_cluster(fp, e1), e1) == absorb_event(fresh_cluster(fp, e2), e2));
        if k < cs.len() {
            assert(absorb_event(cs[k], e1) == absorb_event(cs[k], e2));
        }
        assert(absorb_step(cs, e1) == absorb_step(cs, e2));
    }
}

/// Copy of a list of strings.
fn copy_strings(v: &Vec<String>) -> (res: Vec<String>)
    ensures
        res@ == v@,
{
    let mut res: Vec<String> = Vec::new();
    let mut i: usize = 0;
    while i < v.len()
        invariant
            i <= v.len(),
            res@ == v@.take(i as int),
        decreases v.len() - i,
    {
        res.push(v[i].clone());
        i = i + 1;
        assert(res@ == v@.take(i as int));
    }
    assert(v@.take(v.len() as int) == v@);
    res
}

/// Whether `v` holds a string with the characters of `s`.
fn holds_string(v: &Vec<String>, s: &String) -> (res: bool)
    ensures
        res == strings_view(v@).contains(s@),
{
    let mut i: usize = 0;
    while i < v.len()
        invariant
            i <= v.len(),
            forall|k: int| 0 <= k < i ==> v@[k]@ != s@,
        decreases v.len() - i,
    {
        if v[i] == *s {
            assert(strings_view(v@)[i as int] == s@);
            return true;
        }
        i = i + 1;
    }
    false
}

/// Append to `acc` the strings of `s` it does not hold yet.
fn merge_into(acc: &mut Vec<String>, s: &Vec<String>)
    ensures
        strings_view(final(acc)@) == merge_samples(strings_view(old(acc)@), strings_view(s@)),
{
    let ghost start = strings_view(acc@);
    let mut i: usize = 0;
    while i < s.len()
        invariant
            i <= s.len(),
            strings_view(acc@) == merge_samples(start, strings_view(s@).take(i as int)),
        decreases s.len() - i,
    {
        let ghost pre = strings_view(s@).take(i + 1);
        assert(pre.drop_last() == strings_view(s@).take(i as int));
        assert(pre.last() == s@[i as int]@);
        if !holds_string(acc, &s[i]) {
            acc.push(s[i].clone());
            assert(strings_view(acc@) =~= merge_samples(start, strings_view(s@).take(
                i as int,
            )).push(s@[i as int]@));
        }
        i = i + 1;
    }
    assert(strings_view(s@).take(s.len() as int) == strings_view(s@));
}

/// Position of the cluster with fingerprint `fp`, or `cs.len()` when there is none.
fn find_cluster(cs: &Vec<Cluster>, fp: &String) -> (res: usize)
    ensures
        res as int == find_fingerprint(clusters_view(cs@), fp@, 0),
{
    let ghost v = clusters_view(cs@);
    let mut k: usize = 0;
    while k < cs.len()
        invariant
            k <= cs.len(),
            v == clusters_view(cs@),
            find_fingerprint(v, fp@, k as int) == find_fingerprint(v, fp@, 0),
        decreases cs.len() - k,
    {
        if cs[k].fingerprint == *fp {
            return k;
        }
        k = k + 1;
    }
    k
}

/// Fold `e` into `c`.
fn absorb_into(c: &mut Cluster, e: &GroupedEvent)
    requires
        old(c).count < u32::MAX,
    ensures
        final(c)@ == absorb_event(old(c)@, e@),
{
    c.count = c.count + 1;
    if e.samples.len() > c.samples.len() {
        c.samples = copy_strings(&e.samples);
    } else {
        merge_into(&mut c.samples, &e.samples);
    }
}

/// Absorb events into fingerprint clusters, in order of first appearance.
pub fn absorb(events: &[GroupedEvent]) -> (res: Vec<Cluster>)
    requires
        events.len() <= u32::MAX,
    ensures
        clusters_view(res@) == absorbed(events_view(events@)),
{
    let ghost evs = events_view(events@);
    let mut clusters: Vec<Cluster> = Vec::new();
    let mut i: usize = 0;
    while i < events.len()
        invariant
            i <= events.len() <= u32::MAX,
            evs == events_view(events@),
            clusters_view(clusters@) == absorbed(evs.take(i as int)),
            forall|k: int| 0 <= k < clusters@.len() ==> #[trigger] clusters@[k].count <= i,
        decreases events.len() - i,
    {
        let e = &events[i];
        let ghost pre = evs.take(i + 1);
        assert(pre.drop_last() == evs.take(i as int));
        assert(pre.last() == e@);
        let ghost cv = clusters_view(clusters@);
        let fp = fingerprint(e.tag.as_str(), e.headline.as_str());
        let k = find_cluster(&clusters, &fp);
        proof {
            lemma_find_fingerprint_bounds(cv, fp@, 0);
        }
        if k < clusters.len() {
            let mut c = clusters.remove(k);
            assert(c@ == cv[k as int]);
            absorb_into(&mut c, e);
            clusters.insert(k, c);
            assert(clusters_view(clusters@) =~= cv.update(k as int, absorb_event(cv[k as int], e@)));
        } else {
            let mut c = Cluster {
                fingerprint: fp,
                tag: e.tag.clone(),
                level: e.level,
                count: 0,
                samples: Vec::new(),
            };
            assert(c@ == fresh_cluster(fp@, e@)) by {
                assert(strings_view(c.samples@) =~= Seq::<Seq<char>>::empty());
            }
            absorb_into(&mut c, e);
            clusters.push(c);
            assert(clusters_view(clusters@) =~= cv.push(
                absorb_event(fresh_cluster(fp@, e@), e@),
            ));
        }
        i = i + 1;
    }
    assert(evs.take(events.len() as int) == evs);
    clusters
}

/// Lexicographic order on character sequences by code point (the order of
/// `String`'s `Ord`, since UTF-8 keeps code point order).
pub open spec fn text_less(a: Seq<char>, b: Seq<char>) -> bool
    decreases a.len(),
{
    if a.len() == 0 {
        b.len() > 0
    } else if b.len() == 0 {
        false
    } else if a[0] != b[0] {
        (a[0] as u32) < (b[0] as u32)
    } else {
        text_less(a.drop_first(), b.drop_first())
    }
}

/// `a` sorts strictly before `b`: larger count first, then smaller tag.
pub open spec fn ranks_before(a: ClusterView, b: ClusterView) -> bool {
    a.count > b.count || (a.count == b.count && text_less(a.tag, b.tag))
}

/// First position at or after `k` whose cluster `x` sorts strictly before, or
/// `sorted.len()`.
pub open spec fn insert_pos(sorted: Seq<ClusterView>, x: ClusterView, k: int) -> int
    decreases sorted.len() - k,
{
    if k < 0 || k >= sorted.len() {
        sorted.len() as int
    } else if ranks_before(x, sorted[k]) {
        k
    } else {
        insert_pos(sorted, x, k + 1)
    }
}

/// Stable sort by [`ranks_before`]: each cluster goes after every earlier one
/// it does not sort strictly before.
pub open spec fn sort_clusters(cs: Seq<ClusterView>) -> Seq<ClusterView>
    decreases cs.len(),
{
    if cs.len() == 0 {
        Seq::empty()
    } else {
        let sorted = sort_clusters(cs.drop_last());
        sorted.insert(insert_pos(sorted, cs.last(), 0), cs.last())
    }
}

/// A cluster is high severity when its tag and first sample (or the empty text)
/// are.
pub open spec fn cluster_is_high(c: ClusterView) -> bool {
    high_severity(
        c.level,
        c.tag,
        if c.samples.len() > 0 {
            c.samples[0]
        } else {
            Seq::empty()
        },
    )
}

/// Split sorted clusters into the pinned high-severity ones (at most
/// [`MAX_HIGH_PIN`], the first ones met) and the rest, both in order.
pub open spec fn pin_split(cs: Seq<ClusterView>) -> (Seq<ClusterView>, Seq<ClusterView>)
    decreases cs.len(),
{
    if cs.len() == 0 {
        (Seq::empty(), Seq::empty())
    } else {
        let prev = pin_split(cs.drop_last());
        let c = cs.last();
        if cluster_is_high(c) && prev.0.len() < MAX_HIGH_PIN {
            (prev.0.push(c), prev.1)
        } else {
            (prev.0, prev.1.push(c))
        }
    }
}

/// Room left for unpinned clusters under the cap `max`.
pub open spec fn room_after(max: usize, pinned: nat) -> nat {
    if max > pinned {
        (max - pinned) as nat
    } else {
        0
    }
}

/// The retained clusters: the pinned ones, then as many of the others as the
/// cap leaves room for.
pub open spec fn retained(cs: Seq<ClusterView>, max: usize) -> Seq<ClusterView> {
    let split = pin_split(sort_clusters(cs));
    let keep = if room_after(max, split.0.len()) < split.1.len() {
        room_after(max, split.0.len())
    } else {
        split.1.len()
    };
    split.0 + split.1.take(keep as int)
}

/// Whether `a` comes strictly before `b` in lexicographic character order.
fn text_less_exec(a: &Vec<char>, b: &Vec<char>) -> (res: bool)
    ensures
        res == text_less(a@, b@),
{
    let mut i: usize = 0;
    assert(a@.skip(0) == a@);
    assert(b@.skip(0) == b@);
    while i < a.len() && i < b.len() && a[i] == b[i]
        invariant
            i <= a.len(),
            i <= b.len(),
            text_less(a@.skip(i as int), b@.skip(i as int)) == text_less(a@, b@),
        decreases a.len() - i,
    {
        assert(a@.skip(i as int).drop_first() == a@.skip(i + 1));
        assert(b@.skip(i as int).drop_first() == b@.skip(i + 1));
        i = i + 1;
    }
    if i == a.len() {
        i < b.len()
    } else if i == b.len() {
        false
    } else {
        (a[i] as u32) < (b[i] as u32)
    }
}

/// Whether cluster `a` sorts strictly before cluster `b`.
fn ranks_before_exec(a: &Cluster, b: &Cluster) -> (res: bool)
    ensures
        res == ranks_before(a@, b@),
{
    a.count > b.count || (a.count == b.count && text_less_exec(
        &chars_of(a.tag.as_str()),
        &chars_of(b.tag.as_str()),
    ))
}

/// Where a stable insertion of `x` into `sorted` goes.
fn insert_position(sorted: &Vec<Cluster>, x: &Cluster) -> (res: usize)
    ensures
        res as int == insert_pos(clusters_view(sorted@), x@, 0),
        res <= sorted.len(),
{
    let ghost v = clusters_view(sorted@);
    let mut k: usize = 0;
    while k < sorted.len()
        invariant
            k <= sorted.len(),
            v == clusters_view(sorted@),
            insert_pos(v, x@, k as int) == insert_pos(v, x@, 0),
        decreases sorted.len() - k,
    {
        if ranks_before_exec(x, &sorted[k]) {
            return k;
        }
        k = k + 1;
    }
    k
}

/// Sort by count (descending) then tag, keeping the input order of ties.
fn sort_by_rank(clusters: Vec<Cluster>) -> (res: Vec<Cluster>)
    ensures
        clusters_view(res@) == sort_clusters(clusters_view(clusters@)),
{
    let ghost all = clusters_view(clusters@);
    let mut src = clusters;
    let mut sorted: Vec<Cluster> = Vec::new();
    let ghost mut n: int = 0;
    while src.len() > 0
        invariant
            0 <= n <= all.len(),
            clusters_view(src@) == all.skip(n),
            clusters_view(sorted@) == sort_clusters(all.take(n)),
        decreases src.len(),
    {
        assert(clusters_view(src@).len() == src@.len());
        let ghost before = clusters_view(src@);
        let c = src.remove(0);
        assert(clusters_view(src@) =~= before.drop_first());
        assert(before.drop_first() =~= all.skip(n + 1));
        let ghost pre = all.take(n + 1);
        assert(all.skip(n)[0] == c@);
        assert(pre.drop_last() == all.take(n));
        assert(pre.last() == c@);
        let pos = insert_position(&sorted, &c);
        let ghost sv = clusters_view(sorted@);
        sorted.insert(pos, c);
        assert(clusters_view(sorted@) =~= sv.insert(pos as int, pre.last()));
        assert(clusters_view(src@) =~= all.skip(n + 1));
        proof {
            n = n + 1;
        }
    }
    assert(all.take(n) == all);
    sorted
}

/// Sort by count; pin up to [`MAX_HIGH_PIN`] high-severity clusters, then fill by count.
pub fn retain_clusters(clusters: &mut Vec<Cluster>, max: usize)
    ensures
        clusters_view(final(clusters)@) == retained(clusters_view(old(clusters)@), max),
{
    let mut taken: Vec<Cluster> = Vec::new();
    std::mem::swap(&mut taken, clusters);
    let sorted = sort_by_rank(taken);
    let ghost sv = clusters_view(sorted@);
    let mut src = sorted;
    let mut high: Vec<Cluster> = Vec::new();
    let mut rest: Vec<Cluster> = Vec::new();
    let ghost mut n: int = 0;
    while src.len() > 0
        invariant
            0 <= n <= sv.len(),
            clusters_view(src@) == sv.skip(n),
            clusters_view(high@) == pin_split(sv.take(n)).0,
            clusters_view(rest@) == pin_split(sv.take(n)).1,
        decreases src.len(),
    {
        assert(clusters_view(src@).len() == src@.len());
        let ghost before = clusters_view(src@);
        let c = src.remove(0);
        assert(clusters_view(src@) =~= before.drop_first());
        assert(before.drop_first() =~= sv.skip(n + 1));
        let ghost pre = sv.take(n + 1);
        assert(sv.skip(n)[0] == c@);
        assert(pre.drop_last() == sv.take(n));
        assert(pre.last() == c@);
        let first: &str = if c.samples.len() > 0 {
            c.samples[0].as_str()
        } else {
            ""
        };
        proof {
            reveal_strlit("");
        }
        assert(first@ == (if c@.samples.len() > 0 {
            c@.samples[0]
        } else {
            Seq::<char>::empty()
        }));
        let ghost hv = clusters_view(high@);
        let ghost rv = clusters_view(rest@);
        if is_high_severity(c.level, c.tag.as_str(), first) && high.len() < MAX_HIGH_PIN {
            high.push(c);
            assert(clusters_view(high@) =~= hv.push(pre.last()));
        } else {
            rest.push(c);
            assert(clusters_view(rest@) =~= rv.push(pre.last()));
        }
        assert(clusters_view(src@) =~= sv.skip(n + 1));
        proof {
            n = n + 1;
        }
    }
    assert(sv.take(n) == sv);
    let room = if max > high.len() {
        max - high.len()
    } else {
        0
    };
    let keep = if room < rest.len() {
        room
    } else {
        rest.len()
    };
    rest.truncate(keep);
    let ghost hv = clusters_view(high@);
    let ghost rv = clusters_view(rest@);
    high.append(&mut rest);
    assert(clusters_view(high@) =~= hv + rv);
    *clusters = high;
}

/// Bytes of a character in UTF-8.
pub open spec fn utf8_len(c: char) -> nat {
    if (c as u32) < 0x80 {
        1
    } else if (c as u32) < 0x800 {
        2
    } else if (c as u32) < 0x10000 {
        3
    } else {
        4
    }
}

/// Bytes of a character inside a JSON string: `"` and `\` and the control
/// characters with a short escape take two, other control characters take the
/// six of `\u00XX`, anything else its UTF-8 bytes.
pub open spec fn escaped_len(c: char) -> nat {
    if c == '"' || c == '\\' {
        2
    } else if (c as u32) < 0x20 {
        if c == '\u{8}' || c == '\t' || c == '\n' || c == '\u{c}' || c == '\r' {
            2
        } else {
            6
        }
    } else {
        utf8_len(c)
    }
}

/// Bytes of the escaped characters of a text.
pub open spec fn escaped_text_len(s: Seq<char>) -> nat
    decreases s.len(),
{
    if s.len() == 0 {
        0
    } else {
        escaped_text_len(s.drop_last()) + escaped_len(s.last())
    }
}

/// Bytes of a text as a JSON string, quotes included.
pub open spec fn json_string_len(s: Seq<char>) -> nat {
    escaped_text_len(s) + 2
}

/// Digits of a number in decimal.
pub open spec fn decimal_len(n: nat) -> nat
    decreases n,
{
    if n < 10 {
        1
    } else {
        1 + decimal_len(n / 10)
    }
}

/// Bytes of the comma-separated JSON strings of `ss`, brackets excluded.
pub open spec fn json_strings_len(ss: Seq<Seq<char>>) -> nat
    decreases ss.len(),
{
    if ss.len() == 0 {
        0
    } else {
        json_strings_len(ss.drop_last()) + json_string_len(ss.last()) + if ss.len() > 1 {
            1nat
        } else {
            0nat
        }
    }
}

/// Bytes of one cluster as a compact JSON object
/// `{"fingerprint":…,"tag":…,"level":…,"count":…,"samples":[…]}`.
pub open spec fn cluster_json_len(c: ClusterView) -> nat {
    15 + json_string_len(c.fingerprint) + 7 + json_string_len(c.tag) + 9 + json_string_len(
        seq![c.level],
    ) + 9 + decimal_len(c.count) + 12 + json_strings_len(c.samples) + 2
}

/// Bytes of the comma-separated JSON objects of `cs`, brackets excluded.
pub open spec fn json_clusters_len(cs: Seq<ClusterView>) -> nat
    decreases cs.len(),
{
    if cs.len() == 0 {
        0
    } else {
        json_clusters_len(cs.drop_last()) + cluster_json_len(cs.last()) + if cs.len() > 1 {
            1nat
        } else {
            0nat
        }
    }
}

/// Bytes of the compact JSON `{"clusters":[…]}` of the clusters.
pub open spec fn payload_json_len(cs: Seq<ClusterView>) -> nat {
    13 + json_clusters_len(cs) + 2
}

/// The clusters left once the lowest-priority ones are dropped, from the end,
/// until their compact JSON fits in [`MAX_JSON_BYTES`] or one cluster is left.
pub open spec fn trimmed(cs: Seq<ClusterView>) -> Seq<ClusterView>
    decreases cs.len(),
{
    if cs.len() > 1 && payload_json_len(cs) > MAX_JSON_BYTES {
        trimmed(cs.drop_last())
    } else {
        cs
    }
}

/// Ceiling of the byte counts computed at run time.
pub const LEN_CAP: u64 = 0xffff_ffff_ffff_ffff;

/// `n`, or [`LEN_CAP`] when `n` is larger.
pub open spec fn capped(n: nat) -> nat {
    if n < LEN_CAP {
        n
    } else {
        LEN_CAP as nat
    }
}

/// Sum of two byte counts, capped at [`LEN_CAP`].
fn add_capped(x: u64, y: u64) -> (res: u64)
    ensures
        res == if x + y < LEN_CAP {
            x + y
        } else {
            LEN_CAP as int
        },
{
    if x > LEN_CAP - y {
        LEN_CAP
    } else {
        x + y
    }
}

/// Bytes of `c` in a JSON string.
fn escaped_len_exec(c: char) -> (res: u64)
    ensures
        res == escaped_len(c),
{
    let v = c as u32;
    if c == '"' || c == '\\' {
        2
    } else if v < 0x20 {
        if c == '\u{8}' || c == '\t' || c == '\n' || c == '\u{c}' || c == '\r' {
            2
        } else {
            6
        }
    } else if v < 0x80 {
        1
    } else if v < 0x800 {
        2
    } else if v < 0x10000 {
        3
    } else {
        4
    }
}

/// Bytes of a text as a JSON string, capped.
fn json_string_len_exec(s: &String) -> (res: u64)
    ensures
        res == capped(json_string_len(s@)),
{
    let chars = chars_of(s.as_str());
    let mut acc: u64 = 2;
    let mut i: usize = 0;
    while i < chars.len()
        invariant
            i <= chars.len(),
            chars@ == s@,
            acc == capped(escaped_text_len(chars@.take(i as int)) + 2),
        decreases chars.len() - i,
    {
        let ghost pre = chars@.take(i + 1);
        assert(pre.drop_last() == chars@.take(i as int));
        assert(pre.last() == chars@[i as int]);
        acc = add_capped(acc, escaped_len_exec(chars[i]));
        i = i + 1;
    }
    assert(chars@.take(chars.len() as int) == chars@);
    acc
}

/// Digits of `n` in decimal.
fn decimal_len_exec(n: u32) -> (res: u64)
    ensures
        res == decimal_len(n as nat),
{
    proof {
        lemma_decimal_len_u32(n as nat);
    }
    let mut m = n;
    let mut acc: u64 = 1;
    while m >= 10
        invariant
            decimal_len(n as nat) == acc - 1 + decimal_len(m as nat),
            1 <= acc <= 11,
            acc - 1 + decimal_len(m as nat) <= 10,
        decreases m,
    {
        m = m / 10;
        acc = acc + 1;
    }
    acc
}

proof fn lemma_decimal_len_u32(n: nat)
    requires
        n <= u32::MAX,
    ensures
        decimal_len(n) <= 10,
{
    assert(decimal_len(n) <= 10) by {
        reveal_with_fuel(decimal_len, 11);
    }
}

/// Bytes of the comma-separated JSON strings of `v`, capped.
fn json_strings_len_exec(v: &Vec<String>) -> (res: u64)
    ensures
        res == capped(json_strings_len(strings_view(v@))),
{
    let ghost sv = strings_view(v@);
    let mut acc: u64 = 0;
    let mut i: usize = 0;
    while i < v.len()
        invariant
            i <= v.len(),
            sv == strings_view(v@),
            acc == capped(json_strings_len(sv.take(i as int))),
        decreases v.len() - i,
    {
        let ghost pre = sv.take(i + 1);
        assert(pre.drop_last() == sv.take(i as int));
        assert(pre.last() == v@[i as int]@);
        acc = add_capped(acc, json_string_len_exec(&v[i]));
        if i > 0 {
            acc = add_capped(acc, 1);
        }
        i = i + 1;
    }
    assert(sv.take(v.len() as int) == sv);
    acc
}

/// Bytes of one cluster's compact JSON, capped.
fn cluster_json_len_exec(c: &Cluster) -> (res: u64)
    ensures
        res == capped(cluster_json_len(c@)),
{
    let mut one: Vec<char> = Vec::new();
    one.push(c.level);
    let level = string_of(&one);
    assert(level@ =~= seq![c.level]);
    proof {
        lemma_decimal_len_u32(c.count as nat);
    }
    let mut acc: u64 = 15;
    acc = add_capped(acc, json_string_len_exec(&c.fingerprint));
    acc = add_capped(acc, 7);
    acc = add_capped(acc, json_string_len_exec(&c.tag));
    acc = add_capped(acc, 9);
    acc = add_capped(acc, json_string_len_exec(&level));
    acc = add_capped(acc, 9);
    acc = add_capped(acc, decimal_len_exec(c.count));
    acc = add_capped(acc, 12);
    acc = add_capped(acc, json_strings_len_exec(&c.samples));
    acc = add_capped(acc, 2);
    acc
}

/// Bytes of the compact JSON `{"clusters":[…]}` of `cs`, capped at [`LEN_CAP`].
pub fn compact_json_len(cs: &Vec<Cluster>) -> (res: u64)
    ensures
        res == capped(payload_json_len(clusters_view(cs@))),
{
    let ghost cv = clusters_view(cs@);
    let mut acc: u64 = 0;
    let mut i: usize = 0;
    while i < cs.len()
        invariant
            i <= cs.len(),
            cv == clusters_view(cs@),
            acc == capped(json_clusters_len(cv.take(i as int))),
        decreases cs.len() - i,
    {
        let ghost pre = cv.take(i + 1);
        assert(pre.drop_last() == cv.take(i as int));
        assert(pre.last() == cs@[i as int]@);
        acc = add_capped(acc, cluster_json_len_exec(&cs[i]));
        if i > 0 {
            acc = add_capped(acc, 1);
        }
        i = i + 1;
    }
    assert(cv.take(cs.len() as int) == cv);
    add_capped(add_capped(acc, 13), 2)
}

/// Drop lowest-priority clusters until compact JSON fits under [`MAX_JSON_BYTES`].
pub fn trim_to_json_budget(clusters: &mut Vec<Cluster>)
    ensures
        clusters_view(final(clusters)@) == trimmed(clusters_view(old(clusters)@)),
{
    while clusters.len() > 1
        invariant
            trimmed(clusters_view(clusters@)) == trimmed(clusters_view(old(clusters)@)),
        ensures
            clusters_view(clusters@) == trimmed(clusters_view(old(clusters)@)),
        decreases clusters.len(),
    {
        let ghost before = clusters_view(clusters@);
        if compact_json_len(clusters) <= MAX_JSON_BYTES as u64 {
            assert(trimmed(before) == before);
            break;
        }
        clusters.pop();
        assert(clusters_view(clusters@) =~= before.drop_last());
    }
}

/// Sum of the counts of clusters.
pub open spec fn total_count(cs: Seq<ClusterView>) -> nat
    decreases cs.len(),
{
    if cs.len() == 0 {
        0
    } else {
        total_count(cs.drop_last()) + cs.last().count
    }
}

/// No two clusters share a fingerprint.
pub open spec fn distinct_fingerprints(cs: Seq<ClusterView>) -> bool {
    forall|i: int, j: int|
        0 <= i < j < cs.len() ==> #[trigger] cs[i].fingerprint != #[trigger] cs[j].fingerprint
}

/// Some cluster has fingerprint `fp`.
pub open spec fn has_fingerprint(cs: Seq<ClusterView>, fp: Seq<char>) -> bool {
    exists|k: int| 0 <= k < cs.len() && #[trigger] cs[k].fingerprint == fp
}

proof fn lemma_total_count_update(cs: Seq<ClusterView>, k: int, c: ClusterView)
    requires
        0 <= k < cs.len(),
    ensures
        total_count(cs.update(k, c)) + cs[k].count == total_count(cs) + c.count,
    decreases cs.len(),
{
    let u = cs.update(k, c);
    if k == cs.len() - 1 {
        assert(u.drop_last() == cs.drop_last());
    } else {
        lemma_total_count_update(cs.drop_last(), k, c);
        assert(u.drop_last() == cs.drop_last().update(k, c));
    }
}

proof fn lemma_total_count_push(cs: Seq<ClusterView>, c: ClusterView)
    ensures
        total_count(cs.push(c)) == total_count(cs) + c.count,
{
    assert(cs.push(c).drop_last() == cs);
}

/// Clustering loses no event and merges exactly the events of one
/// fingerprint: the counts add up to the number of events, each cluster has
/// its own fingerprint and counts at least one event, and every event's
/// fingerprint has a cluster.
pub proof fn lemma_absorbed_accounts_for_events(es: Seq<EventView>)
    ensures
        total_count(absorbed(es)) == es.len(),
        distinct_fingerprints(absorbed(es)),
        forall|k: int| 0 <= k < absorbed(es).len() ==> #[trigger] absorbed(es)[k].count >= 1,
        forall|i: int|
            0 <= i < es.len() ==> has_fingerprint(absorbed(es), event_fingerprint(#[trigger] es[i])),
    decreases es.len(),
{
    if es.len() > 0 {
        let pre = es.drop_last();
        let e = es.last();
        lemma_absorbed_accounts_for_events(pre);
        let cs = absorbed(pre);
        let fp = event_fingerprint(e);
        let k = find_fingerprint(cs, fp, 0);
        lemma_find_fingerprint_bounds(cs, fp, 0);
        let next = absorbed(es);
        if k < cs.len() {
            lemma_total_count_update(cs, k, absorb_event(cs[k], e));
            assert(next == cs.update(k, absorb_event(cs[k], e)));
            assert forall|i: int| 0 <= i < es.len() implies has_fingerprint(
                next,
                event_fingerprint(#[trigger] es[i]),
            ) by {
                if i < pre.len() {
                    assert(pre[i] == es[i]);
                    let j = choose|j: int| 0 <= j < cs.len() && #[trigger] cs[j].fingerprint
                        == event_fingerprint(pre[i]);
                    assert(next[j].fingerprint == cs[j].fingerprint);
                } else {
                    assert(next[k].fingerprint == fp);
                }
            }
        } else {
            lemma_total_count_push(cs, absorb_event(fresh_cluster(fp, e), e));
            assert(next == cs.push(absorb_event(fresh_cluster(fp, e), e)));
            assert forall|i: int| 0 <= i < es.len() implies has_fingerprint(
                next,
                event_fingerprint(#[trigger] es[i]),
            ) by {
                if i < pre.len() {
                    assert(pre[i] == es[i]);
                    let j = choose|j: int| 0 <= j < cs.len() && #[trigger] cs[j].fingerprint
                        == event_fingerprint(pre[i]);
                    assert(next[j].fingerprint == cs[j].fingerprint);
                } else {
                    assert(next[cs.len() as int].fingerprint == fp);
                }
            }
        }
    }
}

/// How many of the events have fingerprint `fp`.
pub open spec fn events_with(es: Seq<EventView>, fp: Seq<char>) -> nat
    decreases es.len(),
{
    if es.len() == 0 {
        0
    } else {
        events_with(es.drop_last(), fp) + if event_fingerprint(es.last()) == fp {
            1nat
        } else {
            0nat
        }
    }
}

proof fn lemma_events_with_witness(es: Seq<EventView>, fp: Seq<char>)
    requires
        events_with(es, fp) > 0,
    ensures
        exists|i: int| 0 <= i < es.len() && event_fingerprint(#[trigger] es[i]) == fp,
    decreases es.len(),
{
    let pre = es.drop_last();
    if event_fingerprint(es.last()) == fp {
        assert(event_fingerprint(es[es.len() - 1]) == fp);
    } else {
        lemma_events_with_witness(pre, fp);
        let i = choose|i: int| 0 <= i < pre.len() && event_fingerprint(#[trigger] pre[i]) == fp;
        assert(pre[i] == es[i]);
    }
}

/// Each fingerprint has at most one cluster, and that cluster counts exactly
/// the events of that fingerprint.
pub proof fn lemma_cluster_counts_its_events(es: Seq<EventView>)
    ensures
        distinct_fingerprints(absorbed(es)),
        forall|k: int|
            0 <= k < absorbed(es).len() ==> #[trigger] absorbed(es)[k].count == events_with(
                es,
                absorbed(es)[k].fingerprint,
            ),
    decreases es.len(),
{
    lemma_absorbed_accounts_for_events(es);
    if es.len() > 0 {
        let pre = es.drop_last();
        let e = es.last();
        lemma_cluster_counts_its_events(pre);
        lemma_absorbed_accounts_for_events(pre);
        let cs = absorbed(pre);
        let fp = event_fingerprint(e);
        let k0 = find_fingerprint(cs, fp, 0);
        lemma_find_fingerprint_bounds(cs, fp, 0);
        let next = absorbed(es);
        if k0 < cs.len() {
            assert(next == cs.update(k0, absorb_event(cs[k0], e)));
            assert forall|k: int| 0 <= k < next.len() implies #[trigger] next[k].count
                == events_with(es, next[k].fingerprint) by {
                if k != k0 {
                    assert(next[k] == cs[k]);
                    if k < k0 {
                        assert(cs[k].fingerprint != cs[k0].fingerprint);
                    } else {
                        assert(cs[k0].fingerprint != cs[k].fingerprint);
                    }
                }
            }
        } else {
            let c = absorb_event(fresh_cluster(fp, e), e);
            assert(next == cs.push(c));
            if events_with(pre, fp) > 0 {
                lemma_events_with_witness(pre, fp);
                let i = choose|i: int| 0 <= i < pre.len() && event_fingerprint(#[trigger] pre[i]) == fp;
                assert(has_fingerprint(cs, event_fingerprint(pre[i])));
                let j = choose|j: int| 0 <= j < cs.len() && #[trigger] cs[j].fingerprint == fp;
                assert(cs[j].fingerprint != fp);
            }
            assert forall|k: int| 0 <= k < next.len() implies #[trigger] next[k].count
                == events_with(es, next[k].fingerprint) by {
                if k < cs.len() {
                    assert(next[k] == cs[k]);
                    assert(cs[k].fingerprint != fp);
                }
            }
        }
    }
}

proof fn lemma_text_less_asymmetric(a: Seq<char>, b: Seq<char>)
    ensures
        !(text_less(a, b) && text_less(b, a)),
    decreases a.len(),
{
    if a.len() > 0 && b.len() > 0 && a[0] == b[0] {
        lemma_text_less_asymmetric(a.drop_first(), b.drop_first());
    }
}

proof fn lemma_text_less_transitive(a: Seq<char>, b: Seq<char>, c: Seq<char>)
    requires
        text_less(a, b),
        text_less(b, c),
    ensures
        text_less(a, c),
    decreases a.len(),
{
    if a.len() > 0 && b.len() > 0 && c.len() > 0 && a[0] == b[0] && b[0] == c[0] {
        lemma_text_less_transitive(a.drop_first(), b.drop_first(), c.drop_first());
    }
}

proof fn lemma_ranks_before_order(a: ClusterView, b: ClusterView, c: ClusterView)
    ensures
        !(ranks_before(a, b) && ranks_before(b, a)),
        ranks_before(a, b) && ranks_before(b, c) ==> ranks_before(a, c),
{
    lemma_text_less_asymmetric(a.tag, b.tag);
    if ranks_before(a, b) && ranks_before(b, c) && a.count == b.count && b.count == c.count {
        lemma_text_less_transitive(a.tag, b.tag, c.tag);
    }
}

/// No cluster ranks strictly before one that comes earlier.
pub open spec fn rank_ordered(s: Seq<ClusterView>) -> bool {
    forall|i: int, j: int| 0 <= i < j < s.len() ==> !ranks_before(#[trigger] s[j], #[trigger] s[i])
}

proof fn lemma_insert_pos(sorted: Seq<ClusterView>, x: ClusterView, k: int)
    requires
        0 <= k <= sorted.len(),
    ensures
        k <= insert_pos(sorted, x, k) <= sorted.len(),
        forall|i: int| k <= i < insert_pos(sorted, x, k) ==> !ranks_before(x, #[trigger] sorted[i]),
        insert_pos(sorted, x, k) < sorted.len() ==> ranks_before(
            x,
            sorted[insert_pos(sorted, x, k)],
        ),
    decreases sorted.len() - k,
{
    if k < sorted.len() && !ranks_before(x, sorted[k]) {
        lemma_insert_pos(sorted, x, k + 1);
    }
}

proof fn lemma_insert_keeps_order(s: Seq<ClusterView>, x: ClusterView)
    requires
        rank_ordered(s),
    ensures
        rank_ordered(s.insert(insert_pos(s, x, 0), x)),
{
    let p = insert_pos(s, x, 0);
    lemma_insert_pos(s, x, 0);
    let t = s.insert(p, x);
    s.insert_ensures(p, x);
    assert forall|i: int, j: int| 0 <= i < j < t.len() implies !ranks_before(
        #[trigger] t[j],
        #[trigger] t[i],
    ) by {
        if j < p {
            assert(t[i] == s[i] && t[j] == s[j]);
        } else if j == p {
            assert(t[i] == s[i]);
        } else if i < p {
            assert(t[i] == s[i] && t[j] == s[j - 1]);
        } else if i == p {
            assert(t[j] == s[j - 1]);
            lemma_ranks_before_order(s[j - 1], x, s[p]);
            if j - 1 > p {
                assert(!ranks_before(s[j - 1], s[p]));
            }
        } else {
            assert(t[i] == s[i - 1] && t[j] == s[j - 1]);
        }
    }
}

/// Sorting clusters keeps every cluster (as a multiset) and leaves them in rank
/// order: larger counts first, ties by tag.
pub proof fn lemma_sort_clusters_sorted_permutation(cs: Seq<ClusterView>)
    ensures
        sort_clusters(cs).to_multiset() == cs.to_multiset(),
        rank_ordered(sort_clusters(cs)),
    decreases cs.len(),
{
    broadcast use vstd::seq_lib::group_to_multiset_ensures;

    if cs.len() > 0 {
        let pre = cs.drop_last();
        lemma_sort_clusters_sorted_permutation(pre);
        let sorted = sort_clusters(pre);
        lemma_insert_pos(sorted, cs.last(), 0);
        lemma_insert_keeps_order(sorted, cs.last());
        assert(pre.push(cs.last()) == cs);
    }
}

/// The pinned clusters are high severity and at most [`MAX_HIGH_PIN`]; the two
/// parts together are the input, as a multiset.
pub proof fn lemma_pin_split(cs: Seq<ClusterView>)
    ensures
        pin_split(cs).0.len() <= MAX_HIGH_PIN,
        forall|k: int| 0 <= k < pin_split(cs).0.len() ==> cluster_is_high(#[trigger] pin_split(cs).0[k]),
        pin_split(cs).0.to_multiset().add(pin_split(cs).1.to_multiset()) == cs.to_multiset(),
    decreases cs.len(),
{
    broadcast use vstd::seq_lib::group_to_multiset_ensures;
    broadcast use vstd::multiset::group_multiset_axioms;

    if cs.len() > 0 {
        let pre = cs.drop_last();
        lemma_pin_split(pre);
        assert(pre.push(cs.last()) == cs);
        let prev = pin_split(pre);
        if cluster_is_high(cs.last()) && prev.0.len() < MAX_HIGH_PIN {
            assert(pin_split(cs).0.to_multiset().add(pin_split(cs).1.to_multiset())
                =~= cs.to_multiset());
        } else {
            assert(pin_split(cs).0.to_multiset().add(pin_split(cs).1.to_multiset())
                =~= cs.to_multiset());
        }
    }
}

proof fn lemma_pin_split_first_eligible(s: Seq<ClusterView>)
    ensures
        ({
            let e = s.filter(
                |c: ClusterView|
                    high_severity(
                        c.level,
                        c.tag,
                        if c.samples.len() > 0 {
                            c.samples[0]
                        } else {
                            Seq::<char>::empty()
                        },
                    ),
            );
            let p: int = if e.len() < 2 {
                e.len() as int
            } else {
                2
            };
            pin_split(s).0 == e.take(p)
        }),
    decreases s.len(),
{
    reveal(Seq::filter);
    if s.len() > 0 {
        let pre = s.drop_last();
        let x = s.last();
        lemma_pin_split_first_eligible(pre);
        assert(pre.push(x) == s);
        let f = pre.filter(
            |c: ClusterView|
                high_severity(
                    c.level,
                    c.tag,
                    if c.samples.len() > 0 {
                        c.samples[0]
                    } else {
                        Seq::<char>::empty()
                    },
                ),
        );
        let e = s.filter(
            |c: ClusterView|
                high_severity(
                    c.level,
                    c.tag,
                    if c.samples.len() > 0 {
                        c.samples[0]
                    } else {
                        Seq::<char>::empty()
                    },
                ),
        );
        let prev = pin_split(pre);
        if cluster_is_high(x) {
            assert(e == f.push(x));
            if prev.0.len() < MAX_HIGH_PIN {
                assert(f.len() < 2);
                assert(prev.0 == f.take(f.len() as int));
                assert(f.take(f.len() as int) == f);
                assert(e.take(e.len() as int) == e);
            } else {
                assert(f.len() >= 2);
                assert(e.take(2) =~= f.take(2));
            }
        } else {
            assert(e == f);
        }
    }
}

/// Pinning looks at each cluster's first sample: the retained clusters start,
/// whatever the cap, with the first two (or fewer, if there are fewer) clusters
/// in rank order whose level, tag and first sample (the empty text when it has
/// none) are high severity.
pub proof fn lemma_retained_pins_first_eligible(cs: Seq<ClusterView>, max: usize)
    ensures
        ({
            let e = sort_clusters(cs).filter(
                |c: ClusterView|
                    high_severity(
                        c.level,
                        c.tag,
                        if c.samples.len() > 0 {
                            c.samples[0]
                        } else {
                            Seq::<char>::empty()
                        },
                    ),
            );
            let p: int = if e.len() < 2 {
                e.len() as int
            } else {
                2
            };
            retained(cs, max).len() >= p && retained(cs, max).take(p) == e.take(p)
        }),
{
    let s = sort_clusters(cs);
    lemma_pin_split_first_eligible(s);
    let split = pin_split(s);
    let r = retained(cs, max);
    assert(r.take(split.0.len() as int) =~= split.0);
}

/// Retaining keeps at most `max` clusters, or at most the [`MAX_HIGH_PIN`]
/// pinned ones when `max` is smaller, and every retained cluster is one of the
/// input's.
pub proof fn lemma_retained_bounded_subset(cs: Seq<ClusterView>, max: usize)
    ensures
        retained(cs, max).len() <= max || retained(cs, max).len() <= MAX_HIGH_PIN,
        forall|k: int| 0 <= k < retained(cs, max).len() ==> cs.contains(#[trigger] retained(cs, max)[k]),
{
    broadcast use vstd::seq_lib::group_to_multiset_ensures;
    broadcast use vstd::multiset::group_multiset_axioms;

    let sorted = sort_clusters(cs);
    lemma_sort_clusters_sorted_permutation(cs);
    lemma_pin_split(sorted);
    let split = pin_split(sorted);
    let r = retained(cs, max);
    assert forall|k: int| 0 <= k < r.len() implies cs.contains(#[trigger] r[k]) by {
        let x = r[k];
        if k < split.0.len() {
            assert(split.0[k] == x);
            assert(split.0.to_multiset().count(x) > 0);
        } else {
            assert(split.1[k - split.0.len()] == x);
            assert(split.1.to_multiset().count(x) > 0);
        }
        assert(sorted.to_multiset().count(x) > 0);
    }
}

/// Trimming keeps a prefix of the clusters, never drops the last one, and the
/// kept clusters fit the JSON budget unless only one is left.
pub proof fn lemma_trimmed_prefix_within_budget(cs: Seq<ClusterView>)
    ensures
        trimmed(cs) == cs.take(trimmed(cs).len() as int),
        trimmed(cs).len() <= cs.len(),
        cs.len() > 0 ==> trimmed(cs).len() > 0,
        trimmed(cs).len() > 1 ==> payload_json_len(trimmed(cs)) <= MAX_JSON_BYTES,
    decreases cs.len(),
{
    if cs.len() > 1 && payload_json_len(cs) > MAX_JSON_BYTES {
        let pre = cs.drop_last();
        lemma_trimmed_prefix_within_budget(pre);
        assert(pre.take(trimmed(pre).len() as int) == cs.take(trimmed(pre).len() as int));
    } else {
        assert(cs.take(cs.len() as int) == cs);
    }
}

/// Trimming drops only what it must: when clusters were dropped, the kept
/// ones together with the next one would be over the budget.
pub proof fn lemma_trimmed_drops_only_over_budget(cs: Seq<ClusterView>)
    ensures
        trimmed(cs).len() < cs.len() ==> payload_json_len(
            cs.take(trimmed(cs).len() + 1int),
        ) > MAX_JSON_BYTES,
    decreases cs.len(),
{
    if cs.len() > 1 && payload_json_len(cs) > MAX_JSON_BYTES {
        let pre = cs.drop_last();
        lemma_trimmed_drops_only_over_budget(pre);
        lemma_trimmed_prefix_within_budget(pre);
        let n: int = trimmed(pre).len() as int;
        if n < pre.len() {
            assert(pre.take(n + 1) == cs.take(n + 1));
        } else {
            assert(cs.take(n + 1) == cs);
        }
    }
}

/// Ranking puts larger counts first, and among equal counts no tag comes
/// after a tag that sorts below it.
pub proof fn lemma_sorted_by_count_then_tag(cs: Seq<ClusterView>)
    ensures
        forall|i: int, j: int|
            0 <= i < j < sort_clusters(cs).len() ==> #[trigger] sort_clusters(cs)[i].count
                >= #[trigger] sort_clusters(cs)[j].count,
        forall|i: int, j: int|
            0 <= i < j < sort_clusters(cs).len() && #[trigger] sort_clusters(cs)[i].count
                == #[trigger] sort_clusters(cs)[j].count ==> !text_less(
                sort_clusters(cs)[j].tag,
                sort_clusters(cs)[i].tag,
            ),
{
    lemma_sort_clusters_sorted_permutation(cs);
    let s = sort_clusters(cs);
    assert forall|i: int, j: int| 0 <= i < j < s.len() implies #[trigger] s[i].count
        >= #[trigger] s[j].count by {
        assert(!ranks_before(s[j], s[i]));
    }
    assert forall|i: int, j: int|
        0 <= i < j < s.len() && #[trigger] s[i].count == #[trigger] s[j].count implies !text_less(
        s[j].tag,
        s[i].tag,
    ) by {
        assert(!ranks_before(s[j], s[i]));
    }
}

/// Two clusters rank alike: same count and same tag.
pub open spec fn same_rank(a: ClusterView, b: ClusterView) -> bool {
    a.count == b.count && a.tag == b.tag
}

/// The clusters of `s` that rank like `z`, in the order of `s`.
pub open spec fn rank_class(s: Seq<ClusterView>, z: ClusterView) -> Seq<ClusterView>
    decreases s.len(),
{
    if s.len() == 0 {
        Seq::empty()
    } else if same_rank(s.last(), z) {
        rank_class(s.drop_last(), z).push(s.last())
    } else {
        rank_class(s.drop_last(), z)
    }
}

proof fn lemma_rank_class_concat(a: Seq<ClusterView>, b: Seq<ClusterView>, z: ClusterView)
    ensures
        rank_class(a + b, z) == rank_class(a, z) + rank_class(b, z),
    decreases b.len(),
{
    if b.len() == 0 {
        assert(a + b == a);
        assert(rank_class(a, z) + rank_class(b, z) == rank_class(a, z));
    } else {
        lemma_rank_class_concat(a, b.drop_last(), z);
        assert((a + b).drop_last() == a + b.drop_last());
        assert((a + b).last() == b.last());
        if same_rank(b.last(), z) {
            assert(rank_class(a, z) + rank_class(b.drop_last(), z).push(b.last()) == (rank_class(
                a,
                z,
            ) + rank_class(b.drop_last(), z)).push(b.last()));
        }
    }
}

proof fn lemma_rank_class_none(s: Seq<ClusterView>, z: ClusterView)
    requires
        forall|i: int| 0 <= i < s.len() ==> !same_rank(#[trigger] s[i], z),
    ensures
        rank_class(s, z) == Seq::<ClusterView>::empty(),
    decreases s.len(),
{
    if s.len() > 0 {
        lemma_rank_class_none(s.drop_last(), z);
    }
}

/// The sort is stable: clusters of equal rank (same count and tag) come out in
/// the order they went in.
pub proof fn lemma_sort_clusters_stable(cs: Seq<ClusterView>, z: ClusterView)
    ensures
        rank_class(sort_clusters(cs), z) == rank_class(cs, z),
    decreases cs.len(),
{
    if cs.len() > 0 {
        let pre = cs.drop_last();
        let x = cs.last();
        lemma_sort_clusters_stable(pre, z);
        lemma_sort_clusters_sorted_permutation(pre);
        let sorted = sort_clusters(pre);
        let p = insert_pos(sorted, x, 0);
        lemma_insert_pos(sorted, x, 0);
        let head = sorted.take(p);
        let tail = sorted.skip(p);
        assert(sorted == head + tail);
        assert(sorted.insert(p, x) == head + seq![x] + tail);
        lemma_rank_class_concat(head, tail, z);
        lemma_rank_class_concat(head + seq![x], tail, z);
        lemma_rank_class_concat(head, seq![x], z);
        assert(seq![x].drop_last() == Seq::<ClusterView>::empty());
        assert(seq![x].last() == x);
        assert(rank_class(Seq::<ClusterView>::empty(), z) == Seq::<ClusterView>::empty());
        assert(Seq::<ClusterView>::empty().push(x) == seq![x]);
        assert(sort_clusters(cs) == sorted.insert(p, x));
        if same_rank(x, z) {
            assert forall|i: int| 0 <= i < tail.len() implies !same_rank(#[trigger] tail[i], z) by {
                assert(tail[i] == sorted[p + i]);
                if same_rank(tail[i], z) {
                    assert(ranks_before(x, sorted[p]));
                    lemma_text_less_asymmetric(x.tag, x.tag);
                    if i > 0 {
                        assert(!ranks_before(sorted[p + i], sorted[p]));
                        assert(ranks_before(sorted[p + i], sorted[p]));
                    }
                    assert(false);
                }
            }
            lemma_rank_class_none(tail, z);
            assert(rank_class(seq![x], z) == seq![x]);
            assert(rank_class(sorted, z) == rank_class(head, z));
            assert(rank_class(sort_clusters(cs), z) == rank_class(head, z) + seq![x]);
            assert(rank_class(cs, z) == rank_class(pre, z).push(x));
        } else {
            assert(rank_class(seq![x], z) == Seq::<ClusterView>::empty());
            assert(rank_class(head, z) + Seq::<ClusterView>::empty() == rank_class(head, z));
            assert(rank_class(cs, z) == rank_class(pre, z));
        }
    }
}

} // verus!
