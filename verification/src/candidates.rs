//! Candidates for a precompiled header or an `extern template`: the files
//! (or instantiations) that cost the most time summed over the
//! translation units that use them more than once.
use vstd::prelude::*;
use crate::link::str_eq;
use crate::sort::{SortKey, distinct_tags, lemma_sort_keeps_tags, lemma_sorted_of, sort_keys, sorted_of};
use crate::span::Span;
use crate::text::{chars_of, contains_lowercase, copy_str, push_str, string_from, contains_seq, lowercase};
use crate::view::sat_add;

verus! {

broadcast use vstd::seq_lib::group_seq_properties;

/// The most candidates shown.
pub const MAX_CANDIDATES: usize = 10;

/// One candidate.
pub struct PchCandidate {
    /// File (or instantiation) identifier.
    pub identifier: String,
    /// Cleaned label for display.
    pub label: String,
    /// Total duration across all units, in microseconds.
    pub total_duration: u64,
    /// Number of occurrences (units it appears in).
    pub count: usize,
}

impl PchCandidate {
    /// A candidate with the given fields.
    pub fn new(identifier: String, label: String, total_duration: u64, count: usize) -> (r: Self)
        ensures
            r.identifier@ == identifier@,
            r.label@ == label@,
            r.total_duration == total_duration,
            r.count == count,
    {
        PchCandidate { identifier, label, total_duration, count }
    }
}

/// The distinct identifiers of the included spans among the first `m`, in
/// order of first appearance.
pub open spec fn id_groups(spans: Seq<Span>, incl: Seq<bool>, m: int) -> Seq<Seq<char>>
    decreases m,
{
    if m <= 0 {
        Seq::empty()
    } else {
        let g = id_groups(spans, incl, m - 1);
        if incl[m - 1] && !g.contains(spans[m - 1].identifier@) {
            g.push(spans[m - 1].identifier@)
        } else {
            g
        }
    }
}

/// The summed (saturating) duration of the included spans named `id` among
/// the first `m`.
pub open spec fn id_duration(spans: Seq<Span>, incl: Seq<bool>, id: Seq<char>, m: int) -> u64
    decreases m,
{
    if m <= 0 {
        0
    } else {
        let d = id_duration(spans, incl, id, m - 1);
        if incl[m - 1] && spans[m - 1].identifier@ == id {
            sat_add(d, spans[m - 1].duration)
        } else {
            d
        }
    }
}

/// The summed counts of the included spans named `id` among the first `m`.
pub open spec fn id_count(spans: Seq<Span>, counts: Seq<usize>, incl: Seq<bool>, id: Seq<char>, m: int) -> int
    decreases m,
{
    if m <= 0 {
        0
    } else {
        let c = id_count(spans, counts, incl, id, m - 1);
        if incl[m - 1] && spans[m - 1].identifier@ == id {
            c + counts[m - 1]
        } else {
            c
        }
    }
}

/// The positions of the included spans named `id` among the first `m`.
pub open spec fn id_indices(spans: Seq<Span>, incl: Seq<bool>, id: Seq<char>, m: int) -> Seq<usize>
    decreases m,
{
    if m <= 0 {
        Seq::empty()
    } else {
        let s = id_indices(spans, incl, id, m - 1);
        if incl[m - 1] && spans[m - 1].identifier@ == id {
            s.push((m - 1) as usize)
        } else {
            s
        }
    }
}

/// The sum of the first `m` counts.
pub open spec fn counts_total(counts: Seq<usize>, m: int) -> int
    decreases m,
{
    if m <= 0 {
        0
    } else {
        counts_total(counts, m - 1) + counts[m - 1]
    }
}

/// The first span named `id` among the first `m` (-1 if none).
pub open spec fn first_with_id(spans: Seq<Span>, id: Seq<char>, m: int) -> int
    decreases m,
{
    if m <= 0 {
        -1
    } else {
        let f = first_with_id(spans, id, m - 1);
        if f >= 0 {
            f
        } else if spans[m - 1].identifier@ == id {
            m - 1
        } else {
            -1
        }
    }
}

/// The label of the first span named `id`, or `id` itself.
pub open spec fn label_for(spans: Seq<Span>, id: Seq<char>) -> Seq<char> {
    let f = first_with_id(spans, id, spans.len() as int);
    if f >= 0 {
        spans[f].label@
    } else {
        id
    }
}

/// The sort keys of the groups among the first `k` that count more than
/// one occurrence: longest duration first, then first appearance.
pub open spec fn candidate_keys(spans: Seq<Span>, counts: Seq<usize>, incl: Seq<bool>, k: int) -> Seq<
    SortKey,
>
    decreases k,
{
    let n = spans.len() as int;
    let g = id_groups(spans, incl, n);
    if k <= 0 {
        Seq::empty()
    } else {
        let prev = candidate_keys(spans, counts, incl, k - 1);
        if id_count(spans, counts, incl, g[k - 1], n) > 1 {
            prev.push(
                (
                    (u64::MAX - id_duration(spans, incl, g[k - 1], n)) as u128,
                    0u128,
                    (k - 1) as usize,
                ),
            )
        } else {
            prev
        }
    }
}

/// The keys of the shown candidates, in display order.
pub open spec fn top_keys(spans: Seq<Span>, counts: Seq<usize>, incl: Seq<bool>) -> Seq<SortKey> {
    let g = id_groups(spans, incl, spans.len() as int);
    let s = sorted_of(candidate_keys(spans, counts, incl, g.len() as int));
    if s.len() > MAX_CANDIDATES {
        s.take(MAX_CANDIDATES as int)
    } else {
        s
    }
}

/// `c` and `indices` are the candidate of the group at `top[k]`.
pub open spec fn candidate_at(
    spans: Seq<Span>,
    counts: Seq<usize>,
    incl: Seq<bool>,
    c: PchCandidate,
    indices: Seq<usize>,
    k: int,
) -> bool {
    let n = spans.len() as int;
    let id = id_groups(spans, incl, n)[top_keys(spans, counts, incl)[k].2 as int];
    &&& c.identifier@ == id
    &&& c.label@ == label_for(spans, id)
    &&& c.total_duration == id_duration(spans, incl, id, n)
    &&& c.count == id_count(spans, counts, incl, id, n)
    &&& indices == id_indices(spans, incl, id, n)
}

// ---------------------------------------------------------------------------
// Lemmas
// ---------------------------------------------------------------------------

proof fn lemma_id_groups_distinct(spans: Seq<Span>, incl: Seq<bool>, m: int)
    requires
        0 <= m <= spans.len(),
    ensures
        id_groups(spans, incl, m).no_duplicates(),
    decreases m,
{
    if m > 0 {
        lemma_id_groups_distinct(spans, incl, m - 1);
    }
}

proof fn lemma_id_absent(spans: Seq<Span>, counts: Seq<usize>, incl: Seq<bool>, id: Seq<char>, m: int)
    requires
        0 <= m <= spans.len(),
        !id_groups(spans, incl, m).contains(id),
    ensures
        id_duration(spans, incl, id, m) == 0,
        id_count(spans, counts, incl, id, m) == 0,
        id_indices(spans, incl, id, m) == Seq::<usize>::empty(),
    decreases m,
{
    if m > 0 {
        let g = id_groups(spans, incl, m - 1);
        if g.contains(id) {
            let k = choose|k: int| 0 <= k < g.len() && g[k] == id;
            assert(id_groups(spans, incl, m)[k] == id);
        }
        lemma_id_absent(spans, counts, incl, id, m - 1);
    }
}

proof fn lemma_id_count_bound(spans: Seq<Span>, counts: Seq<usize>, incl: Seq<bool>, id: Seq<char>, m: int)
    requires
        0 <= m,
    ensures
        0 <= id_count(spans, counts, incl, id, m) <= counts_total(counts, m),
    decreases m,
{
    if m > 0 {
        lemma_id_count_bound(spans, counts, incl, id, m - 1);
    }
}

proof fn lemma_total_mono(counts: Seq<usize>, a: int, b: int)
    requires
        0 <= a <= b,
    ensures
        counts_total(counts, a) <= counts_total(counts, b),
    decreases b - a,
{
    if a < b {
        lemma_total_mono(counts, a, b - 1);
    }
}

proof fn lemma_candidate_keys(spans: Seq<Span>, counts: Seq<usize>, incl: Seq<bool>, k: int)
    requires
        0 <= k <= id_groups(spans, incl, spans.len() as int).len(),
        k <= usize::MAX,
    ensures
        forall|a: int|
            0 <= a < candidate_keys(spans, counts, incl, k).len() ==> (#[trigger] candidate_keys(
                spans,
                counts,
                incl,
                k,
            )[a]).2 < k,
        distinct_tags(candidate_keys(spans, counts, incl, k)),
        forall|a: int|
            0 <= a < candidate_keys(spans, counts, incl, k).len() ==> {
                let t = (#[trigger] candidate_keys(spans, counts, incl, k)[a]).2 as int;
                let g = id_groups(spans, incl, spans.len() as int);
                &&& id_count(spans, counts, incl, g[t], spans.len() as int) > 1
                &&& candidate_keys(spans, counts, incl, k)[a].0 == (u64::MAX - id_duration(
                    spans,
                    incl,
                    g[t],
                    spans.len() as int,
                )) as u128
            },
    decreases k,
{
    if k > 0 {
        lemma_candidate_keys(spans, counts, incl, k - 1);
        let prev = candidate_keys(spans, counts, incl, k - 1);
        let cur = candidate_keys(spans, counts, incl, k);
        let g = id_groups(spans, incl, spans.len() as int);
        if id_count(spans, counts, incl, g[k - 1], spans.len() as int) > 1 {
            assert(cur.len() == prev.len() + 1);
            assert(cur.last().2 == k - 1);
        } else {
            assert(cur == prev);
        }
        assert forall|a: int| 0 <= a < cur.len() implies {
            let t = (#[trigger] cur[a]).2 as int;
            let g = id_groups(spans, incl, spans.len() as int);
            &&& t < k
            &&& id_count(spans, counts, incl, g[t], spans.len() as int) > 1
            &&& cur[a].0 == (u64::MAX - id_duration(spans, incl, g[t], spans.len() as int)) as u128
        } by {
            if a < prev.len() {
                assert(cur[a] == prev[a]);
            }
        }
        assert forall|a: int, b: int| 0 <= a < cur.len() && 0 <= b < cur.len() && a != b implies cur[a].2
            != cur[b].2 by {
            if a < prev.len() {
                assert(cur[a] == prev[a]);
            }
            if b < prev.len() {
                assert(cur[b] == prev[b]);
            }
        }
    }
}

// ---------------------------------------------------------------------------
// Grouping by identifier
// ---------------------------------------------------------------------------

/// The groups of the first `m` included spans: identifiers, durations,
/// counts and positions.
pub open spec fn id_groups_upto(
    spans: Seq<Span>,
    counts: Seq<usize>,
    incl: Seq<bool>,
    m: int,
    ids: Seq<String>,
    durs: Seq<u64>,
    cnts: Seq<usize>,
    idx: Seq<Vec<usize>>,
) -> bool {
    let g = id_groups(spans, incl, m);
    &&& ids.len() == g.len()
    &&& durs.len() == g.len()
    &&& cnts.len() == g.len()
    &&& idx.len() == g.len()
    &&& forall|k: int|
        0 <= k < g.len() ==> {
            &&& (#[trigger] ids[k])@ == g[k]
            &&& durs[k] == id_duration(spans, incl, g[k], m)
            &&& cnts[k] == id_count(spans, counts, incl, g[k], m)
            &&& idx[k]@ == id_indices(spans, incl, g[k], m)
        }
}

/// Where a string equal to `id` stands among `ids`.
fn find_id(ids: &Vec<String>, id: &str) -> (r: Option<usize>)
    ensures
        match r {
            Some(g) => g < ids@.len() && ids@[g as int]@ == id@,
            None => forall|j: int| 0 <= j < ids@.len() ==> (#[trigger] ids@[j])@ != id@,
        },
{
    let mut k: usize = 0;
    while k < ids.len()
        invariant
            k <= ids@.len(),
            forall|j: int| 0 <= j < k ==> (#[trigger] ids@[j])@ != id@,
        decreases ids@.len() - k,
    {
        if str_eq(ids[k].as_str(), id) {
            return Some(k);
        }
        k = k + 1;
    }
    None
}

/// Adds span `i` to the groups.
#[verifier::spinoff_prover]
fn id_group_step(
    spans: &[Span],
    counts: &[usize],
    incl: &Vec<bool>,
    i: usize,
    ids: &mut Vec<String>,
    durs: &mut Vec<u64>,
    cnts: &mut Vec<usize>,
    idx: &mut Vec<Vec<usize>>,
)
    requires
        i < spans@.len(),
        counts@.len() >= spans@.len(),
        incl@.len() == spans@.len(),
        counts_total(counts@, spans@.len() as int) <= usize::MAX,
        id_groups_upto(spans@, counts@, incl@, i as int, old(ids)@, old(durs)@, old(cnts)@, old(idx)@),
    ensures
        id_groups_upto(spans@, counts@, incl@, i + 1, final(ids)@, final(durs)@, final(cnts)@, final(idx)@),
{
    let ghost sv = spans@;
    let ghost cv = counts@;
    let ghost iv = incl@;
    let ghost n1 = i + 1;
    let ghost gi = id_groups(sv, iv, i as int);
    let ghost id = sv[i as int].identifier@;
    let ghost oi = ids@;
    let ghost od = durs@;
    let ghost oc = cnts@;
    let ghost ox = idx@;
    proof {
        lemma_id_groups_distinct(sv, iv, i as int);
    }
    if !incl[i] {
        proof {
            assert(id_groups(sv, iv, n1) == gi);
            assert forall|k: int| 0 <= k < gi.len() implies {
                &&& (#[trigger] ids@[k])@ == id_groups(sv, iv, n1)[k]
                &&& durs@[k] == id_duration(sv, iv, id_groups(sv, iv, n1)[k], n1)
                &&& cnts@[k] == id_count(sv, cv, iv, id_groups(sv, iv, n1)[k], n1)
                &&& idx@[k]@ == id_indices(sv, iv, id_groups(sv, iv, n1)[k], n1)
            } by {
                assert(oi[k]@ == gi[k]);
            }
        }
        return;
    }
    match find_id(ids, spans[i].identifier.as_str()) {
        Some(g) => {
            proof {
                assert(oi[g as int]@ == gi[g as int]);
                assert(gi.contains(id));
                assert(id_groups(sv, iv, n1) == gi);
                lemma_id_count_bound(sv, cv, iv, id, n1);
                lemma_total_mono(cv, n1, sv.len() as int);
            }
            let d = durs[g];
            let c = cnts[g];
            durs.set(g, d.saturating_add(spans[i].duration));
            cnts.set(g, c + counts[i]);
            let mut l = idx[g].clone();
            l.push(i);
            idx.set(g, l);
            proof {
                assert forall|k: int| 0 <= k < gi.len() implies {
                    &&& (#[trigger] ids@[k])@ == id_groups(sv, iv, n1)[k]
                    &&& durs@[k] == id_duration(sv, iv, id_groups(sv, iv, n1)[k], n1)
                    &&& cnts@[k] == id_count(sv, cv, iv, id_groups(sv, iv, n1)[k], n1)
                    &&& idx@[k]@ == id_indices(sv, iv, id_groups(sv, iv, n1)[k], n1)
                } by {
                    assert(oi[k]@ == gi[k]);
                    assert(od[k] == id_duration(sv, iv, gi[k], i as int));
                    assert(oc[k] == id_count(sv, cv, iv, gi[k], i as int));
                    assert(ox[k]@ == id_indices(sv, iv, gi[k], i as int));
                    if k != g {
                        assert(gi[k] != gi[g as int]);
                        assert(durs@[k] == od[k]);
                        assert(cnts@[k] == oc[k]);
                        assert(idx@[k] == ox[k]);
                    }
                }
                assert(id_groups_upto(sv, cv, iv, n1, ids@, durs@, cnts@, idx@));
            }
        },
        None => {
            proof {
                assert forall|j: int| 0 <= j < gi.len() implies gi[j] != id by {
                    assert(oi[j]@ == gi[j]);
                }
                assert(!gi.contains(id));
                assert(id_groups(sv, iv, n1) == gi.push(id));
                lemma_id_absent(sv, cv, iv, id, i as int);
            }
            ids.push(copy_str(spans[i].identifier.as_str()));
            durs.push(spans[i].duration);
            cnts.push(counts[i]);
            let mut l: Vec<usize> = Vec::new();
            l.push(i);
            idx.push(l);
            proof {
                assert forall|k: int| 0 <= k < gi.len() + 1 implies {
                    &&& (#[trigger] ids@[k])@ == id_groups(sv, iv, n1)[k]
                    &&& durs@[k] == id_duration(sv, iv, id_groups(sv, iv, n1)[k], n1)
                    &&& cnts@[k] == id_count(sv, cv, iv, id_groups(sv, iv, n1)[k], n1)
                    &&& idx@[k]@ == id_indices(sv, iv, id_groups(sv, iv, n1)[k], n1)
                } by {
                    if k < gi.len() {
                        assert(oi[k]@ == gi[k]);
                        assert(gi[k] != id);
                    } else {
                        assert(id_groups(sv, iv, n1)[k] == id);
                        assert(id_indices(sv, iv, id, n1) =~= seq![i as usize]);
                    }
                }
            }
        },
    }
}

/// The label of the first span named `identifier`, or the identifier.
pub fn span_label_for_identifier(spans: &[Span], identifier: &str) -> (r: String)
    ensures
        r@ == label_for(spans@, identifier@),
{
    let mut k: usize = 0;
    while k < spans.len()
        invariant
            k <= spans@.len(),
            first_with_id(spans@, identifier@, k as int) == -1,
        decreases spans@.len() - k,
    {
        if str_eq(spans[k].identifier.as_str(), identifier) {
            proof {
                lemma_first_stays(spans@, identifier@, k + 1, spans@.len() as int);
            }
            return spans[k].label.clone();
        }
        k = k + 1;
    }
    copy_str(identifier)
}

proof fn lemma_first_stays(spans: Seq<Span>, id: Seq<char>, a: int, b: int)
    requires
        0 <= a <= b,
        first_with_id(spans, id, a) >= 0,
    ensures
        first_with_id(spans, id, b) == first_with_id(spans, id, a),
    decreases b - a,
{
    if a < b {
        lemma_first_stays(spans, id, a, b - 1);
    }
}

/// The top candidates among the included spans, with the positions of the
/// spans of each.
fn top_candidates(spans: &[Span], counts: &[usize], incl: &Vec<bool>) -> (r: (
    Vec<PchCandidate>,
    Vec<Vec<usize>>,
))
    requires
        counts@.len() >= spans@.len(),
        incl@.len() == spans@.len(),
        counts_total(counts@, spans@.len() as int) <= usize::MAX,
    ensures
        r.0@.len() == top_keys(spans@, counts@, incl@).len(),
        r.1@.len() == r.0@.len(),
        forall|k: int|
            0 <= k < r.0@.len() ==> candidate_at(spans@, counts@, incl@, #[trigger] r.0@[k], r.1@[k]@, k),
        candidates_ranked(r.0@),
{
    let ghost sv = spans@;
    let ghost cv = counts@;
    let ghost iv = incl@;
    let ghost n = sv.len() as int;
    let ghost gs = id_groups(sv, iv, n);
    let mut ids: Vec<String> = Vec::new();
    let mut durs: Vec<u64> = Vec::new();
    let mut cnts: Vec<usize> = Vec::new();
    let mut idx: Vec<Vec<usize>> = Vec::new();
    let mut i: usize = 0;
    while i < spans.len()
        invariant
            i <= sv.len(),
            sv == spans@,
            cv == counts@,
            iv == incl@,
            counts@.len() >= spans@.len(),
            incl@.len() == spans@.len(),
            counts_total(counts@, spans@.len() as int) <= usize::MAX,
            id_groups_upto(sv, cv, iv, i as int, ids@, durs@, cnts@, idx@),
        decreases sv.len() - i,
    {
        id_group_step(spans, counts, incl, i, &mut ids, &mut durs, &mut cnts, &mut idx);
        i = i + 1;
    }
    let mut keys: Vec<SortKey> = Vec::new();
    let mut g: usize = 0;
    while g < ids.len()
        invariant
            g <= ids@.len(),
            sv == spans@,
            cv == counts@,
            iv == incl@,
            n == sv.len(),
            gs == id_groups(sv, iv, n),
            id_groups_upto(sv, cv, iv, n, ids@, durs@, cnts@, idx@),
            keys@ == candidate_keys(sv, cv, iv, g as int),
        decreases ids@.len() - g,
    {
        proof {
            assert(ids@[g as int]@ == gs[g as int]);
        }
        if cnts[g] > 1 {
            keys.push(((u64::MAX - durs[g]) as u128, 0u128, g));
        }
        g = g + 1;
    }
    let ghost kv = keys@;
    proof {
        assert(gs.len() == ids@.len());
        lemma_candidate_keys(sv, cv, iv, gs.len() as int);
    }
    let sorted = sort_keys(keys);
    proof {
        lemma_sorted_of(kv, sorted@);
        lemma_sort_keeps_tags(kv, sorted@);
        assert forall|a: int| 0 <= a < sorted@.len() implies (#[trigger] sorted@[a]).2 < gs.len()
            && id_count(sv, cv, iv, gs[sorted@[a].2 as int], n) > 1 && sorted@[a].0 == (u64::MAX - id_duration(
            sv,
            iv,
            gs[sorted@[a].2 as int],
            n,
        )) as u128 by {
            assert(kv.contains(sorted@[a]));
            let p = choose|p: int| 0 <= p < kv.len() && kv[p] == sorted@[a];
            assert(kv[p] == sorted@[a]);
        }
    }
    let shown = if sorted.len() > MAX_CANDIDATES {
        MAX_CANDIDATES
    } else {
        sorted.len()
    };
    let mut cands: Vec<PchCandidate> = Vec::new();
    let mut lists: Vec<Vec<usize>> = Vec::new();
    let mut k: usize = 0;
    while k < shown
        invariant
            k <= shown,
            shown <= sorted@.len(),
            shown == top_keys(sv, cv, iv).len(),
            sv == spans@,
            cv == counts@,
            iv == incl@,
            n == sv.len(),
            gs == id_groups(sv, iv, n),
            sorted@ == sorted_of(candidate_keys(sv, cv, iv, gs.len() as int)),
            forall|a: int| 0 <= a < sorted@.len() ==> (#[trigger] sorted@[a]).2 < gs.len()
                && id_count(sv, cv, iv, gs[sorted@[a].2 as int], n) > 1 && sorted@[a].0 == (u64::MAX
                - id_duration(sv, iv, gs[sorted@[a].2 as int], n)) as u128,
            crate::sort::keys_sorted(sorted@),
            id_groups_upto(sv, cv, iv, n, ids@, durs@, cnts@, idx@),
            cands@.len() == k,
            forall|j: int| 0 <= j < k ==> (#[trigger] cands@[j]).count > 1 && cands@[j].total_duration
                == u64::MAX - sorted@[j].0,
            lists@.len() == k,
            forall|j: int| 0 <= j < k ==> candidate_at(sv, cv, iv, #[trigger] cands@[j], lists@[j]@, j),
        decreases shown - k,
    {
        let t = sorted[k].2;
        proof {
            assert(sorted@[k as int].2 < gs.len());
            assert(ids@[t as int]@ == gs[t as int]);
            assert(top_keys(sv, cv, iv)[k as int] == sorted@[k as int]);
        }
        let label = span_label_for_identifier(spans, ids[t].as_str());
        let c = PchCandidate::new(copy_str(ids[t].as_str()), label, durs[t], cnts[t]);
        cands.push(c);
        lists.push(idx[t].clone());
        proof {
            assert(candidate_at(sv, cv, iv, cands@[k as int], lists@[k as int]@, k as int));
        }
        k = k + 1;
    }
    proof {
        assert forall|a: int, b: int| 0 <= a < b < cands@.len() implies (#[trigger] cands@[a]).total_duration
            >= (#[trigger] cands@[b]).total_duration by {
            assert(crate::sort::key_le(sorted@[a], sorted@[b]));
        }
    }
    (cands, lists)
}

/// At most [`MAX_CANDIDATES`] candidates, each counted more than once,
/// longest total duration first.
pub open spec fn candidates_ranked(c: Seq<PchCandidate>) -> bool {
    &&& c.len() <= MAX_CANDIDATES
    &&& forall|k: int| 0 <= k < c.len() ==> (#[trigger] c[k]).count > 1
    &&& forall|a: int, b: int| 0 <= a < b < c.len() ==> (#[trigger] c[a]).total_duration >= (#[trigger] c[b]).total_duration
}

/// Which spans the source candidates consider: all of them.
pub open spec fn all_included(n: int) -> Seq<bool> {
    Seq::new(n as nat, |i: int| true)
}

/// The precompiled-header candidates among the aggregated source spans.
///
/// Spans are grouped by identifier (whatever their inclusion path); each
/// group sums the durations and counts of its spans. Groups counted once
/// only are dropped; the others come longest total first (then in order of
/// first appearance), at most [`MAX_CANDIDATES`] of them. The second list
/// holds, for each candidate, the positions of its spans.
pub fn compute_pch_candidates(spans: &[Span], counts: &[usize]) -> (r: (
    Vec<PchCandidate>,
    Vec<Vec<usize>>,
))
    requires
        counts@.len() >= spans@.len(),
        counts_total(counts@, spans@.len() as int) <= usize::MAX,
    ensures
        r.0@.len() == top_keys(spans@, counts@, all_included(spans@.len() as int)).len(),
        r.1@.len() == r.0@.len(),
        forall|k: int|
            0 <= k < r.0@.len() ==> candidate_at(
                spans@,
                counts@,
                all_included(spans@.len() as int),
                #[trigger] r.0@[k],
                r.1@[k]@,
                k,
            ),
        candidates_ranked(r.0@),
{
    let mut incl: Vec<bool> = Vec::new();
    let mut i: usize = 0;
    while i < spans.len()
        invariant
            i <= spans@.len(),
            incl@ =~= all_included(i as int),
        decreases spans@.len() - i,
    {
        incl.push(true);
        i = i + 1;
    }
    top_candidates(spans, counts, &incl)
}

/// An `extern template` candidate: a leaf of the template tree that is not
/// a lambda.
pub open spec fn extern_included(spans: Seq<Span>) -> Seq<bool> {
    Seq::new(
        spans.len(),
        |i: int|
            spans[i].children_indices@.len() == 0 && !contains_seq(
                lowercase(spans[i].identifier@),
                "(lambda"@,
            ),
    )
}

/// The `extern template` candidates among the aggregated template spans:
/// as [`compute_pch_candidates`], over the leaf spans whose identifier does
/// not name a lambda (`(lambda`, in any case).
pub fn compute_extern_candidates(spans: &[Span], counts: &[usize]) -> (r: (
    Vec<PchCandidate>,
    Vec<Vec<usize>>,
))
    requires
        counts@.len() >= spans@.len(),
        counts_total(counts@, spans@.len() as int) <= usize::MAX,
    ensures
        r.0@.len() == top_keys(spans@, counts@, extern_included(spans@)).len(),
        r.1@.len() == r.0@.len(),
        forall|k: int|
            0 <= k < r.0@.len() ==> candidate_at(
                spans@,
                counts@,
                extern_included(spans@),
                #[trigger] r.0@[k],
                r.1@[k]@,
                k,
            ),
        candidates_ranked(r.0@),
{
    let mut incl: Vec<bool> = Vec::new();
    let mut i: usize = 0;
    proof {
        reveal_strlit("(lambda");
    }
    while i < spans.len()
        invariant
            i <= spans@.len(),
            incl@ =~= extern_included(spans@).take(i as int),
        decreases spans@.len() - i,
    {
        let leaf = spans[i].children_indices.len() == 0;
        let lambda = contains_lowercase(spans[i].identifier.as_str(), "(lambda");
        incl.push(leaf && !lambda);
        i = i + 1;
    }
    proof {
        assert(incl@ =~= extern_included(spans@));
    }
    top_candidates(spans, counts, &incl)
}


/// A rectangle of terminal cells.
#[derive(Clone, Copy, Debug, PartialEq, Eq, Structural)]
pub struct Area {
    pub x: u16,
    pub y: u16,
    pub width: u16,
    pub height: u16,
}

/// The list of candidates as shown on screen.
pub struct PchCandidatesWidget<'a> {
    pub candidates: &'a [PchCandidate],
    /// Number of candidates scrolled past (not rows).
    pub scroll_offset: u16,
    pub selected_index: Option<usize>,
    /// When true, the copy button shows a "Copied" state.
    pub copy_confirmed: bool,
}

/// The header is two rows high.
pub const HEADER_HEIGHT: u16 = 2;

/// Each candidate takes two rows.
pub const CANDIDATE_ROWS: u16 = 2;

/// The width of the copy button.
pub open spec fn button_width(copy_confirmed: bool) -> int {
    if copy_confirmed {
        12
    } else {
        18
    }
}

/// `a - b`, or 0 below 0.
pub open spec fn sub_floor(a: int, b: int) -> int {
    if a >= b {
        a - b
    } else {
        0
    }
}

/// The identifier names a system header: an absolute path through a
/// `/usr/` or an `/include/` directory.
pub open spec fn is_system_header(id: Seq<char>) -> bool {
    id.len() > 0 && id[0] == '/' && (contains_seq(id, "/usr/"@) || contains_seq(id, "/include/"@))
}

/// The `#include` line of a candidate.
pub open spec fn include_line(c: PchCandidate) -> Seq<char> {
    if is_system_header(c.identifier@) {
        "#include <"@ + c.label@ + ">"@
    } else {
        "#include \""@ + c.label@ + "\""@
    }
}

/// Lines joined with newlines.
pub open spec fn join_lines(lines: Seq<Seq<char>>) -> Seq<char>
    decreases lines.len(),
{
    if lines.len() == 0 {
        Seq::empty()
    } else if lines.len() == 1 {
        lines[0]
    } else {
        join_lines(lines.drop_last()) + "\n"@ + lines.last()
    }
}

/// The `#include` lines of the first candidates (at most
/// [`MAX_CANDIDATES`]).
pub open spec fn includes_text(cands: Seq<PchCandidate>) -> Seq<char> {
    let n = if cands.len() > MAX_CANDIDATES {
        MAX_CANDIDATES as int
    } else {
        cands.len() as int
    };
    join_lines(Seq::new(n as nat, |i: int| include_line(cands[i])))
}

impl<'a> PchCandidatesWidget<'a> {
    /// Whether the cell (`col`, `row`) lies on the copy button of the list
    /// drawn in `area`.
    pub fn hit_copy_button(&self, area: Area, col: u16, row: u16) -> (r: bool)
        requires
            area.x + area.width <= u16::MAX,
            area.y < u16::MAX,
        ensures
            r == (col >= area.x + sub_floor(area.width as int, button_width(self.copy_confirmed) + 1)
                && col < area.x + sub_floor(area.width as int, 1) && row == area.y + 1),
    {
        let button_width: u16 = if self.copy_confirmed {
            12
        } else {
            18
        };
        let btn_x = area.x + area.width.saturating_sub(button_width + 1);
        let btn_y = area.y + 1;
        col >= btn_x && col < area.x + area.width.saturating_sub(1) && row == btn_y
    }

    /// The `#include` lines of the first candidates, one per line: `<...>`
    /// for a system header, `"..."` otherwise.
    pub fn build_includes(&self) -> (r: String)
        ensures
            r@ == includes_text(self.candidates@),
    {
        build_includes_of(self.candidates)
    }
}

/// The `#include` line of one candidate.
fn include_line_of(c: &PchCandidate) -> (r: String)
    ensures
        r@ == include_line(*c),
{
    let id = c.identifier.as_str();
    proof {
        reveal_strlit("/usr/");
        reveal_strlit("/include/");
        reveal_strlit("#include <");
        reveal_strlit(">");
        reveal_strlit("#include \"");
        reveal_strlit("\"");
    }
    let cs = chars_of(id);
    let absolute = cs.len() > 0 && cs[0] == '/';
    let system = absolute && (crate::text::contains_str(id, "/usr/") || crate::text::contains_str(
        id,
        "/include/",
    ));
    let mut r = String::new();
    if system {
        push_str(&mut r, "#include <");
        push_str(&mut r, c.label.as_str());
        push_str(&mut r, ">");
    } else {
        push_str(&mut r, "#include \"");
        push_str(&mut r, c.label.as_str());
        push_str(&mut r, "\"");
    }
    proof {
        if system {
            assert(r@ =~= "#include <"@ + c.label@ + ">"@);
        } else {
            assert(r@ =~= "#include \""@ + c.label@ + "\""@);
        }
    }
    r
}

/// The `#include` lines of the first candidates.
pub fn build_includes_of(cands: &[PchCandidate]) -> (r: String)
    ensures
        r@ == includes_text(cands@),
{
    let n = if cands.len() > MAX_CANDIDATES {
        MAX_CANDIDATES
    } else {
        cands.len()
    };
    let ghost lines = Seq::new(n as nat, |i: int| include_line(cands@[i]));
    let mut r = String::new();
    let mut k: usize = 0;
    proof {
        reveal_strlit("\n");
    }
    while k < n
        invariant
            k <= n,
            n <= cands@.len(),
            lines == Seq::new(n as nat, |i: int| include_line(cands@[i])),
            r@ == join_lines(lines.take(k as int)),
        decreases n - k,
    {
        let line = include_line_of(&cands[k]);
        let ghost before = r@;
        if k > 0 {
            push_str(&mut r, "\n");
        }
        push_str(&mut r, line.as_str());
        proof {
            let t = lines.take(k + 1);
            assert(t.drop_last() =~= lines.take(k as int));
            assert(t.last() == line@);
            if k > 0 {
                assert(r@ =~= before + "\n"@ + line@);
            } else {
                assert(r@ =~= line@);
                assert(t.len() == 1);
            }
        }
        k = k + 1;
    }
    proof {
        assert(lines.take(n as int) =~= lines);
    }
    r
}

/// The identifiers of the first candidates (at most [`MAX_CANDIDATES`]),
/// one per line: the text copied for `extern template` candidates.
pub open spec fn identifiers_text(cands: Seq<PchCandidate>) -> Seq<char> {
    let n = if cands.len() > MAX_CANDIDATES {
        MAX_CANDIDATES as int
    } else {
        cands.len() as int
    };
    join_lines(Seq::new(n as nat, |i: int| cands[i].identifier@))
}

/// The identifiers of the first candidates, one per line.
pub fn build_identifiers_of(cands: &[PchCandidate]) -> (r: String)
    ensures
        r@ == identifiers_text(cands@),
{
    let n = if cands.len() > MAX_CANDIDATES {
        MAX_CANDIDATES
    } else {
        cands.len()
    };
    let ghost lines = Seq::new(n as nat, |i: int| cands@[i].identifier@);
    let mut r = String::new();
    let mut k: usize = 0;
    proof {
        reveal_strlit("\n");
    }
    while k < n
        invariant
            k <= n,
            n <= cands@.len(),
            lines == Seq::new(n as nat, |i: int| cands@[i].identifier@),
            r@ == join_lines(lines.take(k as int)),
        decreases n - k,
    {
        let ghost before = r@;
        if k > 0 {
            push_str(&mut r, "\n");
        }
        push_str(&mut r, cands[k].identifier.as_str());
        proof {
            let t = lines.take(k + 1);
            assert(t.drop_last() =~= lines.take(k as int));
            assert(t.last() == cands@[k as int].identifier@);
            if k > 0 {
                assert(r@ =~= before + "\n"@ + cands@[k as int].identifier@);
            } else {
                assert(r@ =~= cands@[k as int].identifier@);
                assert(t.len() == 1);
            }
        }
        k = k + 1;
    }
    proof {
        assert(lines.take(n as int) =~= lines);
    }
    r
}

} // verus!
