//! The Sources view: every distinct inclusion path of a source file, summed
//! over all translation units, laid out as one tree of includes.
use vstd::prelude::*;
use crate::link::opt_chars;
use crate::paths::chars_eq;
use crate::sort::{SortKey, distinct_tags, keys_sorted, lemma_sort_keeps_tags, lemma_sorted_of, sort_keys, sorted_of};
use crate::span::{Span, SpanType};
use crate::text::{chars_of, chars_view, copy_range, string_from};
use crate::view::{parents_before, sat_add};

verus! {

broadcast use vstd::seq_lib::group_seq_properties;

/// The span is a source file inclusion.
pub open spec fn is_source(s: Span) -> bool {
    s.type_ == SpanType::Source
}

/// The identifiers of the source spans on the way from the root down to
/// span `i`, `i` included.
pub open spec fn source_path(spans: Seq<Span>, i: int) -> Seq<Seq<char>>
    decreases i,
{
    if i < 0 || i >= spans.len() {
        Seq::empty()
    } else {
        let up = match spans[i].parent_index {
            Some(p) => if p < i {
                source_path(spans, p as int)
            } else {
                Seq::empty()
            },
            None => Seq::empty(),
        };
        if is_source(spans[i]) {
            up.push(spans[i].identifier@)
        } else {
            up
        }
    }
}

/// The distinct paths of the source spans among the first `m`, in the
/// order in which they first appear.
pub open spec fn source_groups(spans: Seq<Span>, m: int) -> Seq<Seq<Seq<char>>>
    decreases m,
{
    if m <= 0 {
        Seq::empty()
    } else {
        let g = source_groups(spans, m - 1);
        if is_source(spans[m - 1]) && !g.contains(source_path(spans, m - 1)) {
            g.push(source_path(spans, m - 1))
        } else {
            g
        }
    }
}

/// The summed (saturating) duration of the source spans with path `p`
/// among the first `m`.
pub open spec fn group_duration(spans: Seq<Span>, p: Seq<Seq<char>>, m: int) -> u64
    decreases m,
{
    if m <= 0 {
        0
    } else {
        let d = group_duration(spans, p, m - 1);
        if is_source(spans[m - 1]) && source_path(spans, m - 1) == p {
            sat_add(d, spans[m - 1].duration)
        } else {
            d
        }
    }
}

/// The number of source spans with path `p` among the first `m`.
pub open spec fn group_count(spans: Seq<Span>, p: Seq<Seq<char>>, m: int) -> nat
    decreases m,
{
    if m <= 0 {
        0
    } else {
        let c = group_count(spans, p, m - 1);
        if is_source(spans[m - 1]) && source_path(spans, m - 1) == p {
            c + 1
        } else {
            c
        }
    }
}

/// The first source span with path `p` among the first `m` (-1 if none).
pub open spec fn group_first(spans: Seq<Span>, p: Seq<Seq<char>>, m: int) -> int
    decreases m,
{
    if m <= 0 {
        -1
    } else {
        let f = group_first(spans, p, m - 1);
        if f >= 0 {
            f
        } else if is_source(spans[m - 1]) && source_path(spans, m - 1) == p {
            m - 1
        } else {
            -1
        }
    }
}

/// The order of the groups: shorter paths first, then longer durations
/// first, then first appearance.
pub open spec fn group_keys(spans: Seq<Span>) -> Seq<SortKey> {
    let g = source_groups(spans, spans.len() as int);
    Seq::new(
        g.len(),
        |k: int|
            (
                g[k].len() as u128,
                (u64::MAX - group_duration(spans, g[k], spans.len() as int)) as u128,
                k as usize,
            ),
    )
}

/// The path of the `k`-th aggregated span.
#[verifier::opaque]
pub open spec fn aggregate_path(spans: Seq<Span>, k: int) -> Seq<Seq<char>> {
    source_groups(spans, spans.len() as int)[sorted_of(group_keys(spans))[k].2 as int]
}

/// Parent and duration of each span, in order.
pub open spec fn layout_of(out: Seq<Span>) -> Seq<(Option<usize>, u64)> {
    Seq::new(out.len(), |j: int| (out[j].parent_index, out[j].duration))
}

/// The summed (saturating) duration of the spans of `lay` whose parent is
/// `q`.
pub open spec fn sibling_sum(lay: Seq<(Option<usize>, u64)>, q: Option<usize>) -> u64
    decreases lay.len(),
{
    if lay.len() == 0 {
        0
    } else {
        let s = sibling_sum(lay.drop_last(), q);
        if lay.last().0 == q {
            sat_add(s, lay.last().1)
        } else {
            s
        }
    }
}

/// The positions in `lay` of the children of `j`, in order.
pub open spec fn children_list(lay: Seq<(Option<usize>, u64)>, j: int) -> Seq<usize>
    decreases lay.len(),
{
    if lay.len() == 0 {
        Seq::empty()
    } else {
        let c = children_list(lay.drop_last(), j);
        if lay.last().0 == Some(j as usize) {
            c.push((lay.len() - 1) as usize)
        } else {
            c
        }
    }
}

/// Span `k` of `out` starts where the spans before it with the same parent
/// end: at 0 for the roots, at its parent's start for the others.
pub open spec fn packed_start(out: Seq<Span>, k: int) -> bool {
    let off = sibling_sum(layout_of(out).take(k), out[k].parent_index);
    out[k].start_time == match out[k].parent_index {
        None => off,
        Some(p) => sat_add(out[p as int].start_time, off),
    }
}

/// `out[k]` is the aggregated span of the path `aggregate_path(spans, k)`.
pub open spec fn aggregated_source(spans: Seq<Span>, out: Seq<Span>, counts: Seq<usize>, k: int) -> bool {
    let n = spans.len() as int;
    let p = aggregate_path(spans, k);
    let first = group_first(spans, p, n);
    &&& out[k].type_ == SpanType::Source
    &&& out[k].identifier@ == p.last()
    &&& out[k].label@ == spans[first].label@
    &&& opt_chars(out[k].sublabel) == opt_chars(spans[first].sublabel)
    &&& out[k].duration == group_duration(spans, p, n)
    &&& counts[k] == group_count(spans, p, n)
    &&& out[k].depth == p.len() - 1
    &&& (p.len() == 1 ==> out[k].parent_index is None)
    &&& (p.len() > 1 ==> (out[k].parent_index matches Some(j) && j < k && aggregate_path(spans, j as int)
        == p.drop_last()))
    &&& out[k].root_span_index < out.len()
    &&& aggregate_path(spans, out[k].root_span_index as int) == p.take(1)
    &&& packed_start(out, k)
    &&& out[k].children_indices@ == children_list(layout_of(out), k)
}

// ---------------------------------------------------------------------------
// Lemmas on the groups
// ---------------------------------------------------------------------------

proof fn lemma_path_nonempty(spans: Seq<Span>, i: int)
    requires
        0 <= i < spans.len(),
        is_source(spans[i]),
    ensures
        source_path(spans, i).len() >= 1,
        source_path(spans, i).last() == spans[i].identifier@,
{
}

/// A path with a parent path: the parent path is the path of an earlier
/// source span.
proof fn lemma_parent_path(spans: Seq<Span>, i: int)
    requires
        0 <= i < spans.len(),
        parents_before(spans),
        source_path(spans, i).len() >= 1,
    ensures
        exists|a: int|
            0 <= a <= i && is_source(#[trigger] spans[a]) && source_path(spans, a) == source_path(
                spans,
                i,
            ),
    decreases i,
{
    if is_source(spans[i]) {
        assert(source_path(spans, i) == source_path(spans, i));
    } else {
        match spans[i].parent_index {
            Some(p) => {
                lemma_parent_path(spans, p as int);
                let a = choose|a: int|
                    0 <= a <= p && is_source(#[trigger] spans[a]) && source_path(spans, a)
                        == source_path(spans, p as int);
                assert(0 <= a <= i && is_source(spans[a]));
            },
            None => {},
        }
    }
}

proof fn lemma_groups_contain(spans: Seq<Span>, m: int, i: int)
    requires
        0 <= i < m <= spans.len(),
        is_source(spans[i]),
    ensures
        source_groups(spans, m).contains(source_path(spans, i)),
    decreases m,
{
    if i < m - 1 {
        lemma_groups_contain(spans, m - 1, i);
        let g = source_groups(spans, m - 1);
        let k = choose|k: int| 0 <= k < g.len() && g[k] == source_path(spans, i);
        assert(source_groups(spans, m)[k] == source_path(spans, i));
    } else {
        let g = source_groups(spans, m - 1);
        if g.contains(source_path(spans, i)) {
        } else {
            assert(source_groups(spans, m)[g.len() as int] == source_path(spans, i));
        }
    }
}

proof fn lemma_groups_are_paths(spans: Seq<Span>, m: int, k: int)
    requires
        0 <= m <= spans.len(),
        0 <= k < source_groups(spans, m).len(),
    ensures
        exists|i: int|
            0 <= i < m && is_source(#[trigger] spans[i]) && source_path(spans, i) == source_groups(
                spans,
                m,
            )[k],
    decreases m,
{
    let g = source_groups(spans, m - 1);
    if k < g.len() {
        lemma_groups_are_paths(spans, m - 1, k);
        let i = choose|i: int|
            0 <= i < m - 1 && is_source(#[trigger] spans[i]) && source_path(spans, i) == g[k];
        assert(source_groups(spans, m)[k] == g[k]);
        assert(0 <= i < m && is_source(spans[i]));
    } else {
        assert(is_source(spans[m - 1]));
    }
}

proof fn lemma_groups_distinct(spans: Seq<Span>, m: int)
    requires
        0 <= m <= spans.len(),
    ensures
        source_groups(spans, m).no_duplicates(),
    decreases m,
{
    if m > 0 {
        lemma_groups_distinct(spans, m - 1);
    }
}

/// Without a group for `p` among the first `m` spans, nothing was summed
/// for it; with one, its first span is known.
proof fn lemma_group_absent(spans: Seq<Span>, p: Seq<Seq<char>>, m: int)
    requires
        0 <= m <= spans.len(),
    ensures
        !source_groups(spans, m).contains(p) ==> group_duration(spans, p, m) == 0 && group_count(
            spans,
            p,
            m,
        ) == 0 && group_first(spans, p, m) == -1,
        source_groups(spans, m).contains(p) ==> 0 <= group_first(spans, p, m) < m && is_source(
            spans[group_first(spans, p, m)],
        ) && source_path(spans, group_first(spans, p, m)) == p,
    decreases m,
{
    if m > 0 {
        lemma_group_absent(spans, p, m - 1);
        let g = source_groups(spans, m - 1);
        if g.contains(p) {
            let k = choose|k: int| 0 <= k < g.len() && g[k] == p;
            assert(source_groups(spans, m)[k] == p);
        }
        if is_source(spans[m - 1]) && !g.contains(source_path(spans, m - 1)) {
            assert(source_groups(spans, m).last() == source_path(spans, m - 1));
            if source_path(spans, m - 1) != p {
                if source_groups(spans, m).contains(p) {
                    let k = choose|k: int|
                        0 <= k < source_groups(spans, m).len() && source_groups(spans, m)[k] == p;
                    assert(k < g.len());
                    assert(g[k] == p);
                }
            }
        }
    }
}

// ---------------------------------------------------------------------------
// Executable steps
// ---------------------------------------------------------------------------

/// A copy of a path.
fn copy_path(p: &Vec<Vec<char>>) -> (r: Vec<Vec<char>>)
    ensures
        chars_view(r@) == chars_view(p@),
{
    let mut r: Vec<Vec<char>> = Vec::new();
    let mut k: usize = 0;
    while k < p.len()
        invariant
            k <= p@.len(),
            chars_view(r@) =~= chars_view(p@).take(k as int),
        decreases p@.len() - k,
    {
        let ghost before = r@;
        r.push(copy_range(&p[k], 0, p[k].len()));
        proof {
            assert(p@[k as int]@.subrange(0, p@[k as int]@.len() as int) =~= p@[k as int]@);
            assert(chars_view(r@) =~= chars_view(before).push(p@[k as int]@));
            assert(chars_view(p@).take(k + 1) =~= chars_view(p@).take(k as int).push(
                chars_view(p@)[k as int],
            ));
        }
        k = k + 1;
    }
    r
}

/// Whether two paths are equal.
fn paths_eq(a: &Vec<Vec<char>>, b: &Vec<Vec<char>>) -> (r: bool)
    ensures
        r == (chars_view(a@) == chars_view(b@)),
{
    if a.len() != b.len() {
        proof {
            assert(chars_view(a@).len() != chars_view(b@).len());
        }
        return false;
    }
    let mut k: usize = 0;
    while k < a.len()
        invariant
            a@.len() == b@.len(),
            k <= a@.len(),
            forall|j: int| 0 <= j < k ==> a@[j]@ == b@[j]@,
        decreases a@.len() - k,
    {
        if !chars_eq(&a[k], &b[k]) {
            proof {
                assert(chars_view(a@)[k as int] != chars_view(b@)[k as int]);
            }
            return false;
        }
        k = k + 1;
    }
    proof {
        assert(chars_view(a@) =~= chars_view(b@));
    }
    true
}

/// Where `p` stands among `groups`.
fn find_path(groups: &Vec<Vec<Vec<char>>>, p: &Vec<Vec<char>>) -> (r: Option<usize>)
    ensures
        match r {
            Some(g) => g < groups@.len() && chars_view(groups@[g as int]@) == chars_view(p@),
            None => forall|j: int| 0 <= j < groups@.len() ==> chars_view(#[trigger] groups@[j]@) != chars_view(p@),
        },
{
    let mut k: usize = 0;
    while k < groups.len()
        invariant
            k <= groups@.len(),
            forall|j: int| 0 <= j < k ==> chars_view(#[trigger] groups@[j]@) != chars_view(p@),
        decreases groups@.len() - k,
    {
        if paths_eq(&groups[k], p) {
            return Some(k);
        }
        k = k + 1;
    }
    None
}

/// The source path of every span.
fn all_source_paths(spans: &[Span]) -> (r: Vec<Vec<Vec<char>>>)
    requires
        parents_before(spans@),
    ensures
        r@.len() == spans@.len(),
        forall|i: int| 0 <= i < spans@.len() ==> chars_view(#[trigger] r@[i]@) == source_path(spans@, i),
{
    let mut r: Vec<Vec<Vec<char>>> = Vec::new();
    let mut i: usize = 0;
    while i < spans.len()
        invariant
            i <= spans@.len(),
            parents_before(spans@),
            r@.len() == i,
            forall|j: int| 0 <= j < i ==> chars_view(#[trigger] r@[j]@) == source_path(spans@, j),
        decreases spans@.len() - i,
    {
        let s = &spans[i];
        let mut p: Vec<Vec<char>> = match s.parent_index {
            Some(q) => {
                proof {
                    assert(spans@[i as int] == *s);
                    assert(q < i);
                }
                copy_path(&r[q])
            },
            None => Vec::new(),
        };
        proof {
            assert(chars_view(p@) =~= match s.parent_index {
                Some(q) => source_path(spans@, q as int),
                None => Seq::empty(),
            });
        }
        if s.type_ == SpanType::Source {
            let ghost before = p@;
            p.push(chars_of(s.identifier.as_str()));
            proof {
                assert(chars_view(p@) =~= chars_view(before).push(s.identifier@));
            }
        }
        proof {
            assert(chars_view(p@) == source_path(spans@, i as int));
        }
        r.push(p);
        i = i + 1;
    }
    r
}

/// `groups`, `durs`, `counts` and `firsts` describe the groups of the
/// first `m` spans.
pub open spec fn groups_upto(
    sv: Seq<Span>,
    m: int,
    groups: Seq<Vec<Vec<char>>>,
    durs: Seq<u64>,
    counts: Seq<usize>,
    firsts: Seq<usize>,
) -> bool {
    let g = source_groups(sv, m);
    &&& groups.len() == g.len()
    &&& durs.len() == g.len()
    &&& counts.len() == g.len()
    &&& firsts.len() == g.len()
    &&& forall|k: int|
        0 <= k < g.len() ==> {
            &&& chars_view(#[trigger] groups[k]@) == g[k]
            &&& durs[k] == group_duration(sv, g[k], m)
            &&& counts[k] == group_count(sv, g[k], m)
            &&& counts[k] <= m
            &&& firsts[k] == group_first(sv, g[k], m)
        }
}

/// Adds span `i` to the groups of the spans before it.
fn group_step(
    spans: &[Span],
    paths: &Vec<Vec<Vec<char>>>,
    i: usize,
    groups: &mut Vec<Vec<Vec<char>>>,
    durs: &mut Vec<u64>,
    counts: &mut Vec<usize>,
    firsts: &mut Vec<usize>,
)
    requires
        i < spans@.len(),
        paths@.len() == spans@.len(),
        chars_view(paths@[i as int]@) == source_path(spans@, i as int),
        groups_upto(spans@, i as int, old(groups)@, old(durs)@, old(counts)@, old(firsts)@),
    ensures
        groups_upto(spans@, i + 1, final(groups)@, final(durs)@, final(counts)@, final(firsts)@),
{
    let ghost sv = spans@;
    let ghost gi = source_groups(sv, i as int);
    let ghost pi = source_path(sv, i as int);
    let ghost n1 = i + 1;
    let ghost og = groups@;
    let ghost od = durs@;
    let ghost oc = counts@;
    let ghost of = firsts@;
    proof {
        lemma_groups_distinct(sv, i as int);
    }
    if spans[i].type_ != SpanType::Source {
        proof {
            assert(!is_source(sv[i as int]));
            assert(source_groups(sv, n1) == gi);
            assert forall|k2: int| 0 <= k2 < gi.len() implies {
                &&& chars_view(#[trigger] groups@[k2]@) == source_groups(sv, n1)[k2]
                &&& durs@[k2] == group_duration(sv, source_groups(sv, n1)[k2], n1)
                &&& counts@[k2] == group_count(sv, source_groups(sv, n1)[k2], n1)
                &&& counts@[k2] <= n1
                &&& firsts@[k2] == group_first(sv, source_groups(sv, n1)[k2], n1)
            } by {
                assert(chars_view(og[k2]@) == gi[k2]);
                assert(group_duration(sv, gi[k2], n1) == group_duration(sv, gi[k2], i as int));
                assert(group_count(sv, gi[k2], n1) == group_count(sv, gi[k2], i as int));
                assert(group_first(sv, gi[k2], n1) == group_first(sv, gi[k2], i as int));
            }
            assert(groups_upto(sv, n1, groups@, durs@, counts@, firsts@));
        }
        return;
    }
    let found = find_path(groups, &paths[i]);
    match found {
        Some(g) => {
            proof {
                assert(chars_view(og[g as int]@) == gi[g as int]);
                assert(gi[g as int] == pi);
                assert(gi.contains(pi));
                assert(source_groups(sv, n1) == gi);
                lemma_group_absent(sv, pi, i as int);
            }
            let d = durs[g];
            let c = counts[g];
            durs.set(g, d.saturating_add(spans[i].duration));
            counts.set(g, c + 1);
            proof {
                assert forall|k2: int| 0 <= k2 < gi.len() implies {
                    &&& chars_view(#[trigger] groups@[k2]@) == source_groups(sv, n1)[k2]
                    &&& durs@[k2] == group_duration(sv, source_groups(sv, n1)[k2], n1)
                    &&& counts@[k2] == group_count(sv, source_groups(sv, n1)[k2], n1)
                    &&& counts@[k2] <= n1
                    &&& firsts@[k2] == group_first(sv, source_groups(sv, n1)[k2], n1)
                } by {
                    assert(chars_view(og[k2]@) == gi[k2]);
                    if k2 != g {
                        assert(gi[k2] != gi[g as int]);
                    }
                }
            }
        },
        None => {
            proof {
                assert forall|j: int| 0 <= j < gi.len() implies gi[j] != pi by {
                    assert(chars_view(og[j]@) == gi[j]);
                }
                assert(!gi.contains(pi));
                assert(source_groups(sv, n1) == gi.push(pi));
                lemma_group_absent(sv, pi, i as int);
            }
            groups.push(copy_path(&paths[i]));
            durs.push(spans[i].duration);
            counts.push(1);
            firsts.push(i);
            proof {
                assert forall|k2: int| 0 <= k2 < gi.len() + 1 implies {
                    &&& chars_view(#[trigger] groups@[k2]@) == source_groups(sv, n1)[k2]
                    &&& durs@[k2] == group_duration(sv, source_groups(sv, n1)[k2], n1)
                    &&& counts@[k2] == group_count(sv, source_groups(sv, n1)[k2], n1)
                    &&& counts@[k2] <= n1
                    &&& firsts@[k2] == group_first(sv, source_groups(sv, n1)[k2], n1)
                } by {
                    if k2 < gi.len() {
                        assert(chars_view(og[k2]@) == gi[k2]);
                        assert(gi[k2] != pi);
                    } else {
                        assert(source_groups(sv, n1)[k2] == pi);
                    }
                }
            }
        },
    }
}

/// The groups of the source spans: their paths, summed durations, counts
/// and first spans.
fn group_sources(spans: &[Span], paths: &Vec<Vec<Vec<char>>>) -> (r: (
    Vec<Vec<Vec<char>>>,
    Vec<u64>,
    Vec<usize>,
    Vec<usize>,
))
    requires
        paths@.len() == spans@.len(),
        forall|i: int| 0 <= i < spans@.len() ==> chars_view(#[trigger] paths@[i]@) == source_path(spans@, i),
    ensures
        groups_upto(spans@, spans@.len() as int, r.0@, r.1@, r.2@, r.3@),
{
    let mut groups: Vec<Vec<Vec<char>>> = Vec::new();
    let mut durs: Vec<u64> = Vec::new();
    let mut counts: Vec<usize> = Vec::new();
    let mut firsts: Vec<usize> = Vec::new();
    let mut i: usize = 0;
    while i < spans.len()
        invariant
            i <= spans@.len(),
            paths@.len() == spans@.len(),
            forall|j: int| 0 <= j < spans@.len() ==> chars_view(#[trigger] paths@[j]@) == source_path(spans@, j),
            groups_upto(spans@, i as int, groups@, durs@, counts@, firsts@),
        decreases spans@.len() - i,
    {
        group_step(spans, paths, i, &mut groups, &mut durs, &mut counts, &mut firsts);
        i = i + 1;
    }
    (groups, durs, counts, firsts)
}


/// Every group has a path of at least one source, and the parent path of
/// every longer one is a group too.
proof fn lemma_group_parent(spans: Seq<Span>, k: int)
    requires
        parents_before(spans),
        0 <= k < source_groups(spans, spans.len() as int).len(),
    ensures
        source_groups(spans, spans.len() as int)[k].len() >= 1,
        source_groups(spans, spans.len() as int)[k].len() > 1 ==> source_groups(
            spans,
            spans.len() as int,
        ).contains(source_groups(spans, spans.len() as int)[k].drop_last()),
{
    let n = spans.len() as int;
    let g = source_groups(spans, n);
    lemma_groups_are_paths(spans, n, k);
    let i = choose|i: int| 0 <= i < n && is_source(#[trigger] spans[i]) && source_path(spans, i) == g[k];
    lemma_path_nonempty(spans, i);
    if g[k].len() > 1 {
        match spans[i].parent_index {
            Some(p) => {
                assert(p < i);
                let up = source_path(spans, p as int);
                assert(source_path(spans, i) == up.push(spans[i].identifier@));
                assert(up =~= g[k].drop_last());
                lemma_parent_path(spans, p as int);
                let a = choose|a: int|
                    0 <= a <= p && is_source(#[trigger] spans[a]) && source_path(spans, a)
                        == source_path(spans, p as int);
                lemma_groups_contain(spans, n, a);
            },
            None => {
                assert(source_path(spans, i).len() == 1);
            },
        }
    }
}

/// What the layout loop has built for the first `k` aggregated spans.
#[verifier::opaque]
pub open spec fn layout_upto(
    sv: Seq<Span>,
    k: int,
    lay: Seq<(Option<usize>, u64)>,
    starts: Seq<u64>,
    offs: Seq<u64>,
    roots: Seq<usize>,
    kids: Seq<Vec<usize>>,
    root_off: u64,
) -> bool {
    let n = sv.len() as int;
    &&& lay.len() == k
    &&& starts.len() == k
    &&& offs.len() == k
    &&& roots.len() == k
    &&& kids.len() == k
    &&& root_off == sibling_sum(lay, None)
    &&& forall|j: int|
        0 <= j < k ==> {
            let p = aggregate_path(sv, j);
            &&& (#[trigger] lay[j]).1 == group_duration(sv, p, n)
            &&& (lay[j].0 matches Some(q) ==> q < j)
            &&& (p.len() == 1 ==> lay[j].0 is None)
            &&& (p.len() > 1 ==> (lay[j].0 matches Some(q) && q < j && aggregate_path(sv, q as int)
                == p.drop_last()))
            &&& starts[j] == match lay[j].0 {
                None => sibling_sum(lay.take(j), None),
                Some(q) => sat_add(starts[q as int], sibling_sum(lay.take(j), Some(q))),
            }
            &&& offs[j] == sibling_sum(lay, Some(j as usize))
            &&& kids[j]@ == children_list(lay, j)
            &&& roots[j] < k
            &&& aggregate_path(sv, roots[j] as int) == p.take(1)
        }
}

/// The facts about the sorted groups that the layout needs.
pub open spec fn order_facts(
    sv: Seq<Span>,
    order: Seq<SortKey>,
    pos: Seq<usize>,
    groups: Seq<Vec<Vec<char>>>,
    durs: Seq<u64>,
) -> bool {
    let n = sv.len() as int;
    let g = source_groups(sv, n);
    &&& order == sorted_of(group_keys(sv))
    &&& keys_sorted(order)
    &&& order.len() == g.len()
    &&& pos.len() == g.len()
    &&& groups.len() == g.len()
    &&& durs.len() == g.len()
    &&& g.no_duplicates()
    &&& forall|a: int| 0 <= a < order.len() ==> (#[trigger] order[a]).2 < g.len()
    &&& forall|a: int| 0 <= a < order.len() ==> #[trigger] order[a] == group_keys(sv)[order[a].2 as int]
    &&& forall|x: int| 0 <= x < g.len() ==> (#[trigger] pos[x]) < g.len() && order[pos[x] as int].2 == x
    &&& forall|x: int| 0 <= x < g.len() ==> chars_view(#[trigger] groups[x]@) == g[x]
    &&& forall|x: int| 0 <= x < g.len() ==> #[trigger] durs[x] == group_duration(sv, g[x], n)
    &&& forall|x: int|
        0 <= x < g.len() ==> (#[trigger] g[x]).len() >= 1 && (g[x].len() > 1 ==> g.contains(
            g[x].drop_last(),
        ))
}

pub proof fn lemma_sibling_push(lay: Seq<(Option<usize>, u64)>, x: (Option<usize>, u64), q: Option<usize>)
    ensures
        sibling_sum(lay.push(x), q) == if x.0 == q {
            sat_add(sibling_sum(lay, q), x.1)
        } else {
            sibling_sum(lay, q)
        },
{
    assert(lay.push(x).drop_last() =~= lay);
}

proof fn lemma_children_push(lay: Seq<(Option<usize>, u64)>, x: (Option<usize>, u64), j: int)
    ensures
        children_list(lay.push(x), j) == if x.0 == Some(j as usize) {
            children_list(lay, j).push(lay.len() as usize)
        } else {
            children_list(lay, j)
        },
{
    assert(lay.push(x).drop_last() =~= lay);
}

/// One more span in the layout keeps [`layout_upto`].
#[verifier::spinoff_prover]
#[verifier::rlimit(60)]
proof fn lemma_layout_push(
    sv: Seq<Span>,
    k: int,
    l0: Seq<(Option<usize>, u64)>,
    s0: Seq<u64>,
    o0: Seq<u64>,
    r0: Seq<usize>,
    k0: Seq<Vec<usize>>,
    ro0: u64,
    x: (Option<usize>, u64),
    s1: Seq<u64>,
    o1: Seq<u64>,
    r1: Seq<usize>,
    k1: Seq<Vec<usize>>,
    ro1: u64,
)
    requires
        0 <= k < usize::MAX,
        layout_upto(sv, k, l0, s0, o0, r0, k0, ro0),
        ({
            let p = aggregate_path(sv, k);
            &&& x.1 == group_duration(sv, p, sv.len() as int)
            &&& p.len() >= 1
            &&& (x.0 matches Some(q) ==> q < k)
            &&& (p.len() == 1 ==> x.0 is None)
            &&& (p.len() > 1 ==> (x.0 matches Some(q) && q < k && aggregate_path(sv, q as int)
                == p.drop_last()))
        }),
        s1.len() == k + 1,
        o1.len() == k + 1,
        r1.len() == k + 1,
        k1.len() == k + 1,
        forall|j: int| 0 <= j < k ==> s1[j] == s0[j],
        forall|j: int| 0 <= j < k && x.0 != Some(j as usize) ==> o1[j] == o0[j],
        forall|j: int| 0 <= j < k ==> r1[j] == r0[j],
        forall|j: int| 0 <= j < k && x.0 != Some(j as usize) ==> k1[j]@ == k0[j]@,
        o1[k] == 0,
        k1[k]@ == Seq::<usize>::empty(),
        match x.0 {
            None => {
                &&& s1[k] == ro0
                &&& ro1 == sat_add(ro0, x.1)
                &&& r1[k] == k
            },
            Some(q) => {
                &&& s1[k] == sat_add(s0[q as int], o0[q as int])
                &&& o1[q as int] == sat_add(o0[q as int], x.1)
                &&& k1[q as int]@ == k0[q as int]@.push(k as usize)
                &&& ro1 == ro0
                &&& r1[k] == r0[q as int]
            },
        },
    ensures
        layout_upto(sv, k + 1, l0.push(x), s1, o1, r1, k1, ro1),
{
    reveal(layout_upto);
    let n = sv.len() as int;
    let l1 = l0.push(x);
    lemma_sibling_push(l0, x, None);
    assert(l1.take(k) =~= l0);
    lemma_no_children(l0, k);
    assert forall|j: int| 0 <= j < k implies {
        let p = aggregate_path(sv, j);
        &&& (#[trigger] l1[j]).1 == group_duration(sv, p, n)
        &&& (l1[j].0 matches Some(q) ==> q < j)
        &&& (p.len() == 1 ==> l1[j].0 is None)
        &&& (p.len() > 1 ==> (l1[j].0 matches Some(q) && q < j && aggregate_path(sv, q as int)
            == p.drop_last()))
        &&& s1[j] == match l1[j].0 {
            None => sibling_sum(l1.take(j), None),
            Some(q) => sat_add(s1[q as int], sibling_sum(l1.take(j), Some(q))),
        }
        &&& o1[j] == sibling_sum(l1, Some(j as usize))
        &&& k1[j]@ == children_list(l1, j)
        &&& r1[j] < k + 1
        &&& aggregate_path(sv, r1[j] as int) == p.take(1)
    } by {
        lemma_sibling_push(l0, x, Some(j as usize));
        lemma_children_push(l0, x, j);
        assert(l1[j] == l0[j]);
        assert(l1.take(j) =~= l0.take(j));
        let e = l0[j];
        match e.0 {
            Some(q) => {
                assert(s1[q as int] == s0[q as int]);
            },
            None => {},
        }
        if x.0 == Some(j as usize) {
            assert(o1[j] == sat_add(o0[j], x.1));
        } else {
            assert(o1[j] == o0[j]);
            assert(k1[j]@ == k0[j]@);
        }
    }
    assert(l1[k] == x);
    lemma_sibling_push(l0, x, Some(k as usize));
    lemma_children_push(l0, x, k);
    let p = aggregate_path(sv, k);
    match x.0 {
        Some(q) => {
            let e = l0[q as int];
            assert(aggregate_path(sv, r0[q as int] as int) == aggregate_path(sv, q as int).take(1));
            assert(p.drop_last().take(1) =~= p.take(1));
            assert(o0[q as int] == sibling_sum(l0, Some(q)));
        },
        None => {
            assert(p.take(1) =~= p);
        },
    }
    assert(layout_upto(sv, k + 1, l1, s1, o1, r1, k1, ro1)) by {
        assert forall|j: int| 0 <= j < k + 1 implies {
            let p = aggregate_path(sv, j);
            &&& (#[trigger] l1[j]).1 == group_duration(sv, p, n)
            &&& (l1[j].0 matches Some(q) ==> q < j)
            &&& (p.len() == 1 ==> l1[j].0 is None)
            &&& (p.len() > 1 ==> (l1[j].0 matches Some(q) && q < j && aggregate_path(sv, q as int)
                == p.drop_last()))
            &&& s1[j] == match l1[j].0 {
                None => sibling_sum(l1.take(j), None),
                Some(q) => sat_add(s1[q as int], sibling_sum(l1.take(j), Some(q))),
            }
            &&& o1[j] == sibling_sum(l1, Some(j as usize))
            &&& k1[j]@ == children_list(l1, j)
            &&& r1[j] < k + 1
            &&& aggregate_path(sv, r1[j] as int) == p.take(1)
        } by {
            if j == k {
            }
        }
    }
}

pub proof fn lemma_no_children(lay: Seq<(Option<usize>, u64)>, k: int)
    requires
        forall|j: int| 0 <= j < lay.len() ==> ((#[trigger] lay[j]).0 matches Some(q) ==> q < j),
        lay.len() <= k <= usize::MAX,
    ensures
        sibling_sum(lay, Some(k as usize)) == 0,
        children_list(lay, k) == Seq::<usize>::empty(),
    decreases lay.len(),
{
    if lay.len() > 0 {
        let d = lay.drop_last();
        assert forall|j: int| 0 <= j < d.len() implies ((#[trigger] d[j]).0 matches Some(q) ==> q < j) by {
            assert(d[j] == lay[j]);
        }
        lemma_no_children(d, k);
        let e = lay[lay.len() - 1];
    }
}

proof fn lemma_layout_lens(
    sv: Seq<Span>,
    k: int,
    lay: Seq<(Option<usize>, u64)>,
    starts: Seq<u64>,
    offs: Seq<u64>,
    roots: Seq<usize>,
    kids: Seq<Vec<usize>>,
    root_off: u64,
)
    requires
        layout_upto(sv, k, lay, starts, offs, roots, kids, root_off),
    ensures
        lay.len() == k,
        starts.len() == k,
        offs.len() == k,
        roots.len() == k,
        kids.len() == k,
{
    reveal(layout_upto);
}

proof fn lemma_order_path(sv: Seq<Span>, order: Seq<SortKey>, k: int)
    requires
        order == sorted_of(group_keys(sv)),
        0 <= k < order.len(),
    ensures
        aggregate_path(sv, k) == source_groups(sv, sv.len() as int)[order[k].2 as int],
{
    reveal(aggregate_path);
}

/// A shorter path comes first in the order.
proof fn lemma_parent_before(sv: Seq<Span>, order: Seq<SortKey>, k: int, j: int)
    requires
        keys_sorted(order),
        0 <= k < order.len(),
        0 <= j < order.len(),
        order[k].0 == order[j].0 + 1,
    ensures
        j < k,
{
    if j > k {
        assert(crate::sort::key_le(order[k], order[j]));
    }
}

/// Places the `k`-th aggregated span.
fn layout_step(
    spans: &[Span],
    order: &Vec<SortKey>,
    pos: &Vec<usize>,
    groups: &Vec<Vec<Vec<char>>>,
    durs: &Vec<u64>,
    k: usize,
    lay: Ghost<Seq<(Option<usize>, u64)>>,
    starts: &mut Vec<u64>,
    offs: &mut Vec<u64>,
    roots: &mut Vec<usize>,
    kids: &mut Vec<Vec<usize>>,
    root_off: &mut u64,
    parents: &mut Vec<Option<usize>>,
    lens: &mut Vec<u64>,
) -> (new_lay: Ghost<Seq<(Option<usize>, u64)>>)
    requires
        parents_before(spans@),
        order_facts(spans@, order@, pos@, groups@, durs@),
        k < order@.len(),
        layout_upto(spans@, k as int, lay@, old(starts)@, old(offs)@, old(roots)@, old(kids)@, *old(root_off)),
        old(parents)@ == lay@.map_values(|x: (Option<usize>, u64)| x.0),
        old(lens)@ == lay@.map_values(|x: (Option<usize>, u64)| x.1),
    ensures
        layout_upto(spans@, k + 1, new_lay@, final(starts)@, final(offs)@, final(roots)@, final(kids)@, *final(root_off)),
        final(parents)@ == new_lay@.map_values(|x: (Option<usize>, u64)| x.0),
        final(lens)@ == new_lay@.map_values(|x: (Option<usize>, u64)| x.1),
{
    let ghost sv = spans@;
    let ghost n = sv.len() as int;
    let ghost gs = source_groups(sv, n);
    let ghost l0 = lay@;
    let ghost s0 = starts@;
    let ghost o0 = offs@;
    let ghost r0 = roots@;
    let ghost k0 = kids@;
    let ghost ro0 = *root_off;
    proof {
        lemma_layout_lens(sv, k as int, l0, s0, o0, r0, k0, ro0);
    }
    let on = order.len();
    let g = order[k].2;
    proof {
        assert(order@[k as int].2 < gs.len());
        assert(chars_view(groups@[g as int]@) == gs[g as int]);
        assert(gs[g as int].len() >= 1);
        lemma_order_path(sv, order@, k as int);
    }
    let d = durs[g];
    let plen = groups[g].len();
    let ghost pk = gs[g as int];
    let (parent, start, root): (Option<usize>, u64, usize) = if plen == 1 {
        let st = *root_off;
        *root_off = st.saturating_add(d);
        (None, st, k)
    } else {
        let q = copy_path(&groups[g]);
        let mut q = q;
        q.pop();
        proof {
            assert(chars_view(q@) =~= pk.drop_last());
            assert(gs.contains(pk.drop_last()));
        }
        let gq = match find_path(groups, &q) {
            Some(x) => x,
            None => {
                proof {
                    let w = choose|w: int| 0 <= w < gs.len() && gs[w] == pk.drop_last();
                    assert(chars_view(groups@[w]@) == gs[w]);
                }
                return Ghost(l0);
            },
        };
        proof {
            assert(chars_view(groups@[gq as int]@) == gs[gq as int]);
        }
        let j = pos[gq];
        proof {
            assert(order@[j as int].2 == gq);
            assert(order@[j as int] == group_keys(sv)[gq as int]);
            assert(order@[k as int] == group_keys(sv)[g as int]);
            lemma_order_path(sv, order@, j as int);
            lemma_parent_before(sv, order@, k as int, j as int);
        }
        let st = starts[j].saturating_add(offs[j]);
        let o = offs[j];
        offs.set(j, o.saturating_add(d));
        let rt = roots[j];
        let mut kl = kids[j].clone();
        kl.push(k);
        kids.set(j, kl);
        (Some(j), st, rt)
    };
    starts.push(start);
    offs.push(0);
    roots.push(root);
    kids.push(Vec::new());
    parents.push(parent);
    lens.push(d);
    let ghost x = (parent, d);
    let ghost l1 = l0.push(x);
    proof {
        assert(parents@ =~= l1.map_values(|x: (Option<usize>, u64)| x.0));
        assert(lens@ =~= l1.map_values(|x: (Option<usize>, u64)| x.1));
        lemma_layout_push(sv, k as int, l0, s0, o0, r0, k0, ro0, x, starts@, offs@, roots@, kids@, *root_off);
    }
    Ghost(l1)
}


proof fn lemma_layout_empty(sv: Seq<Span>)
    ensures
        layout_upto(sv, 0, Seq::empty(), Seq::empty(), Seq::empty(), Seq::empty(), Seq::empty(), 0),
{
    reveal(layout_upto);
}

/// The fields of an aggregated span, as the final loop sets them.
pub open spec fn built_span(
    sv: Seq<Span>,
    s: Span,
    c: usize,
    k: int,
    lay: Seq<(Option<usize>, u64)>,
    starts: Seq<u64>,
    roots: Seq<usize>,
    kids: Seq<Vec<usize>>,
) -> bool {
    let n = sv.len() as int;
    let p = aggregate_path(sv, k);
    let first = group_first(sv, p, n);
    &&& s.type_ == SpanType::Source
    &&& s.identifier@ == p.last()
    &&& s.label@ == sv[first].label@
    &&& opt_chars(s.sublabel) == opt_chars(sv[first].sublabel)
    &&& s.duration == lay[k].1
    &&& s.parent_index == lay[k].0
    &&& s.start_time == starts[k]
    &&& s.children_indices@ == kids[k]@
    &&& s.root_span_index == roots[k]
    &&& s.depth == p.len() - 1
    &&& c == group_count(sv, p, n)
}

proof fn lemma_children_list(lay: Seq<(Option<usize>, u64)>, k: int)
    requires
        forall|j: int| 0 <= j < lay.len() ==> ((#[trigger] lay[j]).0 matches Some(q) ==> q < j),
        lay.len() <= usize::MAX + 1,
        0 <= k <= usize::MAX,
    ensures
        forall|c: int| 0 <= c < children_list(lay, k).len() ==> k < #[trigger] children_list(lay, k)[c] < lay.len(),
    decreases lay.len(),
{
    if lay.len() > 0 {
        let d = lay.drop_last();
        assert forall|j: int| 0 <= j < d.len() implies ((#[trigger] d[j]).0 matches Some(q) ==> q < j) by {
            assert(d[j] == lay[j]);
        }
        lemma_children_list(d, k);
        let prev = children_list(d, k);
        let cur = children_list(lay, k);
        let e = lay[lay.len() - 1];
        assert forall|c: int| 0 <= c < cur.len() implies k < #[trigger] cur[c] < lay.len() by {
            if c < prev.len() {
                assert(cur[c] == prev[c]);
            } else {
                assert(e.0 == Some(k as usize));
                assert(cur[c] == (lay.len() - 1) as usize);
            }
        }
    }
}

proof fn lemma_aggregate_final(
    sv: Seq<Span>,
    out: Seq<Span>,
    cnt: Seq<usize>,
    lay: Seq<(Option<usize>, u64)>,
    starts: Seq<u64>,
    offs: Seq<u64>,
    roots: Seq<usize>,
    kids: Seq<Vec<usize>>,
    root_off: u64,
)
    requires
        layout_upto(sv, out.len() as int, lay, starts, offs, roots, kids, root_off),
        cnt.len() == out.len(),
        forall|k: int| 0 <= k < out.len() ==> built_span(sv, #[trigger] out[k], cnt[k], k, lay, starts, roots, kids),
        out.len() <= usize::MAX,
    ensures
        forall|k: int| 0 <= k < out.len() ==> aggregated_source(sv, out, cnt, k),
        parents_before(out),
        crate::view::children_after(out),
{
    reveal(layout_upto);
    let n = out.len() as int;
    assert(layout_of(out) =~= lay) by {
        assert forall|j: int| 0 <= j < n implies #[trigger] layout_of(out)[j] == lay[j] by {
            assert(built_span(sv, out[j], cnt[j], j, lay, starts, roots, kids));
        }
    }
    assert forall|k: int| 0 <= k < n implies aggregated_source(sv, out, cnt, k) by {
        assert(built_span(sv, out[k], cnt[k], k, lay, starts, roots, kids));
        let e = lay[k];
        match e.0 {
            Some(q) => {
                assert(built_span(sv, out[q as int], cnt[q as int], q as int, lay, starts, roots, kids));
            },
            None => {},
        }
    }
    assert forall|j: int| 0 <= j < lay.len() implies ((#[trigger] lay[j]).0 matches Some(q) ==> q < j) by {
    }
    assert forall|i: int| 0 <= i < n implies ((#[trigger] out[i]).parent_index matches Some(p) ==> p < i) by {
        assert(built_span(sv, out[i], cnt[i], i, lay, starts, roots, kids));
        assert(lay[i].0 == out[i].parent_index);
    }
    assert forall|i: int, c: int|
        0 <= i < n && 0 <= c < out[i].children_indices@.len() implies i < (
        #[trigger] out[i].children_indices@[c]) < n by {
        assert(built_span(sv, out[i], cnt[i], i, lay, starts, roots, kids));
        lemma_children_list(lay, i);
        assert(out[i].children_indices@ == children_list(lay, i));
    }
}

// ---------------------------------------------------------------------------
// Every source span is counted once
// ---------------------------------------------------------------------------

/// The number of source spans among the first `m`.
pub open spec fn source_count(spans: Seq<Span>, m: int) -> int
    decreases m,
{
    if m <= 0 {
        0
    } else {
        source_count(spans, m - 1) + if is_source(spans[m - 1]) {
            1int
        } else {
            0int
        }
    }
}

/// The sum of a list of counts.
pub open spec fn count_sum(c: Seq<usize>) -> int
    decreases c.len(),
{
    if c.len() == 0 {
        0
    } else {
        count_sum(c.drop_last()) + c.last()
    }
}

/// Adds the count of a path among the first `m` spans.
pub open spec fn add_group_count(spans: Seq<Span>, m: int) -> spec_fn(int, Seq<Seq<char>>) -> int {
    |acc: int, p: Seq<Seq<char>>| acc + group_count(spans, p, m)
}

/// The summed counts of the paths `gs` among the first `m` spans.
pub open spec fn groups_total(spans: Seq<Span>, gs: Seq<Seq<Seq<char>>>, m: int) -> int {
    gs.fold_left(0int, add_group_count(spans, m))
}

/// How many times `p` occurs in `gs`.
pub open spec fn occurrences(gs: Seq<Seq<Seq<char>>>, p: Seq<Seq<char>>) -> int
    decreases gs.len(),
{
    if gs.len() == 0 {
        0
    } else {
        occurrences(gs.drop_last(), p) + if gs.last() == p {
            1int
        } else {
            0int
        }
    }
}

proof fn lemma_occurrences_distinct(gs: Seq<Seq<Seq<char>>>, p: Seq<Seq<char>>)
    requires
        gs.no_duplicates(),
    ensures
        occurrences(gs, p) == if gs.contains(p) {
            1int
        } else {
            0int
        },
    decreases gs.len(),
{
    if gs.len() > 0 {
        let d = gs.drop_last();
        assert(d.no_duplicates());
        lemma_occurrences_distinct(d, p);
        if gs.last() == p {
            assert(!d.contains(p)) by {
                if d.contains(p) {
                    let w = choose|w: int| 0 <= w < d.len() && d[w] == p;
                    assert(gs[w] == gs[gs.len() - 1]);
                }
            }
            assert(gs.contains(p)) by {
                assert(gs[gs.len() - 1] == p);
            }
        } else {
            if gs.contains(p) {
                let w = choose|w: int| 0 <= w < gs.len() && gs[w] == p;
                assert(d[w] == p);
            }
            if d.contains(p) {
                let w = choose|w: int| 0 <= w < d.len() && d[w] == p;
                assert(gs[w] == p);
            }
        }
    }
}

/// Counting one more span adds, for every listed path, one per occurrence
/// of that span's path.
proof fn lemma_groups_total_step(spans: Seq<Span>, gs: Seq<Seq<Seq<char>>>, m: int)
    requires
        1 <= m <= spans.len(),
    ensures
        groups_total(spans, gs, m) == groups_total(spans, gs, m - 1) + if is_source(spans[m - 1]) {
            occurrences(gs, source_path(spans, m - 1))
        } else {
            0int
        },
    decreases gs.len(),
{
    if gs.len() > 0 {
        lemma_groups_total_step(spans, gs.drop_last(), m);
    }
}

/// The counts of all groups add up to the number of source spans.
proof fn lemma_groups_total(spans: Seq<Span>, m: int)
    requires
        0 <= m <= spans.len(),
    ensures
        groups_total(spans, source_groups(spans, m), m) == source_count(spans, m),
    decreases m,
{
    if m > 0 {
        lemma_groups_total(spans, m - 1);
        let g = source_groups(spans, m - 1);
        lemma_groups_distinct(spans, m - 1);
        lemma_groups_total_step(spans, g, m);
        if is_source(spans[m - 1]) {
            let p = source_path(spans, m - 1);
            lemma_occurrences_distinct(g, p);
            if !g.contains(p) {
                let gp = g.push(p);
                assert(gp.drop_last() =~= g);
                lemma_group_absent(spans, p, m - 1);
                assert(groups_total(spans, gp, m) == groups_total(spans, g, m) + group_count(spans, p, m));
            }
        }
    }
}

/// A list of counts sums as the counts of the paths they stand for.
proof fn lemma_count_sum_paths(spans: Seq<Span>, c: Seq<usize>, ps: Seq<Seq<Seq<char>>>, m: int)
    requires
        c.len() == ps.len(),
        forall|k: int| 0 <= k < c.len() ==> c[k] == group_count(spans, #[trigger] ps[k], m),
    ensures
        count_sum(c) == groups_total(spans, ps, m),
    decreases c.len(),
{
    if c.len() > 0 {
        let dc = c.drop_last();
        let dp = ps.drop_last();
        assert forall|k: int| 0 <= k < dc.len() implies dc[k] == group_count(spans, #[trigger] dp[k], m) by {
            assert(dc[k] == c[k]);
            assert(dp[k] == ps[k]);
        }
        lemma_count_sum_paths(spans, dc, dp, m);
        assert(c.last() == group_count(spans, ps.last(), m));
    }
}

/// The aggregated paths are the groups, each once, in sorted order.
proof fn lemma_paths_permute(sv: Seq<Span>, order: Seq<SortKey>, pos: Seq<usize>, groups: Seq<Vec<Vec<char>>>, durs: Seq<u64>)
    requires
        order_facts(sv, order, pos, groups, durs),
        crate::sort::distinct_tags(order),
    ensures
        Seq::new(order.len(), |k: int| source_groups(sv, sv.len() as int)[order[k].2 as int]).to_multiset()
            == source_groups(sv, sv.len() as int).to_multiset(),
{
    let gs = source_groups(sv, sv.len() as int);
    let a = Seq::new(order.len(), |k: int| gs[order[k].2 as int]);
    assert(a.no_duplicates()) by {
        assert forall|x: int, y: int| 0 <= x < a.len() && 0 <= y < a.len() && x != y implies a[x] != a[y] by {
            assert(order[x].2 != order[y].2);
            assert(gs[order[x].2 as int] != gs[order[y].2 as int]);
        }
    }
    a.lemma_multiset_has_no_duplicates();
    gs.lemma_multiset_has_no_duplicates();
    assert forall|x: Seq<Seq<char>>| a.to_multiset().count(x) == gs.to_multiset().count(x) by {
        a.to_multiset_ensures();
        gs.to_multiset_ensures();
        if a.contains(x) {
            let k = choose|k: int| 0 <= k < a.len() && a[k] == x;
            assert(gs[order[k].2 as int] == x);
            assert(gs.contains(x));
        }
        if gs.contains(x) {
            let j = choose|j: int| 0 <= j < gs.len() && gs[j] == x;
            let k = pos[j] as int;
            assert(a[k] == x);
            assert(a.contains(x));
        }
    }
    assert(a.to_multiset() =~= gs.to_multiset());
}

/// Summing group counts does not depend on the order of the groups.
#[verifier::spinoff_prover]
proof fn lemma_groups_total_permutes(sv: Seq<Span>, a: Seq<Seq<Seq<char>>>, b: Seq<Seq<Seq<char>>>, n: int)
    requires
        a.to_multiset() == b.to_multiset(),
    ensures
        groups_total(sv, a, n) == groups_total(sv, b, n),
{
    let f = add_group_count(sv, n);
    assert(vstd::seq_lib::commutative_foldl(f)) by {
        assert forall|x: Seq<Seq<char>>, y: Seq<Seq<char>>, v: int| #[trigger] f(f(v, x), y) == f(f(v, y), x) by {
        }
    }
    vstd::seq_lib::lemma_fold_left_permutation(a, b, f, 0int);
}

/// The path of the `k`-th aggregated span is the group its key names.
#[verifier::spinoff_prover]
proof fn lemma_cnt_paths(sv: Seq<Span>, order: Seq<SortKey>, cnt: Seq<usize>)
    requires
        order == sorted_of(group_keys(sv)),
        cnt.len() == order.len(),
        forall|k: int| 0 <= k < cnt.len() ==> #[trigger] cnt[k] == group_count(sv, aggregate_path(sv, k), sv.len() as int),
    ensures
        forall|k: int|
            0 <= k < cnt.len() ==> #[trigger] cnt[k] == group_count(
                sv,
                Seq::new(order.len(), |j: int| source_groups(sv, sv.len() as int)[order[j].2 as int])[k],
                sv.len() as int,
            ),
{
    reveal(aggregate_path);
}

/// The counts of the aggregated spans add up to the number of source spans.
#[verifier::spinoff_prover]
proof fn lemma_count_conserved(
    sv: Seq<Span>,
    order: Seq<SortKey>,
    pos: Seq<usize>,
    groups: Seq<Vec<Vec<char>>>,
    durs: Seq<u64>,
    cnt: Seq<usize>,
)
    requires
        order_facts(sv, order, pos, groups, durs),
        crate::sort::distinct_tags(order),
        cnt.len() == order.len(),
        forall|k: int| 0 <= k < cnt.len() ==> #[trigger] cnt[k] == group_count(sv, aggregate_path(sv, k), sv.len() as int),
    ensures
        count_sum(cnt) == source_count(sv, sv.len() as int),
{
    let n = sv.len() as int;
    let gs = source_groups(sv, n);
    let a = Seq::new(order.len(), |k: int| gs[order[k].2 as int]);
    lemma_cnt_paths(sv, order, cnt);
    lemma_count_sum_paths(sv, cnt, a, n);
    lemma_paths_permute(sv, order, pos, groups, durs);
    lemma_groups_total_permutes(sv, a, gs, n);
    lemma_groups_total(sv, n);
}

/// Aggregates the source spans of all units into one tree of includes.
///
/// Each distinct inclusion path (the identifiers of the source spans from
/// the outermost include down to a file) gives one span: its duration sums
/// the durations of the spans with that path, its count is their number,
/// and its label is that of the first of them. Shorter paths come first,
/// then longer durations, then earlier first appearances; the children of
/// a span follow each other from its start, and the roots from 0.
pub fn aggregate_sources(raw_spans: &[Span]) -> (r: (Vec<Span>, Vec<usize>))
    requires
        parents_before(raw_spans@),
    ensures
        r.0@.len() == source_groups(raw_spans@, raw_spans@.len() as int).len(),
        r.1@.len() == r.0@.len(),
        count_sum(r.1@) == source_count(raw_spans@, raw_spans@.len() as int),
        forall|k: int| 0 <= k < r.0@.len() ==> aggregated_source(raw_spans@, r.0@, r.1@, k),
        parents_before(r.0@),
        crate::view::children_after(r.0@),
{
    let ghost sv = raw_spans@;
    let ghost n = sv.len() as int;
    let ghost gs = source_groups(sv, n);
    let paths = all_source_paths(raw_spans);
    let (groups, durs, counts, firsts) = group_sources(raw_spans, &paths);
    let ng = groups.len();
    let mut keys: Vec<SortKey> = Vec::new();
    let mut g: usize = 0;
    while g < ng
        invariant
            g <= ng,
            ng == gs.len(),
            sv == raw_spans@,
            n == sv.len(),
            gs == source_groups(sv, n),
            groups_upto(sv, n, groups@, durs@, counts@, firsts@),
            keys@ =~= group_keys(sv).take(g as int),
        decreases ng - g,
    {
        proof {
            assert(chars_view(groups@[g as int]@) == gs[g as int]);
        }
        keys.push((groups[g].len() as u128, (u64::MAX - durs[g]) as u128, g));
        g = g + 1;
    }
    let ghost kv = keys@;
    proof {
        assert(kv =~= group_keys(sv));
        assert(distinct_tags(kv));
    }
    let order = sort_keys(keys);
    proof {
        lemma_sorted_of(kv, order@);
        lemma_sort_keeps_tags(kv, order@);
        assert forall|a: int| 0 <= a < order@.len() implies (#[trigger] order@[a]).2 < gs.len()
            && order@[a] == kv[order@[a].2 as int] by {
            assert(kv.contains(order@[a]));
        }
    }
    let mut pos: Vec<usize> = Vec::new();
    let mut x: usize = 0;
    while x < ng
        invariant
            x <= ng,
            pos@.len() == x,
        decreases ng - x,
    {
        pos.push(0);
        x = x + 1;
    }
    let mut a: usize = 0;
    while a < ng
        invariant
            a <= ng,
            ng == gs.len(),
            sv == raw_spans@,
            n == sv.len(),
            gs == source_groups(sv, n),
            order@.len() == ng,
            pos@.len() == ng,
            crate::sort::distinct_tags(order@),
            forall|b: int| 0 <= b < order@.len() ==> (#[trigger] order@[b]).2 < gs.len(),
            forall|b: int| 0 <= b < a ==> pos@[(#[trigger] order@[b]).2 as int] == b,
        decreases ng - a,
    {
        let t = order[a].2;
        pos.set(t, a);
        proof {
            assert forall|b: int| 0 <= b < a + 1 implies pos@[(#[trigger] order@[b]).2 as int] == b by {
                if b < a {
                    assert(order@[b].2 != order@[a as int].2);
                }
            }
        }
        a = a + 1;
    }
    proof {
        lemma_groups_distinct(sv, n);
        assert forall|y: int| 0 <= y < gs.len() implies (#[trigger] pos@[y]) < gs.len() && order@[pos@[y] as int].2
            == y by {
            assert(order@.contains(kv[y]));
            let b = choose|b: int| 0 <= b < order@.len() && order@[b] == kv[y];
            assert(pos@[order@[b].2 as int] == b);
        }
        assert forall|y: int| 0 <= y < gs.len() implies (#[trigger] gs[y]).len() >= 1 && (gs[y].len() > 1
            ==> gs.contains(gs[y].drop_last())) by {
            lemma_group_parent(sv, y);
        }
        assert forall|y: int| 0 <= y < gs.len() implies chars_view(#[trigger] groups@[y]@) == gs[y] by {
        }
        assert(order@ == sorted_of(group_keys(sv)));
        assert(keys_sorted(order@));
        assert(order@.len() == gs.len());
        assert(forall|b: int| 0 <= b < order@.len() ==> #[trigger] order@[b] == group_keys(sv)[order@[b].2 as int]);
        assert forall|y: int| 0 <= y < gs.len() implies #[trigger] durs@[y] == group_duration(sv, gs[y], n) by {
            assert(chars_view(groups@[y]@) == gs[y]);
        }
        assert(order_facts(sv, order@, pos@, groups@, durs@));
        lemma_layout_empty(sv);
    }
    let mut starts: Vec<u64> = Vec::new();
    let mut offs: Vec<u64> = Vec::new();
    let mut roots: Vec<usize> = Vec::new();
    let mut kids: Vec<Vec<usize>> = Vec::new();
    let mut root_off: u64 = 0;
    let mut parents: Vec<Option<usize>> = Vec::new();
    let mut lens: Vec<u64> = Vec::new();
    let ghost mut lay: Seq<(Option<usize>, u64)> = Seq::empty();
    proof {
        assert(parents@ =~= lay.map_values(|x: (Option<usize>, u64)| x.0));
        assert(lens@ =~= lay.map_values(|x: (Option<usize>, u64)| x.1));
    }
    let mut k: usize = 0;
    while k < ng
        invariant
            k <= ng,
            ng == gs.len(),
            sv == raw_spans@,
            n == sv.len(),
            gs == source_groups(sv, n),
            parents_before(sv),
            sv == raw_spans@,
            order_facts(sv, order@, pos@, groups@, durs@),
            layout_upto(sv, k as int, lay, starts@, offs@, roots@, kids@, root_off),
            parents@ == lay.map_values(|x: (Option<usize>, u64)| x.0),
            lens@ == lay.map_values(|x: (Option<usize>, u64)| x.1),
        decreases ng - k,
    {
        let nl = layout_step(
            raw_spans,
            &order,
            &pos,
            &groups,
            &durs,
            k,
            Ghost(lay),
            &mut starts,
            &mut offs,
            &mut roots,
            &mut kids,
            &mut root_off,
            &mut parents,
            &mut lens,
        );
        proof {
            lay = nl@;
        }
        k = k + 1;
    }
    proof {
        lemma_layout_lens(sv, ng as int, lay, starts@, offs@, roots@, kids@, root_off);
    }
    let mut out: Vec<Span> = Vec::new();
    let mut cnt: Vec<usize> = Vec::new();
    let mut k: usize = 0;
    while k < ng
        invariant
            k <= ng,
            ng == gs.len(),
            sv == raw_spans@,
            n == sv.len(),
            gs == source_groups(sv, n),
            sv == raw_spans@,
            order_facts(sv, order@, pos@, groups@, durs@),
            groups_upto(sv, n, groups@, durs@, counts@, firsts@),
            lay.len() == ng,
            starts@.len() == ng,
            roots@.len() == ng,
            kids@.len() == ng,
            parents@ == lay.map_values(|x: (Option<usize>, u64)| x.0),
            lens@ == lay.map_values(|x: (Option<usize>, u64)| x.1),
            out@.len() == k,
            cnt@.len() == k,
            forall|j: int| 0 <= j < k ==> built_span(sv, #[trigger] out@[j], cnt@[j], j, lay, starts@, roots@, kids@),
        decreases ng - k,
    {
        let g = order[k].2;
        proof {
            lemma_order_path(sv, order@, k as int);
            assert(chars_view(groups@[g as int]@) == gs[g as int]);
            lemma_group_absent(sv, gs[g as int], n);
            assert(gs.contains(gs[g as int]));
        }
        let p = &groups[g];
        let last = p.len() - 1;
        let identifier = string_from(&p[last]);
        let first = firsts[g];
        let src = &raw_spans[first];
        let span = Span {
            type_: SpanType::Source,
            identifier,
            label: src.label.clone(),
            sublabel: match &src.sublabel {
                Some(t) => Some(t.clone()),
                None => None,
            },
            start_time: starts[k],
            duration: lens[k],
            parent_index: parents[k],
            children_indices: kids[k].clone(),
            root_span_index: roots[k],
            depth: last,
        };
        out.push(span);
        cnt.push(counts[g]);
        proof {
            assert(built_span(sv, out@[k as int], cnt@[k as int], k as int, lay, starts@, roots@, kids@));
        }
        k = k + 1;
    }
    proof {
        lemma_aggregate_final(sv, out@, cnt@, lay, starts@, offs@, roots@, kids@, root_off);
        assert forall|k: int| 0 <= k < cnt@.len() implies #[trigger] cnt@[k] == group_count(
            sv,
            aggregate_path(sv, k),
            n,
        ) by {
            assert(built_span(sv, out@[k], cnt@[k], k, lay, starts@, roots@, kids@));
        }
        lemma_count_conserved(sv, order@, pos@, groups@, durs@, cnt@);
    }
    (out, cnt)
}

} // verus!
