//! Linking the spans of one translation unit into a tree.
//!
//! Span 0 is the unit; the others are ordered by start time (longest first
//! among equal starts). Each span's parent is the latest earlier span that
//! is still open when it starts, or the unit when there is none.
use vstd::prelude::*;
use crate::sort::{SortKey, key_le, keys_sorted, distinct_tags, sort_keys, lemma_sort_keeps_tags};
use crate::span::{Span, SpanType, TraceData, TraceEvent, UNBOUNDED, TIME_LIMIT};
use crate::paths::{clean_identifier, identifier_label};
use crate::text::{chars_of, copy_str};

verus! {

broadcast use vstd::seq_lib::group_seq_properties;

/// `(start, duration)` of each span, as a sequence.
pub type Times = Seq<(u64, u64)>;

/// The end of span `j`.
pub open spec fn end_at(t: Times, j: int) -> int {
    t[j].0 + t[j].1
}

/// The latest `j` in `1..k` whose span is still open when span `i` starts,
/// or 0 (the unit) when there is none.
pub open spec fn open_before(t: Times, i: int, k: int) -> int
    decreases k,
{
    if k <= 1 {
        0
    } else if end_at(t, k - 1) > t[i].0 {
        k - 1
    } else {
        open_before(t, i, k - 1)
    }
}

/// The parent of span `i` (for `i >= 1`).
pub open spec fn parent_at(t: Times, i: int) -> int {
    open_before(t, i, i)
}

pub proof fn lemma_open_before(t: Times, i: int, k: int)
    ensures
        0 <= open_before(t, i, k),
        k >= 1 ==> open_before(t, i, k) < k,
        open_before(t, i, k) >= 1 ==> end_at(t, open_before(t, i, k)) > t[i].0,
        forall|j: int| open_before(t, i, k) < j < k && j >= 1 ==> end_at(t, j) <= t[i].0,
    decreases k,
{
    if k > 1 {
        lemma_open_before(t, i, k - 1);
    }
}

/// The depth of span `i`: the unit is at depth 0, each span one below its
/// parent.
pub open spec fn depth_at(t: Times, i: int) -> nat
    decreases i,
{
    if i <= 0 {
        0
    } else {
        proof {
            lemma_open_before(t, i, i);
        }
        depth_at(t, parent_at(t, i)) + 1
    }
}

/// The spans among `1..m` whose parent is `j`, in order.
pub open spec fn children_upto(t: Times, j: int, m: int) -> Seq<usize>
    decreases m,
{
    if m <= 1 {
        Seq::empty()
    } else if parent_at(t, m - 1) == j {
        children_upto(t, j, m - 1).push((m - 1) as usize)
    } else {
        children_upto(t, j, m - 1)
    }
}

/// A direct child of the unit among `1..m` has an unknown duration.
pub open spec fn unit_child_unbounded(t: Times, m: int) -> bool
    decreases m,
{
    if m <= 1 {
        false
    } else {
        unit_child_unbounded(t, m - 1) || (parent_at(t, m - 1) == 0 && t[m - 1].1 == UNBOUNDED)
    }
}

/// The latest end of the unit's direct children among `1..m` (-1 if none).
pub open spec fn unit_children_end(t: Times, m: int) -> int
    decreases m,
{
    if m <= 1 {
        -1
    } else {
        let e = unit_children_end(t, m - 1);
        if parent_at(t, m - 1) == 0 && end_at(t, m - 1) > e {
            end_at(t, m - 1)
        } else {
            e
        }
    }
}

/// The unit's `(start, duration)` after linking: a unit of unknown duration
/// that has children, none of them of unknown duration, spans from its
/// first child's start to the latest end of its children.
pub open spec fn bounded_unit(t: Times) -> (int, int) {
    let n = t.len() as int;
    if n > 1 && t[0].1 == UNBOUNDED && !unit_child_unbounded(t, n) {
        (t[1].0 as int, unit_children_end(t, n) - t[1].0)
    } else {
        (t[0].0 as int, t[0].1 as int)
    }
}

/// Spans `1..` are ordered by start, longest first among equal starts.
pub open spec fn start_ordered(t: Times) -> bool {
    forall|a: int, b: int|
        1 <= a < b < t.len() ==> t[a].0 < t[b].0 || (t[a].0 == t[b].0 && t[a].1 >= t[b].1)
}

/// `perm` is a permutation of `0..n`.
pub open spec fn is_permutation(perm: Seq<int>, n: int) -> bool {
    &&& perm.len() == n
    &&& forall|k: int| 0 <= k < n ==> 0 <= #[trigger] perm[k] < n
    &&& forall|a: int, b: int| 0 <= a < n && 0 <= b < n && a != b ==> perm[a] != perm[b]
}

/// The times of `old` taken in the order `perm`.
pub open spec fn permuted_times(old: Seq<Span>, perm: Seq<int>) -> Times {
    Seq::new(old.len(), |k: int| (old[perm[k]].start_time, old[perm[k]].duration))
}

/// Option of string, as characters.
pub open spec fn opt_chars(o: Option<String>) -> Option<Seq<char>> {
    match o {
        Some(s) => Some(s@),
        None => None,
    }
}

/// `a` and `b` are the same span apart from its times and links.
pub open spec fn same_names(a: Span, b: Span) -> bool {
    &&& a.type_ == b.type_
    &&& a.identifier@ == b.identifier@
    &&& a.label@ == b.label@
    &&& opt_chars(a.sublabel) == opt_chars(b.sublabel)
    &&& a.root_span_index == b.root_span_index
}

/// `fin` is `old` linked, with the spans after the unit taken in the order
/// `perm`.
pub open spec fn linked_from(old: Seq<Span>, perm: Seq<int>, fin: Seq<Span>) -> bool {
    let n = old.len() as int;
    let t = permuted_times(old, perm);
    let unit = bounded_unit(t);
    &&& fin.len() == n
    &&& is_permutation(perm, n)
    &&& perm[0] == 0
    &&& start_ordered(t)
    &&& forall|i: int| 0 <= i < n ==> same_names(#[trigger] fin[i], old[perm[i]])
    &&& fin[0].start_time == unit.0
    &&& fin[0].duration == unit.1
    &&& fin[0].parent_index == old[0].parent_index
    &&& fin[0].depth == old[0].depth
    &&& fin[0].children_indices@ == old[0].children_indices@ + children_upto(t, 0, n)
    &&& forall|i: int|
        1 <= i < n ==> {
            &&& (#[trigger] fin[i]).start_time == t[i].0 + unit.0
            &&& fin[i].duration == t[i].1
            &&& fin[i].parent_index == Some(parent_at(t, i) as usize)
            &&& fin[i].depth == depth_at(t, i)
            &&& fin[i].children_indices@ == children_upto(t, i, n)
        }
}

/// Times no larger than [`TIME_LIMIT`], or an unknown duration.
pub open spec fn times_bounded(s: Seq<Span>) -> bool {
    forall|i: int|
        0 <= i < s.len() ==> (#[trigger] s[i]).start_time <= TIME_LIMIT && (s[i].duration
            <= TIME_LIMIT || s[i].duration == UNBOUNDED)
}

/// With no span of `(top, i)` open at `i`'s start and `top` open (or the
/// unit), `top` is the parent of `i`.
proof fn lemma_parent_is(t: Times, i: int, top: int, k: int)
    requires
        0 <= top < i,
        top < k <= i,
        top == 0 || end_at(t, top) > t[i].0,
        forall|j: int| top < j < i && j >= 1 ==> end_at(t, j) <= t[i].0,
    ensures
        open_before(t, i, k) == top,
    decreases k,
{
    if k > top + 1 {
        lemma_parent_is(t, i, top, k - 1);
    }
}

proof fn lemma_children_step(t: Times, j: int, m: int)
    requires
        m >= 1,
    ensures
        children_upto(t, j, m + 1) == (if parent_at(t, m) == j {
            children_upto(t, j, m).push(m as usize)
        } else {
            children_upto(t, j, m)
        }),
{
}

/// Parents, depths and children of spans ordered by start.
fn link_times(t: &Vec<(u64, u64)>) -> (r: (Vec<usize>, Vec<usize>, Vec<Vec<usize>>))
    requires
        t@.len() >= 1,
        start_ordered(t@),
    ensures
        r.0@.len() == t@.len(),
        r.1@.len() == t@.len(),
        r.2@.len() == t@.len(),
        forall|i: int| 1 <= i < t@.len() ==> r.0@[i] == parent_at(t@, i),
        forall|i: int| 1 <= i < t@.len() ==> r.1@[i] == depth_at(t@, i),
        forall|j: int| 0 <= j < t@.len() ==> (#[trigger] r.2@[j])@ == children_upto(t@, j, t@.len() as int),
{
    let n = t.len();
    let ghost tv = t@;
    let mut parents: Vec<usize> = Vec::new();
    let mut depths: Vec<usize> = Vec::new();
    let mut children: Vec<Vec<usize>> = Vec::new();
    let mut z: usize = 0;
    while z < n
        invariant
            z <= n,
            n == tv.len(),
            parents@.len() == z,
            depths@.len() == z,
            children@.len() == z,
            forall|j: int| 0 <= j < z ==> (#[trigger] children@[j])@ == Seq::<usize>::empty(),
        decreases n - z,
    {
        parents.push(0);
        depths.push(0);
        children.push(Vec::new());
        z = z + 1;
    }
    let mut stack: Vec<usize> = Vec::new();
    stack.push(0);
    let mut i: usize = 1;
    while i < n
        invariant
            tv == t@,
            n == tv.len(),
            start_ordered(tv),
            1 <= i <= n,
            parents@.len() == n,
            depths@.len() == n,
            children@.len() == n,
            stack@.len() >= 1,
            stack@.len() <= i,
            stack@[0] == 0,
            forall|k: int| 0 <= k < stack@.len() ==> stack@[k] < i,
            forall|a: int, b: int| 0 <= a < b < stack@.len() ==> stack@[a] < stack@[b],
            i >= 2 ==> stack@.last() == i - 1,
            i == 1 ==> stack@.len() == 1,
            forall|k: int| 0 <= k < stack@.len() ==> depth_at(tv, #[trigger] stack@[k] as int) == k,
            forall|k: int, j: int|
                #![trigger stack@[k], end_at(tv, j)]
                0 <= k < stack@.len() && stack@[k] < j && j >= 1 && (if k + 1 < stack@.len() {
                    j < stack@[k + 1]
                } else {
                    j < i
                }) ==> end_at(tv, j) <= tv[i - 1].0,
            forall|j: int| 1 <= j < i ==> parents@[j] == parent_at(tv, j),
            forall|j: int| 1 <= j < i ==> depths@[j] == depth_at(tv, j),
            forall|j: int| 0 <= j < n ==> (#[trigger] children@[j])@ == children_upto(tv, j, i as int),
        decreases n - i,
    {
        let cur = t[i].0;
        proof {
            if i >= 2 {
                assert(tv[i - 1].0 <= tv[i as int].0);
            }
        }
        // Close the spans that end before span `i` starts.
        loop
            invariant
                tv == t@,
                n == tv.len(),
                1 <= i < n,
                cur == tv[i as int].0,
                stack@.len() >= 1,
                stack@.len() <= i,
                stack@[0] == 0,
                forall|k: int| 0 <= k < stack@.len() ==> stack@[k] < i,
                forall|a: int, b: int| 0 <= a < b < stack@.len() ==> stack@[a] < stack@[b],
                forall|k: int|
                    0 <= k < stack@.len() ==> depth_at(tv, #[trigger] stack@[k] as int) == k,
                forall|k: int, j: int|
                    #![trigger stack@[k], end_at(tv, j)]
                    0 <= k < stack@.len() && stack@[k] < j && j >= 1 && (if k + 1 < stack@.len() {
                        j < stack@[k + 1]
                    } else {
                        j < i
                    }) ==> end_at(tv, j) <= cur,
            ensures
                stack@.len() >= 1,
                stack@.len() <= i,
                stack@[0] == 0,
                forall|k: int| 0 <= k < stack@.len() ==> stack@[k] < i,
                forall|a: int, b: int| 0 <= a < b < stack@.len() ==> stack@[a] < stack@[b],
                forall|k: int|
                    0 <= k < stack@.len() ==> depth_at(tv, #[trigger] stack@[k] as int) == k,
                forall|k: int, j: int|
                    #![trigger stack@[k], end_at(tv, j)]
                    0 <= k < stack@.len() && stack@[k] < j && j >= 1 && (if k + 1 < stack@.len() {
                        j < stack@[k + 1]
                    } else {
                        j < i
                    }) ==> end_at(tv, j) <= cur,
                stack@.len() == 1 || end_at(tv, stack@.last() as int) > cur,
            decreases stack@.len(),
        {
            if stack.len() <= 1 {
                break;
            }
            let top = stack[stack.len() - 1];
            let top_end = t[top].0 as u128 + t[top].1 as u128;
            if top_end > cur as u128 {
                break;
            }
            let ghost old_stack = stack@;
            stack.pop();
            proof {
                let len = old_stack.len();
                assert forall|k: int, j: int|
                    #![trigger stack@[k], end_at(tv, j)]
                    0 <= k < stack@.len() && stack@[k] < j && j >= 1 && (if k + 1 < stack@.len() {
                        j < stack@[k + 1]
                    } else {
                        j < i
                    }) implies end_at(tv, j) <= cur by {
                    assert(stack@[k] == old_stack[k]);
                    if k + 1 < stack@.len() {
                        assert(stack@[k + 1] == old_stack[k + 1]);
                    } else {
                        // the last gap now also covers the popped span and the gap above it
                        if j < old_stack[len - 1] {
                            assert(old_stack[k] < j && j < old_stack[k + 1]);
                        } else if j == old_stack[len - 1] {
                        } else {
                            assert(old_stack[len - 1] < j && j < i);
                        }
                    }
                }
            }
        }
        let top = stack[stack.len() - 1];
        proof {
            let len = stack@.len();
            assert forall|j: int| top < j < i && j >= 1 implies end_at(tv, j) <= tv[i as int].0 by {
                assert(stack@[len - 1] < j);
            }
            if len == 1 {
                assert(top == 0);
            }
            lemma_parent_is(tv, i as int, top as int, i as int);
            lemma_open_before(tv, i as int, i as int);
            assert(depth_at(tv, i as int) == depth_at(tv, top as int) + 1);
            assert(depth_at(tv, top as int) == len - 1);
        }
        parents.set(i, top);
        depths.set(i, stack.len());
        let ghost old_children = children@;
        let mut ch = children[top].clone();
        ch.push(i);
        children.set(top, ch);
        proof {
            assert forall|j: int| 0 <= j < n implies (#[trigger] children@[j])@ == children_upto(
                tv,
                j,
                i + 1,
            ) by {
                lemma_children_step(tv, j, i as int);
                if j == top {
                    assert(old_children[j]@ == children_upto(tv, j, i as int));
                } else {
                    assert(children@[j] == old_children[j]);
                }
            }
        }
        let ghost old_stack = stack@;
        stack.push(i);
        proof {
            assert forall|k: int, j: int|
                #![trigger stack@[k], end_at(tv, j)]
                0 <= k < stack@.len() && stack@[k] < j && j >= 1 && (if k + 1 < stack@.len() {
                    j < stack@[k + 1]
                } else {
                    j < i + 1
                }) implies end_at(tv, j) <= tv[i as int].0 by {
                if k + 1 < old_stack.len() {
                    assert(stack@[k] == old_stack[k]);
                    assert(stack@[k + 1] == old_stack[k + 1]);
                } else if k + 1 == old_stack.len() {
                    assert(stack@[k] == old_stack[k]);
                    assert(stack@[k + 1] == i);
                }
            }
            assert forall|k: int| 0 <= k < stack@.len() implies depth_at(
                tv,
                #[trigger] stack@[k] as int,
            ) == k by {
                if k < old_stack.len() {
                    assert(stack@[k] == old_stack[k]);
                }
            }
        }
        i = i + 1;
    }
    (parents, depths, children)
}

/// A permutation as integers.
pub open spec fn perm_ints(p: Seq<usize>) -> Seq<int> {
    Seq::new(p.len(), |k: int| p[k] as int)
}

/// The order of the spans after the unit: by start, longest first among
/// equal starts.
fn start_order(spans: &Vec<Span>) -> (perm: Vec<usize>)
    requires
        spans@.len() >= 1,
    ensures
        is_permutation(perm_ints(perm@), spans@.len() as int),
        perm@[0] == 0,
        start_ordered(permuted_times(spans@, perm_ints(perm@))),
{
    let n = spans.len();
    let mut keys: Vec<SortKey> = Vec::new();
    let mut i: usize = 1;
    while i < n
        invariant
            1 <= i <= n,
            n == spans@.len(),
            keys@.len() == i - 1,
            forall|k: int|
                0 <= k < keys@.len() ==> #[trigger] keys@[k] == (
                    spans@[k + 1].start_time as u128,
                    (UNBOUNDED - spans@[k + 1].duration) as u128,
                    (k + 1) as usize,
                ),
        decreases n - i,
    {
        keys.push((spans[i].start_time as u128, (UNBOUNDED - spans[i].duration) as u128, i));
        i = i + 1;
    }
    let ghost kv = keys@;
    let sorted = sort_keys(keys);
    proof {
        assert(distinct_tags(kv));
        lemma_sort_keeps_tags(kv, sorted@);
    }
    let mut perm: Vec<usize> = Vec::new();
    perm.push(0);
    let mut k: usize = 0;
    while k < sorted.len()
        invariant
            k <= sorted@.len(),
            sorted@.len() == n - 1,
            perm@.len() == k + 1,
            perm@[0] == 0,
            forall|m: int| 0 <= m < k ==> perm@[m + 1] == sorted@[m].2,
        decreases sorted@.len() - k,
    {
        perm.push(sorted[k].2);
        k = k + 1;
    }
    proof {
        let pi = perm_ints(perm@);
        let sv = sorted@;
        // each sorted key is the key of the span its tag names
        assert forall|m: int| 0 <= m < sv.len() implies 1 <= #[trigger] sv[m].2 < n && sv[m] == (
            spans@[sv[m].2 as int].start_time as u128,
            (UNBOUNDED - spans@[sv[m].2 as int].duration) as u128,
            sv[m].2,
        ) by {
            assert(kv.contains(sv[m]));
            let q = choose|q: int| 0 <= q < kv.len() && kv[q] == sv[m];
            assert(kv[q] == sv[m]);
        }
        assert forall|a: int, b: int| 0 <= a < n && 0 <= b < n && a != b implies pi[a] != pi[b] by {
            if a > 0 && b > 0 {
                assert(sv[a - 1].2 != sv[b - 1].2);
            } else if a > 0 {
                assert(1 <= sv[a - 1].2);
            } else if b > 0 {
                assert(1 <= sv[b - 1].2);
            }
        }
        assert forall|m: int| 0 <= m < n implies 0 <= #[trigger] pi[m] < n by {
            if m > 0 {
                assert(1 <= sv[m - 1].2 < n);
            }
        }
        let tt = permuted_times(spans@, pi);
        assert forall|a: int, b: int| 1 <= a < b < tt.len() implies tt[a].0 < tt[b].0 || (tt[a].0
            == tt[b].0 && tt[a].1 >= tt[b].1) by {
            assert(key_le(sv[a - 1], sv[b - 1]));
            assert(sv[a - 1].2 != sv[b - 1].2);
            assert(sv[a - 1].2 == pi[a]);
            assert(sv[b - 1].2 == pi[b]);
        }
    }
    perm
}

proof fn lemma_unit_children_end(t: Times, m: int)
    requires
        m >= 2,
        t.len() >= m,
    ensures
        unit_children_end(t, m) >= end_at(t, 1),
    decreases m,
{
    if m > 2 {
        lemma_unit_children_end(t, m - 1);
    }
}

proof fn lemma_unit_children_end_bounded(t: Times, m: int)
    requires
        m <= t.len(),
        !unit_child_unbounded(t, m),
        forall|i: int| 0 <= i < t.len() ==> t[i].0 <= TIME_LIMIT && (t[i].1 <= TIME_LIMIT || t[i].1 == UNBOUNDED),
    ensures
        unit_children_end(t, m) <= 2 * TIME_LIMIT,
    decreases m,
{
    if m > 1 {
        lemma_unit_children_end_bounded(t, m - 1);
    }
}

/// The unit's bounds after linking (see [`bounded_unit`]).
fn unit_bounds(t: &Vec<(u64, u64)>, parents: &Vec<usize>) -> (r: (u64, u64))
    requires
        t@.len() >= 1,
        parents@.len() == t@.len(),
        forall|i: int| 1 <= i < t@.len() ==> parents@[i] == parent_at(t@, i),
        forall|i: int|
            0 <= i < t@.len() ==> t@[i].0 <= TIME_LIMIT && (t@[i].1 <= TIME_LIMIT || t@[i].1
                == UNBOUNDED),
    ensures
        r.0 == bounded_unit(t@).0,
        r.1 == bounded_unit(t@).1,
{
    let n = t.len();
    if n <= 1 || t[0].1 != UNBOUNDED {
        return t[0];
    }
    let mut unbounded = false;
    let mut found = false;
    let mut max_end: u128 = 0;
    let mut i: usize = 1;
    while i < n
        invariant
            1 <= i <= n,
            n == t@.len(),
            parents@.len() == n,
            forall|j: int| 1 <= j < t@.len() ==> parents@[j] == parent_at(t@, j),
            unbounded == unit_child_unbounded(t@, i as int),
            found ==> max_end == unit_children_end(t@, i as int),
            !found ==> unit_children_end(t@, i as int) == -1,
        decreases n - i,
    {
        if parents[i] == 0 {
            if t[i].1 == UNBOUNDED {
                unbounded = true;
            }
            let e = t[i].0 as u128 + t[i].1 as u128;
            if !found || e > max_end {
                max_end = e;
            }
            found = true;
        }
        i = i + 1;
    }
    if unbounded {
        return t[0];
    }
    proof {
        lemma_unit_children_end(t@, n as int);
        lemma_unit_children_end_bounded(t@, n as int);
        assert(parent_at(t@, 1) == 0);
    }
    let first = t[1].0;
    (first, (max_end - first as u128) as u64)
}

fn clone_opt(o: &Option<String>) -> (r: Option<String>)
    ensures
        opt_chars(r) == opt_chars(*o),
{
    match o {
        Some(s) => Some(s.clone()),
        None => None,
    }
}

/// Orders the spans after the unit by start time and links them into a
/// tree under the unit: each span's parent is the latest earlier span still
/// open when it starts, or the unit; the depth is one below the parent; the
/// children lists are in order. A unit of unknown duration with children is
/// then bounded by them, and the spans after the unit are shifted by the
/// unit's start.
pub fn link_spans(spans: &mut Vec<Span>)
    requires
        old(spans)@.len() >= 1,
        times_bounded(old(spans)@),
    ensures
        exists|perm: Seq<int>| linked_from(old(spans)@, perm, final(spans)@),
{
    let n = spans.len();
    let perm = start_order(spans);
    let ghost pi = perm_ints(perm@);
    let mut t: Vec<(u64, u64)> = Vec::new();
    let mut k: usize = 0;
    while k < n
        invariant
            k <= n,
            n == spans@.len(),
            spans@ == old(spans)@,
            pi == perm_ints(perm@),
            is_permutation(pi, n as int),
            t@ == permuted_times(spans@, pi).take(k as int),
        decreases n - k,
    {
        let p = perm[k];
        proof {
            assert(0 <= pi[k as int] < n);
        }
        t.push((spans[p].start_time, spans[p].duration));
        proof {
            assert(t@ =~= permuted_times(spans@, pi).take(k + 1));
        }
        k = k + 1;
    }
    proof {
        assert(t@ =~= permuted_times(spans@, pi));
    }
    let (parents, depths, children) = link_times(&t);
    proof {
        assert forall|i: int| 0 <= i < t@.len() implies t@[i].0 <= TIME_LIMIT && (t@[i].1 <= TIME_LIMIT
            || t@[i].1 == UNBOUNDED) by {
            assert(0 <= pi[i] < n);
            assert(spans@[pi[i]] == old(spans)@[pi[i]]);
        }
    }
    let (ustart, udur) = unit_bounds(&t, &parents);
    let mut out: Vec<Span> = Vec::new();
    let mut unit_children = spans[0].children_indices.clone();
    let mut m: usize = 0;
    while m < children[0].len()
        invariant
            children@.len() == n,
            n >= 1,
            n == spans@.len(),
            m <= children@[0]@.len(),
            unit_children@ == spans@[0].children_indices@ + children@[0]@.take(m as int),
        decreases children@[0]@.len() - m,
    {
        unit_children.push(children[0][m]);
        m = m + 1;
        proof {
            assert(children@[0]@.take(m as int) =~= children@[0]@.take(m - 1).push(
                children@[0]@[m - 1],
            ));
        }
    }
    proof {
        assert(children@[0]@.take(children@[0]@.len() as int) =~= children@[0]@);
    }
    out.push(
        Span {
            type_: spans[0].type_,
            identifier: spans[0].identifier.clone(),
            label: spans[0].label.clone(),
            sublabel: clone_opt(&spans[0].sublabel),
            start_time: ustart,
            duration: udur,
            parent_index: spans[0].parent_index,
            children_indices: unit_children,
            root_span_index: spans[0].root_span_index,
            depth: spans[0].depth,
        },
    );
    let mut i: usize = 1;
    while i < n
        invariant
            1 <= i <= n,
            n == spans@.len(),
            spans@ == old(spans)@,
            pi == perm_ints(perm@),
            is_permutation(pi, n as int),
            pi[0] == 0,
            t@ == permuted_times(spans@, pi),
            parents@.len() == n,
            depths@.len() == n,
            children@.len() == n,
            forall|j: int| 1 <= j < n ==> parents@[j] == parent_at(t@, j),
            forall|j: int| 1 <= j < n ==> depths@[j] == depth_at(t@, j),
            forall|j: int| 0 <= j < n ==> (#[trigger] children@[j])@ == children_upto(t@, j, n as int),
            ustart == bounded_unit(t@).0,
            udur == bounded_unit(t@).1,
            forall|j: int| 0 <= j < n ==> t@[j].0 <= TIME_LIMIT,
            ustart <= TIME_LIMIT,
            out@.len() == i,
            forall|j: int| 0 <= j < i ==> same_names(#[trigger] out@[j], spans@[pi[j]]),
            out@[0].start_time == ustart,
            out@[0].duration == udur,
            out@[0].parent_index == spans@[0].parent_index,
            out@[0].depth == spans@[0].depth,
            out@[0].children_indices@ == spans@[0].children_indices@ + children_upto(
                t@,
                0,
                n as int,
            ),
            forall|j: int|
                1 <= j < i ==> {
                    &&& (#[trigger] out@[j]).start_time == t@[j].0 + ustart
                    &&& out@[j].duration == t@[j].1
                    &&& out@[j].parent_index == Some(parent_at(t@, j) as usize)
                    &&& out@[j].depth == depth_at(t@, j)
                    &&& out@[j].children_indices@ == children_upto(t@, j, n as int)
                },
        decreases n - i,
    {
        let p = perm[i];
        proof {
            assert(0 <= pi[i as int] < n);
        }
        let sp = &spans[p];
        let span = Span {
            type_: sp.type_,
            identifier: sp.identifier.clone(),
            label: sp.label.clone(),
            sublabel: clone_opt(&sp.sublabel),
            start_time: t[i].0 + ustart,
            duration: t[i].1,
            parent_index: Some(parents[i]),
            children_indices: children[i].clone(),
            root_span_index: sp.root_span_index,
            depth: depths[i],
        };
        out.push(span);
        i = i + 1;
    }
    proof {
        assert(bounded_unit(t@).0 == ustart);
    }
    *spans = out;
    proof {
        assert(linked_from(old(spans)@, pi, spans@));
    }
}

// ---------------------------------------------------------------------------
// Spans from trace events
// ---------------------------------------------------------------------------

/// The kind and sublabel of the span that a complete event named `name`
/// gives, or `None` for events that give no span.
pub open spec fn event_kind(name: Seq<char>) -> Option<(SpanType, Option<Seq<char>>)> {
    if name == "Source"@ {
        Some((SpanType::Source, Some("Inclusion"@)))
    } else if name == "ParseClass"@ {
        Some((SpanType::Class, Some("Parsing"@)))
    } else if name == "ParseTemplate"@ {
        Some((SpanType::Template, Some("Parsing"@)))
    } else if name == "InstantiateClass"@ {
        Some((SpanType::Class, Some("Instantiation"@)))
    } else if name == "InstantiateTemplate"@ {
        Some((SpanType::Template, Some("Instantiation"@)))
    } else if name == "Frontend"@ || name == "Backend"@ || name == "PerformPendingInstantiations"@
        || name == "CodeGen Function"@ || name == "DebugType"@ {
        Some((SpanType::Task, None))
    } else {
        None
    }
}

/// The name of an event (empty when absent).
pub open spec fn event_name(e: TraceEvent) -> Seq<char> {
    match e.name {
        Some(n) => n@,
        None => Seq::empty(),
    }
}

/// The detail of an event (empty when absent).
pub open spec fn event_detail(e: TraceEvent) -> Seq<char> {
    match e.args {
        Some(a) => match a.detail {
            Some(d) => d@,
            None => Seq::empty(),
        },
        None => Seq::empty(),
    }
}

/// The event gives a span: it is a complete event (`ph` is `X`) of a kind
/// the viewer shows.
pub open spec fn event_gives_span(e: TraceEvent) -> bool {
    e.ph@ == "X"@ && event_kind(event_name(e)) is Some
}

/// `s` is the unlinked span of the event `e`: its identifier is the event's
/// detail, its label the detail's short label (the event's name for a
/// task), at the event's time.
pub open spec fn span_of_event(s: Span, e: TraceEvent, build_dir: Seq<char>) -> bool {
    let (ty, sub) = event_kind(event_name(e)).unwrap();
    &&& s.type_ == ty
    &&& s.identifier@ == event_detail(e)
    &&& s.label@ == (if ty == SpanType::Task {
        event_name(e)
    } else {
        identifier_label(event_detail(e), build_dir)
    })
    &&& opt_chars(s.sublabel) == sub
    &&& s.start_time == e.ts
    &&& s.duration == (match e.dur {
        Some(d) => d,
        None => 0,
    })
    &&& s.parent_index is None
    &&& s.children_indices@ == Seq::<usize>::empty()
    &&& s.root_span_index == 0
    &&& s.depth == 0
}

/// Whether two strings are equal.
pub fn str_eq(a: &str, b: &str) -> (r: bool)
    ensures
        r == (a@ == b@),
{
    let x = chars_of(a);
    let y = chars_of(b);
    crate::paths::chars_eq(&x, &y)
}

/// The span of a trace event, if it gives one.
pub fn span_from_event(event: &TraceEvent, build_dir: &str) -> (r: Option<Span>)
    ensures
        event_gives_span(*event) <==> r is Some,
        r matches Some(s) ==> span_of_event(s, *event, build_dir@),
{
    if !str_eq(event.ph.as_str(), "X") {
        return None;
    }
    let name = match &event.name {
        Some(n) => copy_str(n.as_str()),
        None => String::new(),
    };
    let detail = match &event.args {
        Some(a) => match &a.detail {
            Some(d) => copy_str(d.as_str()),
            None => String::new(),
        },
        None => String::new(),
    };
    proof {
        assert(name@ == event_name(*event));
        assert(detail@ == event_detail(*event));
    }
    let cleaned = clean_identifier(detail.as_str(), build_dir);
    let nm = name.as_str();
    let (type_, label, sublabel): (SpanType, String, Option<String>) = if str_eq(nm, "Source") {
        (SpanType::Source, cleaned, Some(copy_str("Inclusion")))
    } else if str_eq(nm, "ParseClass") {
        (SpanType::Class, cleaned, Some(copy_str("Parsing")))
    } else if str_eq(nm, "ParseTemplate") {
        (SpanType::Template, cleaned, Some(copy_str("Parsing")))
    } else if str_eq(nm, "InstantiateClass") {
        (SpanType::Class, cleaned, Some(copy_str("Instantiation")))
    } else if str_eq(nm, "InstantiateTemplate") {
        (SpanType::Template, cleaned, Some(copy_str("Instantiation")))
    } else if str_eq(nm, "Frontend") || str_eq(nm, "Backend") || str_eq(
        nm,
        "PerformPendingInstantiations",
    ) || str_eq(nm, "CodeGen Function") || str_eq(nm, "DebugType") {
        (SpanType::Task, copy_str(nm), None)
    } else {
        return None;
    };
    let duration = match event.dur {
        Some(d) => d,
        None => 0,
    };
    Some(
        Span {
            type_,
            identifier: detail,
            label,
            sublabel,
            start_time: event.ts,
            duration,
            parent_index: None,
            children_indices: Vec::new(),
            root_span_index: 0,
            depth: 0,
        },
    )
}

/// Indices of the events among the first `m` that give spans.
pub open spec fn span_events(events: Seq<TraceEvent>, m: int) -> Seq<int>
    decreases m,
{
    if m <= 0 {
        Seq::empty()
    } else if event_gives_span(events[m - 1]) {
        span_events(events, m - 1).push(m - 1)
    } else {
        span_events(events, m - 1)
    }
}

/// `spans` is `unit` followed by the spans of the events of `data`, in the
/// order of the events.
pub open spec fn spans_of_trace(spans: Seq<Span>, unit: Seq<Span>, data: TraceData, build_dir: Seq<char>) -> bool {
    let ev = data.trace_events@;
    let idx = span_events(ev, ev.len() as int);
    &&& spans.len() == unit.len() + idx.len()
    &&& spans.take(unit.len() as int) == unit
    &&& forall|k: int|
        0 <= k < idx.len() ==> span_of_event(#[trigger] spans[unit.len() + k], ev[idx[k]], build_dir)
}

/// Trace times no larger than [`TIME_LIMIT`].
pub open spec fn trace_times_bounded(data: TraceData) -> bool {
    forall|k: int|
        0 <= k < data.trace_events@.len() ==> (#[trigger] data.trace_events@[k]).ts <= TIME_LIMIT
            && (match data.trace_events@[k].dur {
            Some(d) => d <= TIME_LIMIT,
            None => true,
        })
}

/// Appends the spans of the events of `data` to `spans` (whose first span
/// is the unit) and links them (see [`link_spans`]).
pub fn add_spans(spans: &mut Vec<Span>, data: &TraceData, build_dir: &str)
    requires
        old(spans)@.len() >= 1,
        times_bounded(old(spans)@),
        trace_times_bounded(*data),
    ensures
        exists|mid: Seq<Span>, perm: Seq<int>|
            spans_of_trace(mid, old(spans)@, *data, build_dir@) && linked_from(mid, perm, final(spans)@),
{
    let ghost ev = data.trace_events@;
    let ghost unit = spans@;
    let mut k: usize = 0;
    while k < data.trace_events.len()
        invariant
            ev == data.trace_events@,
            k <= ev.len(),
            trace_times_bounded(*data),
            spans@.len() == unit.len() + span_events(ev, k as int).len(),
            spans@.take(unit.len() as int) == unit,
            unit.len() >= 1,
            times_bounded(unit),
            times_bounded(spans@),
            forall|m: int|
                0 <= m < span_events(ev, k as int).len() ==> span_of_event(
                    #[trigger] spans@[unit.len() + m],
                    ev[span_events(ev, k as int)[m]],
                    build_dir@,
                ),
        decreases ev.len() - k,
    {
        let ghost old_spans = spans@;
        match span_from_event(&data.trace_events[k], build_dir) {
            Some(s) => {
                spans.push(s);
                proof {
                    assert(spans@.take(unit.len() as int) =~= old_spans.take(unit.len() as int));
                    assert(span_events(ev, k + 1) == span_events(ev, k as int).push(k as int));
                    assert forall|m: int|
                        0 <= m < span_events(ev, k + 1).len() implies span_of_event(
                        #[trigger] spans@[unit.len() + m],
                        ev[span_events(ev, k + 1)[m]],
                        build_dir@,
                    ) by {
                        if m < span_events(ev, k as int).len() {
                            assert(spans@[unit.len() + m] == old_spans[unit.len() + m]);
                        }
                    }
                    assert(ev[k as int].ts <= TIME_LIMIT);
                    assert forall|i: int| 0 <= i < spans@.len() implies (#[trigger] spans@[i]).start_time
                        <= TIME_LIMIT && (spans@[i].duration <= TIME_LIMIT || spans@[i].duration
                        == UNBOUNDED) by {
                        if i < old_spans.len() {
                            assert(spans@[i] == old_spans[i]);
                        }
                    }
                }
            },
            None => {
                proof {
                    assert(span_events(ev, k + 1) == span_events(ev, k as int));
                }
            },
        }
        k = k + 1;
    }
    let ghost mid = spans@;
    link_spans(spans);
    proof {
        assert(spans_of_trace(mid, unit, *data, build_dir@));
    }
}

} // verus!
