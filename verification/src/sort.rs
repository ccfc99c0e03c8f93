//! A verified merge sort over integer keys.
//!
//! Every ordering step of the library sorts triples `(primary, secondary, tag)`
//! lexicographically; the `tag` is usually the index of the item being ordered,
//! which makes the order total and the result unique.
use vstd::prelude::*;
use vstd::seq_lib::*;

verus! {

broadcast use vstd::seq_lib::group_seq_properties, vstd::seq_lib::lemma_multiset_commutative;

/// A sort key: compared by its first field, then its second, then its third.
pub type SortKey = (u128, u128, usize);

/// Lexicographic `<=` on sort keys.
pub open spec fn key_le(a: SortKey, b: SortKey) -> bool {
    a.0 < b.0 || (a.0 == b.0 && (a.1 < b.1 || (a.1 == b.1 && a.2 <= b.2)))
}

/// `s` is in non-decreasing key order.
pub open spec fn keys_sorted(s: Seq<SortKey>) -> bool {
    forall|i: int, j: int| 0 <= i < j < s.len() ==> key_le(#[trigger] s[i], #[trigger] s[j])
}

/// The tags of `s`, in order.
pub open spec fn tags(s: Seq<SortKey>) -> Seq<usize> {
    s.map_values(|k: SortKey| k.2)
}

/// Lexicographic comparison of two keys.
pub fn key_leq(a: &SortKey, b: &SortKey) -> (r: bool)
    ensures
        r == key_le(*a, *b),
{
    if a.0 != b.0 {
        a.0 < b.0
    } else if a.1 != b.1 {
        a.1 < b.1
    } else {
        a.2 <= b.2
    }
}

proof fn lemma_key_le_total(a: SortKey, b: SortKey)
    ensures
        key_le(a, b) || key_le(b, a),
{
}

proof fn lemma_key_le_trans(a: SortKey, b: SortKey, c: SortKey)
    requires
        key_le(a, b),
        key_le(b, c),
    ensures
        key_le(a, c),
{
}

fn merge(l: Vec<SortKey>, r: Vec<SortKey>) -> (res: Vec<SortKey>)
    requires
        keys_sorted(l@),
        keys_sorted(r@),
    ensures
        keys_sorted(res@),
        res@.to_multiset() == l@.to_multiset().add(r@.to_multiset()),
        res@.len() == l@.len() + r@.len(),
{
    let mut res: Vec<SortKey> = Vec::new();
    let mut i: usize = 0;
    let mut j: usize = 0;
    while i < l.len() || j < r.len()
        invariant
            i <= l@.len(),
            j <= r@.len(),
            keys_sorted(l@),
            keys_sorted(r@),
            keys_sorted(res@),
            res@.len() == i + j,
            res@.to_multiset() == l@.take(i as int).to_multiset().add(
                r@.take(j as int).to_multiset(),
            ),
            res@.len() > 0 && i < l@.len() ==> key_le(res@.last(), l@[i as int]),
            res@.len() > 0 && j < r@.len() ==> key_le(res@.last(), r@[j as int]),
        decreases l@.len() + r@.len() - i - j,
    {
        let take_left = if i >= l.len() {
            false
        } else if j >= r.len() {
            true
        } else {
            key_leq(&l[i], &r[j])
        };
        let ghost old_res = res@;
        if take_left {
            let x = l[i];
            proof {
                if j < r@.len() {
                    lemma_key_le_total(l@[i as int], r@[j as int]);
                }
                assert(l@.take(i as int + 1) =~= l@.take(i as int).push(x));
                if i + 1 < l@.len() {
                    assert(key_le(l@[i as int], l@[i + 1]));
                }
            }
            res.push(x);
            i = i + 1;
        } else {
            let x = r[j];
            proof {
                if i < l@.len() {
                    lemma_key_le_total(l@[i as int], r@[j as int]);
                }
                assert(r@.take(j as int + 1) =~= r@.take(j as int).push(x));
                if j + 1 < r@.len() {
                    assert(key_le(r@[j as int], r@[j + 1]));
                }
            }
            res.push(x);
            j = j + 1;
        }
        proof {
            assert forall|a: int, b: int| 0 <= a < b < res@.len() implies key_le(
                #[trigger] res@[a],
                #[trigger] res@[b],
            ) by {
                if b == res@.len() - 1 && a < b {
                    if a < old_res.len() - 1 {
                        lemma_key_le_trans(res@[a], old_res.last(), res@[b]);
                    }
                }
            }
        }
    }
    proof {
        assert(l@.take(l@.len() as int) =~= l@);
        assert(r@.take(r@.len() as int) =~= r@);
    }
    res
}

/// Sorts `v` into non-decreasing key order.
///
/// The result holds exactly the keys of `v`, each as often as in `v`.
pub fn sort_keys(v: Vec<SortKey>) -> (res: Vec<SortKey>)
    ensures
        keys_sorted(res@),
        res@.to_multiset() == v@.to_multiset(),
        res@.len() == v@.len(),
    decreases v@.len(),
{
    if v.len() <= 1 {
        return v;
    }
    let ghost all = v@;
    let mut left = v;
    let mid = left.len() / 2;
    let right = left.split_off(mid);
    proof {
        assert(all =~= left@ + right@);
    }
    let sl = sort_keys(left);
    let sr = sort_keys(right);
    merge(sl, sr)
}

/// Two sorted sequences with the same elements are equal: the order that
/// `sort_keys` produces is unique.
pub proof fn lemma_sorted_unique(a: Seq<SortKey>, b: Seq<SortKey>)
    requires
        keys_sorted(a),
        keys_sorted(b),
        a.to_multiset() == b.to_multiset(),
    ensures
        a == b,
    decreases a.len(),
{
    a.to_multiset_ensures();
    b.to_multiset_ensures();
    if a.len() == 0 {
        assert(b.len() == 0);
        assert(a =~= b);
    } else {
        // The smallest element of both sequences is their first one.
        let x = a[0];
        let y = b[0];
        assert(a.contains(x));
        assert(b.to_multiset().count(x) > 0);
        assert(b.contains(x));
        let jb = choose|k: int| 0 <= k < b.len() && b[k] == x;
        assert(a.to_multiset().count(y) > 0);
        assert(a.contains(y));
        let ja = choose|k: int| 0 <= k < a.len() && a[k] == y;
        if ja > 0 {
            assert(key_le(a[0], a[ja]));
        }
        if jb > 0 {
            assert(key_le(b[0], b[jb]));
        }
        assert(key_le(x, y) && key_le(y, x));
        assert(x == y);
        assert(a.remove(0) =~= a.drop_first());
        assert(b.remove(0) =~= b.drop_first());
        assert(a.drop_first().to_multiset() == b.drop_first().to_multiset());
        lemma_sorted_unique(a.drop_first(), b.drop_first());
        assert(a =~= seq![x] + a.drop_first());
        assert(b =~= seq![y] + b.drop_first());
    }
}

/// The tags of `v` are pairwise distinct.
pub open spec fn distinct_tags(v: Seq<SortKey>) -> bool {
    forall|a: int, b: int| 0 <= a < v.len() && 0 <= b < v.len() && a != b ==> v[a].2 != v[b].2
}

/// Sorting keys with distinct tags keeps the tags distinct, and every key
/// of the result is one of the input.
pub proof fn lemma_sort_keeps_tags(v: Seq<SortKey>, r: Seq<SortKey>)
    requires
        r.to_multiset() == v.to_multiset(),
        distinct_tags(v),
    ensures
        distinct_tags(r),
        r.len() == v.len(),
        forall|a: int| 0 <= a < r.len() ==> v.contains(#[trigger] r[a]),
        forall|p: int| 0 <= p < v.len() ==> r.contains(#[trigger] v[p]),
{
    v.to_multiset_ensures();
    r.to_multiset_ensures();
    assert(v.no_duplicates()) by {
        assert forall|a: int, b: int| 0 <= a < v.len() && 0 <= b < v.len() && a != b implies v[a]
            != v[b] by {
            assert(v[a].2 != v[b].2);
        }
    }
    v.lemma_multiset_has_no_duplicates();
    r.lemma_multiset_has_no_duplicates_conv();
    assert forall|a: int| 0 <= a < r.len() implies v.contains(#[trigger] r[a]) by {
        assert(r.contains(r[a]));
        assert(r.to_multiset().count(r[a]) > 0);
    }
    assert forall|p: int| 0 <= p < v.len() implies r.contains(#[trigger] v[p]) by {
        assert(v.contains(v[p]));
        assert(v.to_multiset().count(v[p]) > 0);
    }
    assert forall|a: int, b: int| 0 <= a < r.len() && 0 <= b < r.len() && a != b implies r[a].2
        != r[b].2 by {
        assert(v.contains(r[a]));
        assert(v.contains(r[b]));
        let pa = choose|k: int| 0 <= k < v.len() && v[k] == r[a];
        let pb = choose|k: int| 0 <= k < v.len() && v[k] == r[b];
        if r[a].2 == r[b].2 {
            assert(pa == pb);
            assert(r[a] == r[b]);
        }
    }
}

/// `s` in key order: the unique sorted sequence with the same elements.
pub open spec fn sorted_of(s: Seq<SortKey>) -> Seq<SortKey> {
    choose|r: Seq<SortKey>| keys_sorted(r) && r.to_multiset() == s.to_multiset()
}

/// What `sort_keys` returns is `sorted_of` its input.
pub proof fn lemma_sorted_of(v: Seq<SortKey>, r: Seq<SortKey>)
    requires
        keys_sorted(r),
        r.to_multiset() == v.to_multiset(),
    ensures
        sorted_of(v) == r,
{
    let c = sorted_of(v);
    assert(keys_sorted(c) && c.to_multiset() == v.to_multiset());
    lemma_sorted_unique(c, r);
}

} // verus!
