//! Keyboard and mouse navigation in a flamegraph: which span is selected
//! next, which track is shown, where the view scrolls, and which spans
//! match a search.
use vstd::prelude::*;
use crate::sort::{SortKey, distinct_tags, lemma_sort_keeps_tags, lemma_sorted_of, sort_keys, sorted_of};
use crate::span::Span;
use crate::text::{contains_seq, contains_str, lowercase, to_lowercase};
use crate::view::{
    FollowingSpanDirection, HorizontalDirection, SpanView, following_sibling, get_following_span_index,
    parents_before, position_of, sat_add, vec_contains, vec_position, views_in_range,
};

verus! {

broadcast use vstd::seq_lib::group_seq_properties;

// ---------------------------------------------------------------------------
// Tracks
// ---------------------------------------------------------------------------

/// The summed (saturating) duration of the spans `roots`.
pub open spec fn roots_duration(spans: Seq<Span>, roots: Seq<usize>) -> u64
    decreases roots.len(),
{
    if roots.len() == 0 {
        0
    } else {
        sat_add(roots_duration(spans, roots.drop_last()), spans[roots.last() as int].duration)
    }
}

/// The order of the tracks: longest total duration first, then in their
/// given order.
pub open spec fn track_keys(spans: Seq<Span>, tracks: Seq<Vec<usize>>) -> Seq<SortKey> {
    Seq::new(
        tracks.len(),
        |t: int| ((u64::MAX - roots_duration(spans, tracks[t]@)) as u128, 0u128, t as usize),
    )
}

/// Every root of every track names a span.
pub open spec fn roots_in_range(spans: Seq<Span>, tracks: Seq<Vec<usize>>) -> bool {
    forall|t: int, k: int|
        0 <= t < tracks.len() && 0 <= k < tracks[t]@.len() ==> #[trigger] tracks[t]@[k] < spans.len()
}

/// The total duration of the roots of one track.
fn track_duration(spans: &[Span], roots: &Vec<usize>) -> (r: u64)
    requires
        forall|k: int| 0 <= k < roots@.len() ==> #[trigger] roots@[k] < spans@.len(),
    ensures
        r == roots_duration(spans@, roots@),
{
    let mut d: u64 = 0;
    let mut k: usize = 0;
    while k < roots.len()
        invariant
            k <= roots@.len(),
            forall|j: int| 0 <= j < roots@.len() ==> #[trigger] roots@[j] < spans@.len(),
            d == roots_duration(spans@, roots@.take(k as int)),
        decreases roots@.len() - k,
    {
        proof {
            assert(roots@.take(k + 1).drop_last() =~= roots@.take(k as int));
        }
        d = d.saturating_add(spans[roots[k]].duration);
        k = k + 1;
    }
    proof {
        assert(roots@.take(roots@.len() as int) =~= roots@);
    }
    d
}

/// The tracks ordered by total duration, longest first (ties keep their
/// order).
pub fn order_tracks(spans: &[Span], tracks: Vec<Vec<usize>>) -> (r: Vec<Vec<usize>>)
    requires
        roots_in_range(spans@, tracks@),
    ensures
        r@.len() == tracks@.len(),
        forall|k: int|
            0 <= k < r@.len() ==> #[trigger] r@[k]@ == tracks@[sorted_of(
                track_keys(spans@, tracks@),
            )[k].2 as int]@,
{
    let mut keys: Vec<SortKey> = Vec::new();
    let mut t: usize = 0;
    while t < tracks.len()
        invariant
            t <= tracks@.len(),
            roots_in_range(spans@, tracks@),
            keys@ =~= track_keys(spans@, tracks@).take(t as int),
        decreases tracks@.len() - t,
    {
        proof {
            assert forall|k: int| 0 <= k < tracks@[t as int]@.len() implies #[trigger] tracks@[t as int]@[k]
                < spans@.len() by {}
        }
        let d = track_duration(spans, &tracks[t]);
        keys.push(((u64::MAX - d) as u128, 0u128, t));
        t = t + 1;
    }
    let ghost kv = keys@;
    proof {
        assert(kv =~= track_keys(spans@, tracks@));
        assert(distinct_tags(kv));
    }
    let sorted = sort_keys(keys);
    proof {
        lemma_sorted_of(kv, sorted@);
        lemma_sort_keeps_tags(kv, sorted@);
        assert forall|a: int| 0 <= a < sorted@.len() implies (#[trigger] sorted@[a]).2 < tracks@.len() by {
            assert(kv.contains(sorted@[a]));
        }
    }
    let mut r: Vec<Vec<usize>> = Vec::new();
    let mut k: usize = 0;
    while k < sorted.len()
        invariant
            k <= sorted@.len(),
            sorted@.len() == tracks@.len(),
            sorted@ == sorted_of(track_keys(spans@, tracks@)),
            forall|a: int| 0 <= a < sorted@.len() ==> (#[trigger] sorted@[a]).2 < tracks@.len(),
            r@.len() == k,
            forall|j: int| 0 <= j < k ==> #[trigger] r@[j]@ == tracks@[sorted@[j].2 as int]@,
        decreases sorted@.len() - k,
    {
        r.push(tracks[sorted[k].2].clone());
        k = k + 1;
    }
    r
}

/// The track of root `x`: the last track that lists it.
pub open spec fn track_of_root(tracks: Seq<Vec<usize>>, x: int, t: int) -> Option<usize>
    decreases t,
{
    if t <= 0 {
        None
    } else if tracks[t - 1]@.contains(x as usize) {
        Some((t - 1) as usize)
    } else {
        track_of_root(tracks, x, t - 1)
    }
}

/// The last track that lists `x`.
fn last_track_with(tracks: &Vec<Vec<usize>>, x: usize) -> (r: Option<usize>)
    ensures
        r == track_of_root(tracks@, x as int, tracks@.len() as int),
{
    let mut t: usize = tracks.len();
    while t > 0
        invariant
            t <= tracks@.len(),
            track_of_root(tracks@, x as int, tracks@.len() as int) == track_of_root(
                tracks@,
                x as int,
                t as int,
            ),
        decreases t,
    {
        if vec_contains(&tracks[t - 1], x) {
            return Some(t - 1);
        }
        t = t - 1;
    }
    None
}

/// For every root `0 <= x < n`, the track that lists it.
pub fn root_track_map(tracks: &Vec<Vec<usize>>, n: usize) -> (r: Vec<Option<usize>>)
    ensures
        r@.len() == n,
        forall|x: int| 0 <= x < n ==> #[trigger] r@[x] == track_of_root(tracks@, x, tracks@.len() as int),
{
    let mut r: Vec<Option<usize>> = Vec::new();
    let mut x: usize = 0;
    while x < n
        invariant
            x <= n,
            r@.len() == x,
            forall|j: int| 0 <= j < x ==> #[trigger] r@[j] == track_of_root(tracks@, j, tracks@.len() as int),
        decreases n - x,
    {
        let found = last_track_with(tracks, x);
        r.push(found);
        x = x + 1;
    }
    r
}

/// The track of span `si`: that of its root.
pub open spec fn track_of(spans: Seq<Span>, root_tracks: Seq<Option<usize>>, si: int) -> Option<usize> {
    if 0 <= si < spans.len() {
        let root = spans[si].root_span_index as int;
        if root < root_tracks.len() {
            root_tracks[root]
        } else {
            None
        }
    } else {
        None
    }
}

/// The track of span `si`.
pub fn track_index_for_span(spans: &[Span], root_tracks: &Vec<Option<usize>>, si: usize) -> (r: Option<
    usize,
>)
    ensures
        r == track_of(spans@, root_tracks@, si as int),
{
    if si >= spans.len() {
        return None;
    }
    let root = spans[si].root_span_index;
    if root < root_tracks.len() {
        root_tracks[root]
    } else {
        None
    }
}

// ---------------------------------------------------------------------------
// Selection
// ---------------------------------------------------------------------------

/// The views of all tracks, one after the other.
pub open spec fn all_views(tracks: Seq<Vec<SpanView>>) -> Seq<SpanView>
    decreases tracks.len(),
{
    if tracks.len() == 0 {
        Seq::empty()
    } else {
        all_views(tracks.drop_last()) + tracks.last()@
    }
}

/// The span of the first displayed view of `views`.
pub open spec fn first_displayed(views: Seq<SpanView>) -> Option<usize>
    decreases views.len(),
{
    if views.len() == 0 {
        None
    } else if views[0].was_displayed {
        Some(views[0].span_index)
    } else {
        first_displayed(views.drop_first())
    }
}

/// The displayed roots among the first `m` views, each once, in order.
pub open spec fn displayed_roots(spans: Seq<Span>, views: Seq<SpanView>, m: int, displayed_only: bool) -> Seq<
    usize,
>
    decreases m,
{
    if m <= 0 {
        Seq::empty()
    } else {
        let prev = displayed_roots(spans, views, m - 1, displayed_only);
        let v = views[m - 1];
        if spans[v.span_index as int].parent_index is None && (v.was_displayed || !displayed_only)
            && !prev.contains(v.span_index) {
            prev.push(v.span_index)
        } else {
            prev
        }
    }
}

/// The first displayed child of `si` in view order.
pub open spec fn first_child_view(spans: Seq<Span>, views: Seq<SpanView>, si: usize) -> Option<usize>
    decreases views.len(),
{
    if views.len() == 0 {
        None
    } else if spans[views[0].span_index as int].parent_index == Some(si) && views[0].was_displayed {
        Some(views[0].span_index)
    } else {
        first_child_view(spans, views.drop_first(), si)
    }
}

/// Every view of every track names a span, and every known track exists.
pub open spec fn nav_ready(spans: Seq<Span>, tracks: Seq<Vec<SpanView>>, root_tracks: Seq<Option<usize>>) -> bool {
    &&& parents_before(spans)
    &&& forall|t: int| 0 <= t < tracks.len() ==> views_in_range(spans, #[trigger] tracks[t]@)
    &&& forall|x: int| 0 <= x < root_tracks.len() ==> (#[trigger] root_tracks[x] matches Some(t) ==> t
        < tracks.len())
}

/// The neighbour of root `si` among the displayed roots of its track.
pub open spec fn neighbour_root(roots: Seq<usize>, si: usize, dir: HorizontalDirection) -> Option<usize> {
    match position_of(roots, si) {
        None => None,
        Some(p) => {
            let q = match dir {
                HorizontalDirection::Next => p + 1,
                HorizontalDirection::Previous => p - 1,
            };
            if 0 <= q < roots.len() {
                Some(roots[q])
            } else {
                None
            }
        },
    }
}

/// The selection after a move from `selected` in `direction` (the same
/// selection when there is nowhere to go).
pub open spec fn moved_selection(
    spans: Seq<Span>,
    tracks: Seq<Vec<SpanView>>,
    root_tracks: Seq<Option<usize>>,
    selected: Option<usize>,
    direction: FollowingSpanDirection,
) -> Option<usize> {
    match selected {
        None => Some(
            match first_displayed(all_views(tracks)) {
                Some(x) => x,
                None => 0,
            },
        ),
        Some(si) => {
            let found = match direction {
                FollowingSpanDirection::Parent => spans[si as int].parent_index,
                FollowingSpanDirection::Child => match track_of(spans, root_tracks, si as int) {
                    None => None,
                    Some(t) => first_child_view(spans, tracks[t as int]@, si),
                },
                _ => {
                    let horiz = if direction == FollowingSpanDirection::Next {
                        HorizontalDirection::Next
                    } else {
                        HorizontalDirection::Previous
                    };
                    match track_of(spans, root_tracks, si as int) {
                        None => None,
                        Some(t) => {
                            let views = tracks[t as int]@;
                            if spans[si as int].parent_index is None {
                                neighbour_root(
                                    displayed_roots(spans, views, views.len() as int, true),
                                    si,
                                    horiz,
                                )
                            } else {
                                following_sibling(spans, views, si as int, horiz)
                            }
                        },
                    }
                },
            };
            match found {
                Some(x) => Some(x),
                None => selected,
            }
        },
    }
}

/// The views of all tracks, one after the other.
fn flatten_views(tracks: &Vec<Vec<SpanView>>) -> (r: Vec<SpanView>)
    ensures
        r@ == all_views(tracks@),
{
    let mut r: Vec<SpanView> = Vec::new();
    let mut t: usize = 0;
    while t < tracks.len()
        invariant
            t <= tracks@.len(),
            r@ == all_views(tracks@.take(t as int)),
        decreases tracks@.len() - t,
    {
        proof {
            assert(tracks@.take(t + 1).drop_last() =~= tracks@.take(t as int));
        }
        let views = &tracks[t];
        let ghost before = r@;
        let mut k: usize = 0;
        while k < views.len()
            invariant
                k <= views@.len(),
                r@ =~= before + views@.take(k as int),
            decreases views@.len() - k,
        {
            r.push(views[k]);
            k = k + 1;
        }
        proof {
            assert(views@.take(views@.len() as int) =~= views@);
        }
        t = t + 1;
    }
    proof {
        assert(tracks@.take(tracks@.len() as int) =~= tracks@);
    }
    r
}

/// The span of the first displayed view of all tracks.
fn first_displayed_of(tracks: &Vec<Vec<SpanView>>) -> (r: Option<usize>)
    ensures
        r == first_displayed(all_views(tracks@)),
{
    let views = flatten_views(tracks);
    let mut k: usize = 0;
    while k < views.len()
        invariant
            k <= views@.len(),
            views@ == all_views(tracks@),
            first_displayed(views@) == first_displayed(views@.skip(k as int)),
        decreases views@.len() - k,
    {
        proof {
            assert(views@.skip(k as int)[0] == views@[k as int]);
            assert(views@.skip(k as int).drop_first() =~= views@.skip(k + 1));
        }
        if views[k].was_displayed {
            return Some(views[k].span_index);
        }
        k = k + 1;
    }
    proof {
        assert(views@.skip(views@.len() as int).len() == 0);
    }
    None
}

/// The roots of `views`, each once, in order; only the displayed ones when
/// `displayed_only`.
fn roots_of(spans: &[Span], views: &Vec<SpanView>, displayed_only: bool) -> (r: Vec<usize>)
    requires
        views_in_range(spans@, views@),
    ensures
        r@ == displayed_roots(spans@, views@, views@.len() as int, displayed_only),
{
    let mut r: Vec<usize> = Vec::new();
    let mut k: usize = 0;
    while k < views.len()
        invariant
            k <= views@.len(),
            views_in_range(spans@, views@),
            r@ == displayed_roots(spans@, views@, k as int, displayed_only),
        decreases views@.len() - k,
    {
        let v = views[k];
        assert(v.span_index < spans@.len());
        if spans[v.span_index].parent_index.is_none() && (v.was_displayed || !displayed_only)
            && !vec_contains(&r, v.span_index) {
            r.push(v.span_index);
        }
        k = k + 1;
    }
    r
}

/// The first displayed child of `si` in `views`.
fn first_child_of(spans: &[Span], views: &Vec<SpanView>, si: usize) -> (r: Option<usize>)
    requires
        views_in_range(spans@, views@),
    ensures
        r == first_child_view(spans@, views@, si),
{
    let mut k: usize = 0;
    while k < views.len()
        invariant
            k <= views@.len(),
            views_in_range(spans@, views@),
            first_child_view(spans@, views@, si) == first_child_view(spans@, views@.skip(k as int), si),
        decreases views@.len() - k,
    {
        let v = views[k];
        assert(v.span_index < spans@.len());
        proof {
            assert(views@.skip(k as int)[0] == v);
            assert(views@.skip(k as int).drop_first() =~= views@.skip(k + 1));
        }
        if spans[v.span_index].parent_index == Some(si) && v.was_displayed {
            return Some(v.span_index);
        }
        k = k + 1;
    }
    proof {
        assert(views@.skip(views@.len() as int).len() == 0);
    }
    None
}

/// The selection after moving from `selected` in `direction`: with no
/// selection, the first displayed span; left and right, the displayed
/// neighbour among the roots of the track (for a root) or among the
/// siblings (see [`get_following_span_index`]); up, the parent; down, the
/// first displayed child. Where there is nowhere to go, the selection stays.
pub fn move_selection(
    spans: &[Span],
    tracks: &Vec<Vec<SpanView>>,
    root_tracks: &Vec<Option<usize>>,
    selected: Option<usize>,
    direction: FollowingSpanDirection,
) -> (r: Option<usize>)
    requires
        nav_ready(spans@, tracks@, root_tracks@),
        selected matches Some(si) ==> si < spans@.len(),
    ensures
        r == moved_selection(spans@, tracks@, root_tracks@, selected, direction),
{
    let si = match selected {
        Some(si) => si,
        None => {
            let first = match first_displayed_of(tracks) {
                Some(x) => x,
                None => 0,
            };
            return Some(first);
        },
    };
    let found: Option<usize> = match direction {
        FollowingSpanDirection::Parent => spans[si].parent_index,
        FollowingSpanDirection::Child => match track_index_for_span(spans, root_tracks, si) {
            None => None,
            Some(t) => {
                proof {
                    assert(root_tracks@[spans@[si as int].root_span_index as int] == Some(t));
                    assert(views_in_range(spans@, tracks@[t as int]@));
                }
                first_child_of(spans, &tracks[t], si)
            },
        },
        _ => {
            let horiz = if direction == FollowingSpanDirection::Next {
                HorizontalDirection::Next
            } else {
                HorizontalDirection::Previous
            };
            match track_index_for_span(spans, root_tracks, si) {
                None => None,
                Some(t) => {
                    proof {
                        assert(root_tracks@[spans@[si as int].root_span_index as int] == Some(t));
                        assert(views_in_range(spans@, tracks@[t as int]@));
                    }
                    let views = &tracks[t];
                    if spans[si].parent_index.is_none() {
                        let roots = roots_of(spans, views, true);
                        match vec_position(&roots, si) {
                            None => None,
                            Some(p) => {
                                proof {
                                    crate::view::lemma_position_of(roots@, si);
                                }
                                match horiz {
                                    HorizontalDirection::Next => if p < roots.len() - 1 {
                                        Some(roots[p + 1])
                                    } else {
                                        None
                                    },
                                    HorizontalDirection::Previous => if p >= 1 {
                                        Some(roots[p - 1])
                                    } else {
                                        None
                                    },
                                }
                            },
                        }
                    } else {
                        get_following_span_index(spans, views.as_slice(), si, horiz)
                    }
                },
            }
        },
    };
    match found {
        Some(x) => Some(x),
        None => selected,
    }
}

/// The track and the span selected after switching from the track of
/// `selected` (or the first track) to the next or previous one: its first
/// displayed root, or its first root. `None` when there is no track or the
/// new track has no root.
pub open spec fn switched_track(
    spans: Seq<Span>,
    tracks: Seq<Vec<SpanView>>,
    root_tracks: Seq<Option<usize>>,
    selected: Option<usize>,
    dir: HorizontalDirection,
) -> Option<(usize, usize)> {
    let n = tracks.len() as int;
    if n == 0 {
        None
    } else {
        let cur = match selected {
            Some(si) => match track_of(spans, root_tracks, si as int) {
                Some(t) => t as int,
                None => 0,
            },
            None => 0,
        };
        let nt = match dir {
            HorizontalDirection::Next => (cur + 1) % n,
            HorizontalDirection::Previous => (cur + n - 1) % n,
        };
        let views = tracks[nt]@;
        let shown = displayed_roots(spans, views, views.len() as int, true);
        let all = displayed_roots(spans, views, views.len() as int, false);
        if shown.len() > 0 {
            Some((shown[0], nt as usize))
        } else if all.len() > 0 {
            Some((all[0], nt as usize))
        } else {
            None
        }
    }
}

/// Switches to the next or previous track (see [`switched_track`]); the
/// caller selects the span and centres the track.
pub fn switch_track(
    spans: &[Span],
    tracks: &Vec<Vec<SpanView>>,
    root_tracks: &Vec<Option<usize>>,
    selected: Option<usize>,
    dir: HorizontalDirection,
) -> (r: Option<(usize, usize)>)
    requires
        nav_ready(spans@, tracks@, root_tracks@),
    ensures
        r == switched_track(spans@, tracks@, root_tracks@, selected, dir),
{
    let n = tracks.len();
    if n == 0 {
        return None;
    }
    let cur: usize = match selected {
        Some(si) => match track_index_for_span(spans, root_tracks, si) {
            Some(t) => {
                proof {
                    assert(root_tracks@[spans@[si as int].root_span_index as int] == Some(t));
                }
                t
            },
            None => 0,
        },
        None => 0,
    };
    let nt = match dir {
        HorizontalDirection::Next => if cur + 1 == n {
            0
        } else {
            cur + 1
        },
        HorizontalDirection::Previous => if cur == 0 {
            n - 1
        } else {
            cur - 1
        },
    };
    proof {
        assert(nt as int == match dir {
            HorizontalDirection::Next => (cur + 1) % (n as int),
            HorizontalDirection::Previous => (cur + n - 1) % (n as int),
        }) by (nonlinear_arith)
            requires
                cur < n,
                nt == match dir {
                    HorizontalDirection::Next => if cur + 1 == n {
                        0
                    } else {
                        cur + 1
                    },
                    HorizontalDirection::Previous => if cur == 0 {
                        n - 1
                    } else {
                        cur - 1
                    },
                },
        ;
        assert(views_in_range(spans@, tracks@[nt as int]@));
    }
    let views = &tracks[nt];
    let shown = roots_of(spans, views, true);
    if shown.len() > 0 {
        return Some((shown[0], nt));
    }
    let all = roots_of(spans, views, false);
    if all.len() > 0 {
        return Some((all[0], nt));
    }
    None
}

// ---------------------------------------------------------------------------
// Vertical scrolling
// ---------------------------------------------------------------------------

/// The rows `(start, end)` of each track, given the height of its content;
/// each track also has a one-row label. The ends saturate at the largest
/// row.
pub open spec fn track_rows(heights: Seq<u16>) -> Seq<(u16, u16)>
    decreases heights.len(),
{
    if heights.len() == 0 {
        Seq::empty()
    } else {
        let prev = track_rows(heights.drop_last());
        let y = if prev.len() == 0 {
            0u16
        } else {
            prev.last().1
        };
        let end = if y + heights.last() + 1 > u16::MAX {
            u16::MAX
        } else {
            (y + heights.last() + 1) as u16
        };
        prev.push((y, end))
    }
}

/// The rows of the tracks, from the heights of their contents.
pub fn compute_track_positions(heights: &Vec<u16>) -> (r: Vec<(u16, u16)>)
    requires
        forall|k: int| 0 <= k < heights@.len() ==> #[trigger] heights@[k] < u16::MAX,
    ensures
        r@ == track_rows(heights@),
{
    let mut r: Vec<(u16, u16)> = Vec::new();
    let mut y: u16 = 0;
    let mut k: usize = 0;
    while k < heights.len()
        invariant
            k <= heights@.len(),
            forall|j: int| 0 <= j < heights@.len() ==> #[trigger] heights@[j] < u16::MAX,
            r@ == track_rows(heights@.take(k as int)),
            y == if k == 0 {
                0u16
            } else {
                r@.last().1
            },
            r@.len() == k,
        decreases heights@.len() - k,
    {
        proof {
            assert(heights@.take(k + 1).drop_last() =~= heights@.take(k as int));
            assert(heights@[k as int] < u16::MAX);
        }
        let h = heights[k] + 1;
        let end = y.saturating_add(h);
        r.push((y, end));
        y = end;
        k = k + 1;
    }
    proof {
        assert(heights@.take(heights@.len() as int) =~= heights@);
    }
    r
}

/// The scroll that puts the centre of track `t` in the middle of the
/// viewport, kept within the content; 0 when everything fits; `scroll`
/// unchanged for an unknown track or an empty viewport.
pub open spec fn centred_scroll(rows: Seq<(u16, u16)>, n_tracks: int, t: int, viewport: u16, scroll: u16) -> u16 {
    if t >= n_tracks || viewport == 0 || t >= rows.len() {
        scroll
    } else {
        let total = rows.last().1;
        if total <= viewport {
            0
        } else {
            let (a, b) = rows[t];
            let half = if b >= a {
                (b - a) / 2
            } else {
                0
            };
            let centre = if a + half > u16::MAX {
                u16::MAX as int
            } else {
                a + half
            };
            let top = if centre >= viewport / 2 {
                centre - viewport / 2
            } else {
                0
            };
            let max = total - viewport;
            (if top < max {
                top
            } else {
                max
            }) as u16
        }
    }
}

/// Centres track `t` in the viewport (see [`centred_scroll`]).
pub fn center_track(rows: &Vec<(u16, u16)>, n_tracks: usize, t: usize, viewport: u16, scroll: u16) -> (r:
    u16)
    ensures
        r == centred_scroll(rows@, n_tracks as int, t as int, viewport, scroll),
{
    if t >= n_tracks || viewport == 0 || t >= rows.len() {
        return scroll;
    }
    let total = rows[rows.len() - 1].1;
    if total <= viewport {
        return 0;
    }
    let (a, b) = rows[t];
    let centre = a.saturating_add(b.saturating_sub(a) / 2);
    let max = total.saturating_sub(viewport);
    let top = centre.saturating_sub(viewport / 2);
    if top < max {
        top
    } else {
        max
    }
}

/// Scrolls up by three rows, within the content.
pub fn scroll_up(content_height: u16, viewport: u16, scroll: u16) -> (r: u16)
    ensures
        r == ({
            let max = if content_height >= viewport {
                content_height - viewport
            } else {
                0
            };
            let s = if scroll >= 3 {
                scroll - 3
            } else {
                0
            };
            if s < max {
                s
            } else {
                max
            }
        }),
{
    let max = content_height.saturating_sub(viewport);
    let s = scroll.saturating_sub(3);
    if s < max {
        s
    } else {
        max
    }
}

/// Scrolls down by three rows, within the content.
pub fn scroll_down(content_height: u16, viewport: u16, scroll: u16) -> (r: u16)
    ensures
        r == ({
            let max = if content_height >= viewport {
                content_height - viewport
            } else {
                0
            };
            let s = if scroll + 3 > u16::MAX {
                u16::MAX as int
            } else {
                scroll + 3
            };
            if s < max {
                s
            } else {
                max
            }
        }),
{
    let max = content_height.saturating_sub(viewport);
    let s = scroll.saturating_add(3);
    if s < max {
        s
    } else {
        max
    }
}

// ---------------------------------------------------------------------------
// Search
// ---------------------------------------------------------------------------

/// Span `s` matches the lower-case query `q`: in its identifier, its label
/// or its sublabel, ignoring case.
pub open spec fn span_matches(s: Span, q: Seq<char>) -> bool {
    contains_seq(lowercase(s.identifier@), q) || contains_seq(lowercase(s.label@), q) || match s.sublabel {
        Some(sl) => contains_seq(lowercase(sl@), q),
        None => false,
    }
}

/// Whether the lower-case query `q` occurs in the lower-case forms of a
/// span's identifier, label or sublabel.
pub fn fields_match(identifier: &str, label: &str, sublabel: Option<&str>, q: &str) -> (r: bool)
    ensures
        r == (contains_seq(identifier@, q@) || contains_seq(label@, q@) || match sublabel {
            Some(sl) => contains_seq(sl@, q@),
            None => false,
        }),
{
    contains_str(identifier, q) || contains_str(label, q) || match sublabel {
        Some(sl) => contains_str(sl, q),
        None => false,
    }
}

/// The positions of the spans among the first `m` that match `q`.
pub open spec fn matches_upto(spans: Seq<Span>, q: Seq<char>, m: int) -> Seq<usize>
    decreases m,
{
    if m <= 0 {
        Seq::empty()
    } else if span_matches(spans[m - 1], q) {
        matches_upto(spans, q, m - 1).push((m - 1) as usize)
    } else {
        matches_upto(spans, q, m - 1)
    }
}

/// The matches of a search query: none without a query or with an empty
/// one; otherwise the spans that match its lower-case form.
pub open spec fn search_matches(spans: Seq<Span>, query: Option<Seq<char>>) -> Seq<usize> {
    match query {
        Some(q) => if q.len() > 0 {
            matches_upto(spans, lowercase(q), spans.len() as int)
        } else {
            Seq::empty()
        },
        None => Seq::empty(),
    }
}

/// The positions of the spans that match the search query (see
/// [`search_matches`]).
pub fn find_matches(spans: &[Span], query: Option<&str>) -> (r: Vec<usize>)
    ensures
        r@ == search_matches(
            spans@,
            match query {
                Some(q) => Some(q@),
                None => None,
            },
        ),
        forall|a: int, b: int| 0 <= a < b < r@.len() ==> r@[a] < r@[b],
{
    let q = match query {
        Some(q) => {
            if crate::text::char_count(q) == 0 {
                return Vec::new();
            }
            to_lowercase(q)
        },
        None => return Vec::new(),
    };
    let mut r: Vec<usize> = Vec::new();
    let mut i: usize = 0;
    while i < spans.len()
        invariant
            i <= spans@.len(),
            query matches Some(qs) && qs@.len() > 0 && q@ == lowercase(qs@),
            r@ == matches_upto(spans@, q@, i as int),
            forall|a: int| 0 <= a < r@.len() ==> r@[a] < i,
            forall|a: int, b: int| 0 <= a < b < r@.len() ==> r@[a] < r@[b],
        decreases spans@.len() - i,
    {
        let s = &spans[i];
        let identifier = to_lowercase(s.identifier.as_str());
        let label = to_lowercase(s.label.as_str());
        let sublabel = match &s.sublabel {
            Some(sl) => Some(to_lowercase(sl.as_str())),
            None => None,
        };
        let m = fields_match(
            identifier.as_str(),
            label.as_str(),
            match &sublabel {
                Some(sl) => Some(sl.as_str()),
                None => None,
            },
            q.as_str(),
        );
        if m {
            r.push(i);
        }
        i = i + 1;
    }
    r
}

/// `(p + d)` modulo `n`, between 0 and `n - 1`.
fn wrap_index(p: usize, d: isize, n: usize) -> (r: usize)
    requires
        n > 0,
        p < n,
    ensures
        r == (p + d) % (n as int),
{
    let t: i128 = p as i128 + d as i128;
    let m: i128 = n as i128;
    if t >= 0 {
        let r = (t % m) as usize;
        proof {
            assert(0 <= t % m < m) by (nonlinear_arith)
                requires
                    t >= 0,
                    m > 0,
            ;
        }
        r
    } else {
        let q: i128 = (-t) % m;
        proof {
            let a: int = -t;
            let k: int = a / (m as int);
            vstd::arithmetic::div_mod::lemma_fundamental_div_mod(a, m as int);
            assert(0 <= q < m) by (nonlinear_arith)
                requires
                    a > 0,
                    m > 0,
                    q == a % (m as int),
            ;
            if q == 0 {
                assert(t == (-k) * m + 0) by (nonlinear_arith)
                    requires
                        a == m * k + q,
                        t == -a,
                        q == 0,
                ;
                vstd::arithmetic::div_mod::lemma_fundamental_div_mod_converse_mod(t as int, m as int, -k, 0);
            } else {
                assert(t == (-k - 1) * m + (m - q)) by (nonlinear_arith)
                    requires
                        a == m * k + q,
                        t == -a,
                ;
                vstd::arithmetic::div_mod::lemma_fundamental_div_mod_converse_mod(
                    t as int,
                    m as int,
                    -k - 1,
                    m - q,
                );
            }
        }
        if q == 0 {
            0
        } else {
            (m - q) as usize
        }
    }
}

/// The match selected after moving by `direction` (1 forward, -1
/// backward) from the selection: around the list from the current match,
/// or to the first (forward) or last (backward) match when the selection
/// is not one; `None` without matches.
pub open spec fn navigated_match(matches: Seq<usize>, selected: Option<usize>, direction: int) -> Option<usize> {
    if matches.len() == 0 {
        None
    } else {
        let pos = match selected {
            Some(sel) => position_of(matches, sel),
            None => None,
        };
        let np = match pos {
            Some(p) => (p + direction) % (matches.len() as int),
            None => if direction > 0 {
                0
            } else {
                matches.len() - 1
            },
        };
        Some(matches[np])
    }
}

/// The next (or previous) match to select (see [`navigated_match`]).
pub fn navigate_match(matches: &Vec<usize>, selected: Option<usize>, direction: isize) -> (r: Option<usize>)
    ensures
        r == navigated_match(matches@, selected, direction as int),
{
    if matches.len() == 0 {
        return None;
    }
    let pos = match selected {
        Some(sel) => vec_position(matches, sel),
        None => None,
    };
    let np = match pos {
        Some(p) => {
            proof {
                crate::view::lemma_position_of(matches@, selected.unwrap());
            }
            wrap_index(p, direction, matches.len())
        },
        None => if direction > 0 {
            0
        } else {
            matches.len() - 1
        },
    };
    proof {
        assert(0 <= np < matches@.len()) by (nonlinear_arith)
            requires
                matches@.len() > 0,
                np == match pos {
                    Some(p) => (p + direction) % (matches@.len() as int),
                    None => if direction > 0 {
                        0
                    } else {
                        matches@.len() - 1
                    },
                },
        ;
    }
    Some(matches[np])
}

/// The position of the selection among the matches.
pub fn current_match_index(matches: &Vec<usize>, selected: Option<usize>) -> (r: Option<usize>)
    ensures
        (match r {
            Some(k) => Some(k as int),
            None => None,
        }) == match selected {
            Some(sel) => position_of(matches@, sel),
            None => None,
        },
{
    match selected {
        Some(sel) => vec_position(matches, sel),
        None => None,
    }
}

// ---------------------------------------------------------------------------
// Extent of the timeline
// ---------------------------------------------------------------------------

/// The latest end (start plus duration, saturating) among the first `m`
/// spans that are roots of known duration; 0 if there is none.
pub open spec fn latest_end(spans: Seq<Span>, m: int) -> u64
    decreases m,
{
    if m <= 0 {
        0
    } else {
        let prev = latest_end(spans, m - 1);
        let s = spans[m - 1];
        if crate::view::schedulable(s) && crate::view::sat_add(s.start_time, s.duration) > prev {
            crate::view::sat_add(s.start_time, s.duration)
        } else {
            prev
        }
    }
}

/// The length of the timeline: the latest end of a root of known duration.
pub fn total_duration(spans: &[Span]) -> (r: u64)
    ensures
        r == latest_end(spans@, spans@.len() as int),
        forall|i: int| 0 <= i < spans@.len() && crate::view::schedulable(#[trigger] spans@[i]) ==> crate::view::sat_add(
            spans@[i].start_time,
            spans@[i].duration,
        ) <= r,
{
    let mut r: u64 = 0;
    let mut i: usize = 0;
    while i < spans.len()
        invariant
            i <= spans@.len(),
            r == latest_end(spans@, i as int),
            forall|j: int| 0 <= j < i && crate::view::schedulable(#[trigger] spans@[j]) ==> crate::view::sat_add(
                spans@[j].start_time,
                spans@[j].duration,
            ) <= r,
        decreases spans@.len() - i,
    {
        let s = &spans[i];
        if s.parent_index.is_none() && s.duration != crate::span::UNBOUNDED {
            let end = s.start_time.saturating_add(s.duration);
            if end > r {
                r = end;
            }
        }
        i = i + 1;
    }
    r
}

} // verus!
