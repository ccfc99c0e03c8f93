//! Views of spans for display: orderings of tracks, navigation between
//! displayed spans, build-log records and loading progress.
use vstd::prelude::*;
use crate::span::{Span, UNBOUNDED};
use crate::sort::{SortKey, keys_sorted, sort_keys, sorted_of, lemma_sorted_of};

verus! {

/// How the spans of a track are laid out.
#[derive(PartialEq, Eq, Structural, Clone, Copy, Debug)]
pub enum OrderBy {
    /// At their start times.
    StartTime,
    /// Children packed left to right, longest first.
    Duration,
}

/// Positioning data for one span, precomputed for a given [`OrderBy`].
#[derive(Clone, Copy, Debug)]
pub struct SpanView {
    /// Global index into the flat spans array.
    pub span_index: usize,
    /// Start time to use for x-positioning, in microseconds.
    pub effective_start: u64,
    /// Position among siblings (for checkerboard coloring).
    pub index_in_parent: usize,
    /// Set after each render: true if this span occupied at least one full terminal cell.
    pub has_core_cells: bool,
    /// Set after each render: true if this span was rendered at all (including partial chars).
    pub was_displayed: bool,
}

/// A span view with the number of spans it stands for.
#[derive(Clone, Copy, Debug)]
pub struct AggregateSpanView {
    pub view: SpanView,
    pub count: usize,
}

/// What the details panel needs of a view.
pub trait DetailProvider {
    fn span_index(&self) -> usize;

    fn count(&self) -> Option<usize>;
}

impl DetailProvider for SpanView {
    fn span_index(&self) -> (r: usize)
        ensures
            r == self.span_index,
    {
        self.span_index
    }

    fn count(&self) -> (r: Option<usize>)
        ensures
            r is None,
    {
        None
    }
}

impl DetailProvider for AggregateSpanView {
    fn span_index(&self) -> (r: usize)
        ensures
            r == self.view.span_index,
    {
        self.view.span_index
    }

    fn count(&self) -> (r: Option<usize>)
        ensures
            r == Some(self.count),
    {
        Some(self.count)
    }
}

/// Directions of keyboard navigation between spans.
#[derive(PartialEq, Eq, Structural, Clone, Copy, Debug)]
pub enum FollowingSpanDirection {
    Next,
    Previous,
    Parent,
    Child,
}

/// Horizontal-only direction.
#[derive(PartialEq, Eq, Structural, Clone, Copy, Debug)]
pub enum HorizontalDirection {
    Next,
    Previous,
}

/// Which side of a terminal cell a partial block fills.
#[derive(PartialEq, Eq, Structural, Clone, Copy, Debug)]
pub enum SubcellAlign {
    Left,
    Right,
}

/// A build record of a `.ninja_log` file.
pub struct UnitTrace {
    pub identifier: String,
    pub start_ms: u64,
    pub end_ms: u64,
}

/// Progress information sent during span loading.
#[derive(Clone, Copy, Debug)]
pub struct LoadProgress {
    /// Bytes processed so far.
    pub bytes_processed: u64,
    /// Total bytes across all trace files.
    pub total_bytes: u64,
    /// Number of files processed so far.
    pub files_processed: usize,
    /// Total number of trace files.
    pub total_files: usize,
}

// ---------------------------------------------------------------------------
// Scheduling units into tracks
// ---------------------------------------------------------------------------

/// The span can be scheduled: it is a root of known duration.
pub open spec fn schedulable(s: Span) -> bool {
    s.parent_index is None && s.duration != UNBOUNDED
}

/// The scheduling job of span `i`: `(start, end, i)`.
pub open spec fn job_of(spans: Seq<Span>, i: int) -> SortKey {
    (spans[i].start_time as u128, (spans[i].start_time + spans[i].duration) as u128, i as usize)
}

/// The jobs of the schedulable spans among the first `m`, in index order.
pub open spec fn root_jobs(spans: Seq<Span>, m: int) -> Seq<SortKey>
    decreases m,
{
    if m <= 0 {
        Seq::empty()
    } else if schedulable(spans[m - 1]) {
        root_jobs(spans, m - 1).push(job_of(spans, m - 1))
    } else {
        root_jobs(spans, m - 1)
    }
}

/// Among tracks `0..k`, the one free at `start` (its last job ends no later)
/// that became free first; the lowest such track on ties.
pub open spec fn free_track(ends: Seq<int>, start: int, k: int) -> Option<int>
    decreases k,
{
    if k <= 0 {
        None
    } else {
        let prev = free_track(ends, start, k - 1);
        if ends[k - 1] <= start && (prev is None || ends[k - 1] < ends[prev.unwrap()]) {
            Some(k - 1)
        } else {
            prev
        }
    }
}

/// Track ends and track contents after placing `jobs` in order: each job
/// goes to the free track that became free first, or to a new track.
pub open spec fn schedule_state(jobs: Seq<SortKey>) -> (Seq<int>, Seq<Seq<usize>>)
    decreases jobs.len(),
{
    if jobs.len() == 0 {
        (Seq::empty(), Seq::empty())
    } else {
        let (ends, tracks) = schedule_state(jobs.drop_last());
        let j = jobs.last();
        match free_track(ends, j.0 as int, ends.len() as int) {
            Some(t) => (ends.update(t, j.1 as int), tracks.update(t, tracks[t].push(j.2))),
            None => (ends.push(j.1 as int), tracks.push(seq![j.2])),
        }
    }
}

/// The tracks of `spans`: the schedulable roots, by start (then end, then
/// index), placed greedily.
pub open spec fn scheduled_tracks(spans: Seq<Span>) -> Seq<Seq<usize>> {
    schedule_state(sorted_of(root_jobs(spans, spans.len() as int))).1
}

/// The view of a list of index lists.
pub open spec fn lists_view(v: Seq<Vec<usize>>) -> Seq<Seq<usize>> {
    Seq::new(v.len(), |k: int| v[k]@)
}

proof fn lemma_schedule_lengths(jobs: Seq<SortKey>)
    ensures
        schedule_state(jobs).0.len() == schedule_state(jobs).1.len(),
    decreases jobs.len(),
{
    if jobs.len() > 0 {
        lemma_schedule_lengths(jobs.drop_last());
        let (ends, tracks) = schedule_state(jobs.drop_last());
        lemma_free_track(ends, jobs.last().0 as int, ends.len() as int);
    }
}

proof fn lemma_free_track(ends: Seq<int>, start: int, k: int)
    requires
        0 <= k <= ends.len(),
    ensures
        free_track(ends, start, k) matches Some(t) ==> 0 <= t < k && ends[t] <= start,
    decreases k,
{
    if k > 0 {
        lemma_free_track(ends, start, k - 1);
    }
}

/// The job is that of a schedulable span.
pub open spec fn valid_job(spans: Seq<Span>, j: SortKey) -> bool {
    &&& j.2 < spans.len()
    &&& schedulable(spans[j.2 as int])
    &&& j == job_of(spans, j.2 as int)
}

/// The tracks hold schedulable spans, one after another: each ends before
/// the next one of its track starts.
pub open spec fn tracks_disjoint(spans: Seq<Span>, tracks: Seq<Seq<usize>>) -> bool {
    &&& forall|t: int, a: int|
        0 <= t < tracks.len() && 0 <= a < tracks[t].len() ==> (#[trigger] tracks[t][a]) < spans.len()
            && schedulable(spans[tracks[t][a] as int])
    &&& forall|t: int, a: int, b: int|
        0 <= t < tracks.len() && 0 <= a && b == a + 1 && b < tracks[t].len() ==> spans[(
        #[trigger] tracks[t][a]) as int].start_time + spans[tracks[t][a] as int].duration <= spans[(
        #[trigger] tracks[t][b]) as int].start_time
}

proof fn lemma_root_jobs_valid(spans: Seq<Span>, m: int)
    requires
        0 <= m <= spans.len(),
        spans.len() <= usize::MAX,
    ensures
        forall|k: int| 0 <= k < root_jobs(spans, m).len() ==> valid_job(spans, #[trigger] root_jobs(spans, m)[k]),
    decreases m,
{
    if m > 0 {
        lemma_root_jobs_valid(spans, m - 1);
        let prev = root_jobs(spans, m - 1);
        let cur = root_jobs(spans, m);
        assert forall|k: int| 0 <= k < cur.len() implies valid_job(spans, #[trigger] cur[k]) by {
            if k < prev.len() {
                assert(cur[k] == prev[k]);
            }
        }
    }
}

/// Track ends and tracks that satisfy [`tracks_disjoint`], where each end
/// is that of the last span of its track.
pub open spec fn schedule_ok(spans: Seq<Span>, ends: Seq<int>, tracks: Seq<Seq<usize>>) -> bool {
    &&& ends.len() == tracks.len()
    &&& tracks_disjoint(spans, tracks)
    &&& forall|t: int| 0 <= t < tracks.len() ==> (#[trigger] tracks[t]).len() > 0 && ends[t]
        == spans[tracks[t].last() as int].start_time + spans[tracks[t].last() as int].duration
}

#[verifier::spinoff_prover]
proof fn lemma_schedule_onto(spans: Seq<Span>, ends: Seq<int>, tracks: Seq<Seq<usize>>, j: SortKey, t: int)
    requires
        schedule_ok(spans, ends, tracks),
        valid_job(spans, j),
        0 <= t < ends.len(),
        ends[t] <= j.0,
    ensures
        schedule_ok(spans, ends.update(t, j.1 as int), tracks.update(t, tracks[t].push(j.2))),
{
    let e2 = ends.update(t, j.1 as int);
    let t2 = tracks.update(t, tracks[t].push(j.2));
    assert forall|u: int, a: int|
        0 <= u < t2.len() && 0 <= a < t2[u].len() implies (#[trigger] t2[u][a]) < spans.len()
            && schedulable(spans[t2[u][a] as int]) by {
        if u != t || a < tracks[t].len() {
            assert(t2[u][a] == tracks[u][a]);
        }
    }
    assert forall|u: int, a: int, b: int|
        0 <= u < t2.len() && 0 <= a && b == a + 1 && b < t2[u].len() implies spans[(
        #[trigger] t2[u][a]) as int].start_time + spans[t2[u][a] as int].duration <= spans[(
        #[trigger] t2[u][b]) as int].start_time by {
        if u != t {
            assert(t2[u] == tracks[u]);
        } else if b < tracks[t].len() {
            assert(t2[u][a] == tracks[t][a]);
            assert(t2[u][b] == tracks[t][b]);
        } else {
            assert(t2[u][a] == tracks[t].last());
            assert(t2[u][b] == j.2);
        }
    }
    assert forall|u: int| 0 <= u < t2.len() implies (#[trigger] t2[u]).len() > 0 && e2[u]
        == spans[t2[u].last() as int].start_time + spans[t2[u].last() as int].duration by {
        if u != t {
            assert(t2[u] == tracks[u]);
        }
    }
}

#[verifier::spinoff_prover]
proof fn lemma_schedule_new(spans: Seq<Span>, ends: Seq<int>, tracks: Seq<Seq<usize>>, j: SortKey)
    requires
        schedule_ok(spans, ends, tracks),
        valid_job(spans, j),
    ensures
        schedule_ok(spans, ends.push(j.1 as int), tracks.push(seq![j.2])),
{
    let e2 = ends.push(j.1 as int);
    let t2 = tracks.push(seq![j.2]);
    assert forall|u: int, a: int|
        0 <= u < t2.len() && 0 <= a < t2[u].len() implies (#[trigger] t2[u][a]) < spans.len()
            && schedulable(spans[t2[u][a] as int]) by {
        if u < tracks.len() {
            assert(t2[u] == tracks[u]);
        }
    }
    assert forall|u: int, a: int, b: int|
        0 <= u < t2.len() && 0 <= a && b == a + 1 && b < t2[u].len() implies spans[(
        #[trigger] t2[u][a]) as int].start_time + spans[t2[u][a] as int].duration <= spans[(
        #[trigger] t2[u][b]) as int].start_time by {
        if u < tracks.len() {
            assert(t2[u] == tracks[u]);
        }
    }
    assert forall|u: int| 0 <= u < t2.len() implies (#[trigger] t2[u]).len() > 0 && e2[u]
        == spans[t2[u].last() as int].start_time + spans[t2[u].last() as int].duration by {
        if u < tracks.len() {
            assert(t2[u] == tracks[u]);
        }
    }
}

proof fn lemma_schedule_disjoint(spans: Seq<Span>, jobs: Seq<SortKey>)
    requires
        forall|k: int| 0 <= k < jobs.len() ==> valid_job(spans, #[trigger] jobs[k]),
    ensures
        schedule_ok(spans, schedule_state(jobs).0, schedule_state(jobs).1),
    decreases jobs.len(),
{
    if jobs.len() > 0 {
        let d = jobs.drop_last();
        assert forall|k: int| 0 <= k < d.len() implies valid_job(spans, #[trigger] d[k]) by {
            assert(d[k] == jobs[k]);
        }
        lemma_schedule_disjoint(spans, d);
        let (ends, tracks) = schedule_state(d);
        let j = jobs.last();
        assert(valid_job(spans, jobs[jobs.len() - 1]));
        lemma_free_track(ends, j.0 as int, ends.len() as int);
        match free_track(ends, j.0 as int, ends.len() as int) {
            Some(t) => {
                lemma_schedule_onto(spans, ends, tracks, j, t);
            },
            None => {
                lemma_schedule_new(spans, ends, tracks, j);
            },
        }
    }
}

/// The jobs that the scheduler sorts are those of schedulable spans.
proof fn lemma_sorted_jobs_valid(spans: Seq<Span>, jv: Seq<SortKey>, sorted: Seq<SortKey>)
    requires
        spans.len() <= usize::MAX,
        jv == root_jobs(spans, spans.len() as int),
        sorted.to_multiset() == jv.to_multiset(),
    ensures
        forall|k: int| 0 <= k < sorted.len() ==> valid_job(spans, #[trigger] sorted[k]),
{
    lemma_root_jobs_valid(spans, spans.len() as int);
    assert forall|k: int| 0 <= k < sorted.len() implies valid_job(spans, #[trigger] sorted[k]) by {
        sorted.to_multiset_ensures();
        jv.to_multiset_ensures();
        assert(sorted.contains(sorted[k]));
        assert(jv.to_multiset().count(sorted[k]) > 0);
        assert(jv.contains(sorted[k]));
    }
}

/// `x` stands somewhere on the tracks.
pub open spec fn placed(tracks: Seq<Seq<usize>>, x: usize) -> bool {
    exists|t: int, a: int| 0 <= t < tracks.len() && 0 <= a < tracks[t].len() && tracks[t][a] == x
}

proof fn lemma_schedule_covers(jobs: Seq<SortKey>)
    ensures
        forall|k: int| 0 <= k < jobs.len() ==> placed(schedule_state(jobs).1, #[trigger] jobs[k].2),
    decreases jobs.len(),
{
    if jobs.len() > 0 {
        let d = jobs.drop_last();
        lemma_schedule_covers(d);
        lemma_schedule_lengths(d);
        let (ends, tracks) = schedule_state(d);
        let j = jobs.last();
        lemma_free_track(ends, j.0 as int, ends.len() as int);
        let nt = schedule_state(jobs).1;
        assert forall|k: int| 0 <= k < jobs.len() implies placed(nt, #[trigger] jobs[k].2) by {
            if k < d.len() {
                assert(d[k] == jobs[k]);
                assert(placed(tracks, d[k].2));
                let (t1, a1) = choose|t1: int, a1: int|
                    0 <= t1 < tracks.len() && 0 <= a1 < tracks[t1].len() && tracks[t1][a1] == d[k].2;
                match free_track(ends, j.0 as int, ends.len() as int) {
                    Some(t) => {
                        if t1 == t {
                            assert(nt[t1] == tracks[t1].push(j.2));
                            assert(nt[t1][a1] == tracks[t1][a1]);
                        } else {
                            assert(nt[t1] == tracks[t1]);
                        }
                    },
                    None => {
                        assert(nt[t1] == tracks[t1]);
                    },
                }
                assert(nt[t1][a1] == jobs[k].2);
            } else {
                match free_track(ends, j.0 as int, ends.len() as int) {
                    Some(t) => {
                        assert(nt[t] == tracks[t].push(j.2));
                        assert(nt[t][tracks[t].len() as int] == jobs[k].2);
                    },
                    None => {
                        assert(nt[tracks.len() as int] == seq![j.2]);
                        assert(nt[tracks.len() as int][0] == jobs[k].2);
                    },
                }
            }
        }
    }
}

proof fn lemma_root_jobs_contain(spans: Seq<Span>, m: int)
    requires
        0 <= m <= spans.len(),
    ensures
        forall|i: int| 0 <= i < m && schedulable(#[trigger] spans[i]) ==> root_jobs(spans, m).contains(job_of(spans, i)),
    decreases m,
{
    if m > 0 {
        lemma_root_jobs_contain(spans, m - 1);
        let prev = root_jobs(spans, m - 1);
        let cur = root_jobs(spans, m);
        assert forall|i: int| 0 <= i < m && schedulable(#[trigger] spans[i]) implies cur.contains(job_of(spans, i)) by {
            if i < m - 1 {
                let w = choose|w: int| 0 <= w < prev.len() && prev[w] == job_of(spans, i);
                if schedulable(spans[m - 1]) {
                    assert(cur[w] == prev[w]);
                }
            } else {
                assert(cur[prev.len() as int] == job_of(spans, i));
            }
        }
    }
}

/// Greedy scheduling of root spans (those without a parent, of known
/// duration) into non-overlapping tracks. Every such root lands on a
/// track.
///
/// Returns `track_roots[i]` = list of root span global indices for track
/// `i`, ordered by assignment time.
pub fn schedule_spans(spans: &[Span]) -> (r: Vec<Vec<usize>>)
    ensures
        lists_view(r@) == scheduled_tracks(spans@),
        tracks_disjoint(spans@, lists_view(r@)),
        forall|i: int|
            0 <= i < spans@.len() && schedulable(#[trigger] spans@[i]) ==> placed(lists_view(r@), i as usize),
{
    let n = spans.len();
    let mut jobs: Vec<SortKey> = Vec::new();
    let mut i: usize = 0;
    while i < n
        invariant
            i <= n,
            n == spans@.len(),
            jobs@ == root_jobs(spans@, i as int),
        decreases n - i,
    {
        if spans[i].parent_index.is_none() && spans[i].duration != UNBOUNDED {
            let start = spans[i].start_time as u128;
            jobs.push((start, start + spans[i].duration as u128, i));
        }
        i = i + 1;
    }
    let ghost jv = jobs@;
    let sorted = sort_keys(jobs);
    proof {
        lemma_sorted_of(jv, sorted@);
        lemma_sorted_jobs_valid(spans@, jv, sorted@);
        lemma_schedule_disjoint(spans@, sorted@);
    }
    let mut track_ends: Vec<u128> = Vec::new();
    let mut tracks: Vec<Vec<usize>> = Vec::new();
    let mut k: usize = 0;
    while k < sorted.len()
        invariant
            k <= sorted@.len(),
            track_ends@.len() == tracks@.len(),
            Seq::new(track_ends@.len(), |x: int| track_ends@[x] as int) == schedule_state(
                sorted@.take(k as int),
            ).0,
            lists_view(tracks@) == schedule_state(sorted@.take(k as int)).1,
        decreases sorted@.len() - k,
    {
        let (start, end, idx) = sorted[k];
        let ghost ends_v = Seq::new(track_ends@.len(), |x: int| track_ends@[x] as int);
        proof {
            assert(sorted@.take(k + 1).drop_last() =~= sorted@.take(k as int));
            assert(sorted@.take(k + 1).last() == sorted@[k as int]);
            lemma_schedule_lengths(sorted@.take(k as int));
        }
        // The free track that became free first (lowest index on ties).
        let mut slot: Option<usize> = None;
        let mut t: usize = 0;
        while t < track_ends.len()
            invariant
                t <= track_ends@.len(),
                ends_v == Seq::new(track_ends@.len(), |x: int| track_ends@[x] as int),
                slot matches Some(s) ==> s < t,
                (match slot {
                    Some(s) => Some(s as int),
                    None => None,
                }) == free_track(ends_v, start as int, t as int),
            decreases track_ends@.len() - t,
        {
            let te = track_ends[t];
            let better = match slot {
                Some(s) => te < track_ends[s],
                None => true,
            };
            if te <= start && better {
                slot = Some(t);
            }
            t = t + 1;
        }
        let ghost old_tracks = tracks@;
        match slot {
            Some(s) => {
                track_ends.set(s, end);
                let mut tr = tracks[s].clone();
                tr.push(idx);
                tracks.set(s, tr);
                proof {
                    assert(Seq::new(track_ends@.len(), |x: int| track_ends@[x] as int) =~= ends_v.update(
                        s as int,
                        end as int,
                    ));
                    assert(lists_view(tracks@) =~= lists_view(old_tracks).update(
                        s as int,
                        lists_view(old_tracks)[s as int].push(idx),
                    ));
                }
            },
            None => {
                track_ends.push(end);
                let mut tr: Vec<usize> = Vec::new();
                tr.push(idx);
                tracks.push(tr);
                proof {
                    assert(Seq::new(track_ends@.len(), |x: int| track_ends@[x] as int) =~= ends_v.push(
                        end as int,
                    ));
                    assert(tr@ =~= seq![idx]);
                    assert(lists_view(tracks@) =~= lists_view(old_tracks).push(seq![idx]));
                }
            },
        }
        k = k + 1;
    }
    proof {
        assert(sorted@.take(sorted@.len() as int) =~= sorted@);
        lemma_schedule_covers(sorted@);
        lemma_root_jobs_contain(spans@, spans@.len() as int);
        assert forall|i: int|
            0 <= i < spans@.len() && schedulable(#[trigger] spans@[i]) implies placed(lists_view(tracks@), i as usize) by {
            assert(jv.contains(job_of(spans@, i)));
            jv.to_multiset_ensures();
            sorted@.to_multiset_ensures();
            assert(sorted@.to_multiset().count(job_of(spans@, i)) > 0);
            let k = choose|k: int| 0 <= k < sorted@.len() && sorted@[k] == job_of(spans@, i);
            assert(placed(schedule_state(sorted@).1, sorted@[k].2));
        }
    }
    tracks
}

// ---------------------------------------------------------------------------
// Navigation between displayed siblings
// ---------------------------------------------------------------------------

/// Every parent comes before its child.
pub open spec fn parents_before(spans: Seq<Span>) -> bool {
    forall|i: int|
        0 <= i < spans.len() ==> ((#[trigger] spans[i]).parent_index matches Some(p) ==> p < i)
}

/// Every view names a span.
pub open spec fn views_in_range(spans: Seq<Span>, views: Seq<SpanView>) -> bool {
    forall|k: int| 0 <= k < views.len() ==> (#[trigger] views[k]).span_index < spans.len()
}

/// The displayed children of `p`, in view order, each once (first
/// occurrence), among the first `m` views.
pub open spec fn displayed_children(spans: Seq<Span>, views: Seq<SpanView>, p: int, m: int) -> Seq<
    usize,
>
    decreases m,
{
    if m <= 0 {
        Seq::empty()
    } else {
        let prev = displayed_children(spans, views, p, m - 1);
        let v = views[m - 1];
        if spans[v.span_index as int].parent_index == Some(p as usize) && v.was_displayed
            && !prev.contains(v.span_index) {
            prev.push(v.span_index)
        } else {
            prev
        }
    }
}

/// Position of the first occurrence of `x` in `s`.
pub open spec fn position_of(s: Seq<usize>, x: usize) -> Option<int>
    decreases s.len(),
{
    if s.len() == 0 {
        None
    } else if s[0] == x {
        Some(0)
    } else {
        match position_of(s.drop_first(), x) {
            Some(k) => Some(k + 1),
            None => None,
        }
    }
}

/// The displayed sibling after (or before) span `i` in view order: the
/// next (previous) distinct displayed child of its parent; `None` for a
/// root, for a span that is not displayed, and past the last (before the
/// first) sibling.
pub open spec fn following_sibling(
    spans: Seq<Span>,
    views: Seq<SpanView>,
    i: int,
    dir: HorizontalDirection,
) -> Option<usize> {
    if i < 0 || i >= spans.len() {
        None
    } else {
        match spans[i].parent_index {
            None => None,
            Some(p) => if p >= spans.len() {
                None
            } else {
                let sib = displayed_children(spans, views, p as int, views.len() as int);
                match position_of(sib, i as usize) {
                    None => None,
                    Some(pos) => {
                        let np = match dir {
                            HorizontalDirection::Next => pos + 1,
                            HorizontalDirection::Previous => pos - 1,
                        };
                        if 0 <= np < sib.len() {
                            Some(sib[np])
                        } else {
                            None
                        }
                    },
                }
            },
        }
    }
}

pub proof fn lemma_position_of(s: Seq<usize>, x: usize)
    ensures
        position_of(s, x) matches Some(k) ==> 0 <= k < s.len() && s[k] == x && forall|j: int|
            0 <= j < k ==> s[j] != x,
        position_of(s, x) is None ==> !s.contains(x),
    decreases s.len(),
{
    if s.len() > 0 {
        let t = s.drop_first();
        lemma_position_of(t, x);
        if s[0] != x {
            match position_of(t, x) {
                Some(k) => {
                    assert forall|j: int| 0 <= j < k + 1 implies s[j] != x by {
                        if j > 0 {
                            assert(s[j] == t[j - 1]);
                        }
                    }
                },
                None => {
                    assert forall|j: int| 0 <= j < s.len() implies s[j] != x by {
                        if j > 0 {
                            assert(s[j] == t[j - 1]);
                        }
                    }
                },
            }
        }
    }
}

/// Whether `v` contains `x`.
pub fn vec_contains(v: &Vec<usize>, x: usize) -> (r: bool)
    ensures
        r == v@.contains(x),
{
    let mut i: usize = 0;
    while i < v.len()
        invariant
            i <= v@.len(),
            forall|k: int| 0 <= k < i ==> v@[k] != x,
        decreases v@.len() - i,
    {
        if v[i] == x {
            assert(v@[i as int] == x);
            return true;
        }
        i = i + 1;
    }
    false
}

/// Position of the first occurrence of `x` in `v`.
pub fn vec_position(v: &Vec<usize>, x: usize) -> (r: Option<usize>)
    ensures
        (match r {
            Some(k) => Some(k as int),
            None => None,
        }) == position_of(v@, x),
{
    proof {
        lemma_position_of(v@, x);
    }
    let mut i: usize = 0;
    while i < v.len()
        invariant
            i <= v@.len(),
            forall|k: int| 0 <= k < i ==> v@[k] != x,
        decreases v@.len() - i,
    {
        if v[i] == x {
            proof {
                lemma_position_of(v@, x);
                if let Some(k) = position_of(v@, x) {
                    assert(k == i);
                }
            }
            return Some(i);
        }
        i = i + 1;
    }
    proof {
        if let Some(k) = position_of(v@, x) {
            assert(v@[k] == x);
        }
    }
    None
}

/// The displayed children of `p`, in view order, each once.
fn displayed_children_of(spans: &[Span], views: &[SpanView], p: usize) -> (r: Vec<usize>)
    requires
        views_in_range(spans@, views@),
    ensures
        r@ == displayed_children(spans@, views@, p as int, views@.len() as int),
{
    let mut r: Vec<usize> = Vec::new();
    let mut k: usize = 0;
    while k < views.len()
        invariant
            k <= views@.len(),
            views_in_range(spans@, views@),
            r@ == displayed_children(spans@, views@, p as int, k as int),
        decreases views@.len() - k,
    {
        let v = views[k];
        assert(v.span_index < spans@.len());
        if spans[v.span_index].parent_index == Some(p) && v.was_displayed && !vec_contains(&r, v.span_index) {
            r.push(v.span_index);
        }
        k = k + 1;
    }
    r
}

/// Returns the index of the next/previous sibling of `span_index` in `views`,
/// considering only displayed spans; `None` when there is no such sibling.
pub fn get_following_span_index(
    spans: &[Span],
    views: &[SpanView],
    span_index: usize,
    direction: HorizontalDirection,
) -> (r: Option<usize>)
    requires
        views_in_range(spans@, views@),
    ensures
        r == following_sibling(spans@, views@, span_index as int, direction),
{
    if span_index >= spans.len() {
        return None;
    }
    let parent_index = match spans[span_index].parent_index {
        Some(p) => p,
        None => return None,
    };
    if parent_index >= spans.len() {
        return None;
    }
    let siblings = displayed_children_of(spans, views, parent_index);
    let pos = match vec_position(&siblings, span_index) {
        Some(pos) => pos,
        None => return None,
    };
    proof {
        lemma_position_of(siblings@, span_index);
        assert(position_of(siblings@, span_index) == Some(pos as int));
        assert(pos < siblings@.len());
    }
    match direction {
        HorizontalDirection::Next => if pos < siblings.len() - 1 {
            Some(siblings[pos + 1])
        } else {
            None
        },
        HorizontalDirection::Previous => if pos >= 1 {
            Some(siblings[pos - 1])
        } else {
            None
        },
    }
}

// ---------------------------------------------------------------------------
// Track views
// ---------------------------------------------------------------------------

/// Every child comes after its parent and names a span.
pub open spec fn children_after(spans: Seq<Span>) -> bool {
    forall|i: int, k: int|
        0 <= i < spans.len() && 0 <= k < spans[i].children_indices@.len() ==> i < (
        #[trigger] spans[i].children_indices@[k]) < spans.len()
}

/// The subtree of `i` in the order a depth-first walk with a stack visits
/// it: `i`, then the subtrees of its children, last child first.
pub open spec fn subtree_order(spans: Seq<Span>, i: int) -> Seq<usize>
    decreases spans.len() - i, 1int, 0int,
{
    if i < 0 || i >= spans.len() {
        Seq::empty()
    } else {
        seq![i as usize] + child_subtrees(spans, i, spans[i].children_indices@.len() as int)
    }
}

/// The subtrees of the first `k` children of `i`, last one first.
pub open spec fn child_subtrees(spans: Seq<Span>, i: int, k: int) -> Seq<usize>
    decreases spans.len() - i, 0int, k,
{
    if k <= 0 || i < 0 || i >= spans.len() || k > spans[i].children_indices@.len() {
        Seq::empty()
    } else {
        let c = spans[i].children_indices@[k - 1] as int;
        (if i < c < spans.len() {
            subtree_order(spans, c)
        } else {
            Seq::empty()
        }) + child_subtrees(spans, i, k - 1)
    }
}

/// What a stack of pending subtrees still yields (top first).
pub open spec fn pending(spans: Seq<Span>, st: Seq<usize>) -> Seq<usize>
    decreases st.len(),
{
    if st.len() == 0 {
        Seq::empty()
    } else {
        subtree_order(spans, st.last() as int) + pending(spans, st.drop_last())
    }
}

proof fn lemma_pending_children(spans: Seq<Span>, base: Seq<usize>, x: int, k: int)
    requires
        children_after(spans),
        0 <= x < spans.len(),
        0 <= k <= spans[x].children_indices@.len(),
    ensures
        pending(spans, base + spans[x].children_indices@.take(k)) == child_subtrees(spans, x, k)
            + pending(spans, base),
    decreases k,
{
    let ch = spans[x].children_indices@;
    if k == 0 {
        assert(base + ch.take(0) =~= base);
    } else {
        lemma_pending_children(spans, base, x, k - 1);
        let st = base + ch.take(k);
        assert(st.drop_last() =~= base + ch.take(k - 1));
        assert(st.last() == ch[k - 1]);
        assert(x < ch[k - 1] < spans.len());
    }
}

/// The subtree of `root` (see [`subtree_order`]).
pub fn collect_subtree(spans: &[Span], root: usize) -> (r: Vec<usize>)
    requires
        children_after(spans@),
        root < spans@.len(),
    ensures
        r@ == subtree_order(spans@, root as int),
{
    let mut result: Vec<usize> = Vec::new();
    let mut stack: Vec<usize> = Vec::new();
    stack.push(root);
    proof {
        assert(stack@.drop_last() =~= Seq::<usize>::empty());
        assert(pending(spans@, stack@.drop_last()) =~= Seq::<usize>::empty());
        assert(subtree_order(spans@, root as int) + Seq::<usize>::empty() =~= subtree_order(
            spans@,
            root as int,
        ));
        assert(pending(spans@, stack@) =~= subtree_order(spans@, root as int));
    }
    while stack.len() > 0
        invariant
            children_after(spans@),
            forall|k: int| 0 <= k < stack@.len() ==> stack@[k] < spans@.len(),
            result@ + pending(spans@, stack@) == subtree_order(spans@, root as int),
        decreases pending(spans@, stack@).len(),
    {
        let ghost before = stack@;
        let x = stack.pop().unwrap();
        result.push(x);
        let ghost base = stack@;
        proof {
            assert(before.drop_last() =~= base);
            assert(before.last() == x);
        }
        let mut k: usize = 0;
        while k < spans[x].children_indices.len()
            invariant
                children_after(spans@),
                x < spans@.len(),
                k <= spans@[x as int].children_indices@.len(),
                stack@ == base + spans@[x as int].children_indices@.take(k as int),
                forall|m: int| 0 <= m < base.len() ==> base[m] < spans@.len(),
            decreases spans@[x as int].children_indices@.len() - k,
        {
            stack.push(spans[x].children_indices[k]);
            k = k + 1;
            proof {
                assert(stack@ =~= base + spans@[x as int].children_indices@.take(k as int));
            }
        }
        proof {
            let ch = spans@[x as int].children_indices@;
            assert(ch.take(ch.len() as int) =~= ch);
            lemma_pending_children(spans@, base, x as int, ch.len() as int);
            assert forall|m: int| 0 <= m < stack@.len() implies stack@[m] < spans@.len() by {
                if m >= base.len() {
                    assert(stack@[m] == ch[m - base.len()]);
                }
            }
        }
    }
    proof {
        assert(result@ + Seq::<usize>::empty() =~= result@);
    }
    result
}

/// The key that orders spans by start time.
pub open spec fn start_key(spans: Seq<Span>, x: usize) -> SortKey {
    (spans[x as int].start_time as u128, 0u128, x)
}

/// The subtree of `root`, ordered by start time (then index).
pub open spec fn subtree_by_start(spans: Seq<Span>, root: int) -> Seq<SortKey> {
    sorted_of(subtree_order(spans, root).map_values(|x: usize| start_key(spans, x)))
}

/// A fresh view of span `i` placed at `start`.
pub open spec fn fresh_view(v: SpanView, i: usize, start: u64, index_in_parent: usize) -> bool {
    &&& v.span_index == i
    &&& v.effective_start == start
    &&& v.index_in_parent == index_in_parent
    &&& !v.has_core_cells
    &&& !v.was_displayed
}

/// The views of the subtree of `root`, ordered by start time, all at
/// position `pos` of their track.
pub fn build_subtree_start_time(spans: &[Span], root: usize, position_in_track: usize) -> (r: Vec<SpanView>)
    requires
        children_after(spans@),
        root < spans@.len(),
    ensures
        r@.len() == subtree_by_start(spans@, root as int).len(),
        forall|k: int|
            0 <= k < r@.len() ==> fresh_view(
                #[trigger] r@[k],
                subtree_by_start(spans@, root as int)[k].2,
                spans@[subtree_by_start(spans@, root as int)[k].2 as int].start_time,
                position_in_track,
            ),
{
    let indices = collect_subtree(spans, root);
    let mut keys: Vec<SortKey> = Vec::new();
    let mut k: usize = 0;
    proof {
        lemma_subtree_in_range(spans@, root as int);
    }
    while k < indices.len()
        invariant
            k <= indices@.len(),
            forall|m: int| 0 <= m < indices@.len() ==> indices@[m] < spans@.len(),
            keys@ == indices@.take(k as int).map_values(|x: usize| start_key(spans@, x)),
        decreases indices@.len() - k,
    {
        let x = indices[k];
        keys.push((spans[x].start_time as u128, 0, x));
        k = k + 1;
        proof {
            assert(keys@ =~= indices@.take(k as int).map_values(|x: usize| start_key(spans@, x)));
        }
    }
    proof {
        assert(indices@.take(indices@.len() as int) =~= indices@);
    }
    let ghost kv = keys@;
    let sorted = sort_keys(keys);
    proof {
        lemma_sorted_of(kv, sorted@);
        lemma_keys_from(spans@, indices@, sorted@);
    }
    let mut r: Vec<SpanView> = Vec::new();
    let mut m: usize = 0;
    while m < sorted.len()
        invariant
            m <= sorted@.len(),
            sorted@ == subtree_by_start(spans@, root as int),
            forall|q: int| 0 <= q < sorted@.len() ==> sorted@[q].2 < spans@.len(),
            r@.len() == m,
            forall|q: int|
                0 <= q < m ==> fresh_view(
                    #[trigger] r@[q],
                    sorted@[q].2,
                    spans@[sorted@[q].2 as int].start_time,
                    position_in_track,
                ),
        decreases sorted@.len() - m,
    {
        let i = sorted[m].2;
        r.push(
            SpanView {
                span_index: i,
                effective_start: spans[i].start_time,
                index_in_parent: position_in_track,
                has_core_cells: false,
                was_displayed: false,
            },
        );
        m = m + 1;
    }
    r
}

proof fn lemma_subtree_in_range(spans: Seq<Span>, i: int)
    ensures
        forall|m: int|
            0 <= m < subtree_order(spans, i).len() ==> #[trigger] subtree_order(spans, i)[m]
                < spans.len(),
    decreases spans.len() - i, 1int, 0int,
{
    if 0 <= i < spans.len() {
        let k = spans[i].children_indices@.len() as int;
        lemma_child_subtrees_in_range(spans, i, k);
        let a = seq![i as usize];
        let b = child_subtrees(spans, i, k);
        assert forall|m: int| 0 <= m < (a + b).len() implies #[trigger] (a + b)[m] < spans.len() by {
            if m >= 1 {
                assert((a + b)[m] == b[m - 1]);
            }
        }
    }
}

proof fn lemma_child_subtrees_in_range(spans: Seq<Span>, i: int, k: int)
    ensures
        forall|m: int|
            0 <= m < child_subtrees(spans, i, k).len() ==> #[trigger] child_subtrees(spans, i, k)[m]
                < spans.len(),
    decreases spans.len() - i, 0int, k,
{
    if k > 0 && 0 <= i < spans.len() && k <= spans[i].children_indices@.len() {
        let c = spans[i].children_indices@[k - 1] as int;
        if i < c < spans.len() {
            lemma_subtree_in_range(spans, c);
        }
        lemma_child_subtrees_in_range(spans, i, k - 1);
        let a = if i < c < spans.len() {
            subtree_order(spans, c)
        } else {
            Seq::empty()
        };
        let b = child_subtrees(spans, i, k - 1);
        assert(child_subtrees(spans, i, k) == a + b);
        assert forall|m: int| 0 <= m < (a + b).len() implies #[trigger] (a + b)[m] < spans.len() by {
            if m < a.len() {
                assert((a + b)[m] == a[m]);
            } else {
                assert((a + b)[m] == b[m - a.len()]);
            }
        }
    }
}

/// Every sorted key is the key of one of `list`'s elements.
proof fn lemma_keys_from(spans: Seq<Span>, list: Seq<usize>, sorted: Seq<SortKey>)
    requires
        sorted.to_multiset() == list.map_values(|x: usize| start_key(spans, x)).to_multiset(),
        forall|m: int| 0 <= m < list.len() ==> list[m] < spans.len(),
    ensures
        forall|q: int| 0 <= q < sorted.len() ==> sorted[q].2 < spans.len(),
{
    let keys = list.map_values(|x: usize| start_key(spans, x));
    sorted.to_multiset_ensures();
    keys.to_multiset_ensures();
    assert forall|q: int| 0 <= q < sorted.len() implies sorted[q].2 < spans.len() by {
        assert(sorted.contains(sorted[q]));
        assert(keys.to_multiset().count(sorted[q]) > 0);
        assert(keys.contains(sorted[q]));
        let p = choose|p: int| 0 <= p < keys.len() && keys[p] == sorted[q];
        assert(keys[p] == start_key(spans, list[p]));
    }
}

/// `vs` are fresh views laid out as `lay` (span, start, position).
pub open spec fn views_match(vs: Seq<SpanView>, lay: Seq<(usize, u64, usize)>) -> bool {
    &&& vs.len() == lay.len()
    &&& forall|k: int| 0 <= k < vs.len() ==> fresh_view(#[trigger] vs[k], lay[k].0, lay[k].1, lay[k].2)
}

/// `a + b`, saturating at the largest time.
pub open spec fn sat_add(a: u64, b: u64) -> u64 {
    if a + b > u64::MAX {
        u64::MAX
    } else {
        (a + b) as u64
    }
}

/// The key that orders spans longest first.
pub open spec fn duration_key(spans: Seq<Span>, x: usize) -> SortKey {
    ((UNBOUNDED - spans[x as int].duration) as u128, 0u128, x)
}

/// The children of `i`, longest first (then by index).
pub open spec fn children_by_duration(spans: Seq<Span>, i: int) -> Seq<SortKey> {
    sorted_of(spans[i].children_indices@.map_values(|x: usize| duration_key(spans, x)))
}

/// The duration layout of the subtree of `i` placed at `start`: `i` itself,
/// then its children packed left to right from `start`, longest first, each
/// with its own subtree.
pub open spec fn duration_layout(spans: Seq<Span>, i: int, start: u64, index_in_parent: usize) -> Seq<
    (usize, u64, usize),
>
    decreases spans.len() - i, 1int, 0int,
{
    if i < 0 || i >= spans.len() {
        Seq::empty()
    } else {
        seq![(i as usize, start, index_in_parent)] + children_layout(spans, i, 0, start)
    }
}

/// The layout of the children of `i` from the `k`-th longest on, starting
/// at `cursor`.
pub open spec fn children_layout(spans: Seq<Span>, i: int, k: int, cursor: u64) -> Seq<
    (usize, u64, usize),
>
    decreases spans.len() - i, 0int, spans[i].children_indices@.len() - k,
{
    if i < 0 || i >= spans.len() || k < 0 || k >= spans[i].children_indices@.len()
        || children_by_duration(spans, i).len() != spans[i].children_indices@.len() {
        Seq::empty()
    } else {
        let c = children_by_duration(spans, i)[k].2 as int;
        (if i < c < spans.len() {
            duration_layout(spans, c, cursor, k as usize)
        } else {
            Seq::empty()
        }) + children_layout(spans, i, k + 1, sat_add(cursor, spans[c].duration))
    }
}

/// Every tag of a sorted list of keys comes from `list`, when each key
/// carries its element as tag.
proof fn lemma_tags_from(list: Seq<usize>, keyf: spec_fn(usize) -> SortKey, sorted: Seq<SortKey>)
    requires
        sorted.to_multiset() == list.map_values(keyf).to_multiset(),
        forall|x: usize| #[trigger] keyf(x).2 == x,
    ensures
        sorted.len() == list.len(),
        forall|q: int| 0 <= q < sorted.len() ==> list.contains(#[trigger] sorted[q].2),
        forall|q: int| 0 <= q < sorted.len() ==> sorted[q] == keyf(#[trigger] sorted[q].2),
{
    let keys = list.map_values(keyf);
    sorted.to_multiset_ensures();
    keys.to_multiset_ensures();
    assert forall|q: int| 0 <= q < sorted.len() implies list.contains(#[trigger] sorted[q].2)
        && sorted[q] == keyf(sorted[q].2) by {
        assert(sorted.contains(sorted[q]));
        assert(keys.to_multiset().count(sorted[q]) > 0);
        assert(keys.contains(sorted[q]));
        let p = choose|p: int| 0 <= p < keys.len() && keys[p] == sorted[q];
        assert(keys[p] == keyf(list[p]));
        assert(keyf(list[p]).2 == list[p]);
    }
}

/// Appends the duration layout of the subtree of `i` (see
/// [`duration_layout`]) to `entries`.
fn visit_duration_global(
    spans: &[Span],
    i: usize,
    virtual_start: u64,
    index_in_parent: usize,
    entries: &mut Vec<SpanView>,
)
    requires
        children_after(spans@),
        i < spans@.len(),
    ensures
        final(entries)@.len() >= old(entries)@.len(),
        final(entries)@.take(old(entries)@.len() as int) == old(entries)@,
        views_match(
            final(entries)@.skip(old(entries)@.len() as int),
            duration_layout(spans@, i as int, virtual_start, index_in_parent),
        ),
    decreases spans@.len() - i,
{
    let ghost base = entries@;
    entries.push(
        SpanView {
            span_index: i,
            effective_start: virtual_start,
            index_in_parent,
            has_core_cells: false,
            was_displayed: false,
        },
    );
    let children = &spans[i].children_indices;
    let mut keys: Vec<SortKey> = Vec::new();
    let mut k: usize = 0;
    while k < children.len()
        invariant
            k <= children@.len(),
            children@ == spans@[i as int].children_indices@,
            keys@ == children@.take(k as int).map_values(|x: usize| duration_key(spans@, x)),
            children_after(spans@),
            i < spans@.len(),
        decreases children@.len() - k,
    {
        let c = children[k];
        proof {
            assert(i < c < spans@.len());
        }
        keys.push(((UNBOUNDED - spans[c].duration) as u128, 0, c));
        k = k + 1;
        proof {
            assert(keys@ =~= children@.take(k as int).map_values(|x: usize| duration_key(spans@, x)));
        }
    }
    proof {
        assert(children@.take(children@.len() as int) =~= children@);
    }
    let ghost kv = keys@;
    let sorted = sort_keys(keys);
    proof {
        lemma_sorted_of(kv, sorted@);
        lemma_tags_from(children@, |x: usize| duration_key(spans@, x), sorted@);
    }
    let ghost lay = duration_layout(spans@, i as int, virtual_start, index_in_parent);
    let ghost mut done: Seq<(usize, u64, usize)> = seq![(i, virtual_start, index_in_parent)];
    let mut cursor = virtual_start;
    let mut m: usize = 0;
    proof {
        assert forall|q: int| 0 <= q < sorted@.len() implies i < #[trigger] sorted@[q].2 < spans@.len() by {
            assert(children@.contains(sorted@[q].2));
            let p = choose|p: int| 0 <= p < children@.len() && children@[p] == sorted@[q].2;
            assert(i < spans@[i as int].children_indices@[p]);
        }
        assert(lay == done + children_layout(spans@, i as int, 0, virtual_start));
        assert(entries@.skip(base.len() as int) =~= seq![entries@.last()]);
    }
    while m < sorted.len()
        invariant
            children_after(spans@),
            i < spans@.len(),
            m <= sorted@.len(),
            sorted@ == children_by_duration(spans@, i as int),
            sorted@.len() == spans@[i as int].children_indices@.len(),
            forall|q: int| 0 <= q < sorted@.len() ==> i < #[trigger] sorted@[q].2 < spans@.len(),
            entries@.len() >= base.len(),
            entries@.take(base.len() as int) == base,
            views_match(entries@.skip(base.len() as int), done),
            done + children_layout(spans@, i as int, m as int, cursor) == lay,
        decreases sorted@.len() - m,
    {
        let c = sorted[m].2;
        let ghost before = entries@;
        let ghost sub = duration_layout(spans@, c as int, cursor, m);
        visit_duration_global(spans, c, cursor, m, entries);
        proof {
            let next = sat_add(cursor, spans@[c as int].duration);
            assert(children_layout(spans@, i as int, m as int, cursor) == sub + children_layout(
                spans@,
                i as int,
                m + 1,
                next,
            ));
            assert(entries@.take(base.len() as int) =~= before.take(base.len() as int));
            assert(entries@.skip(base.len() as int) =~= before.skip(base.len() as int) + entries@.skip(
                before.len() as int,
            ));
            assert forall|q: int| 0 <= q < (done + sub).len() implies fresh_view(
                #[trigger] entries@.skip(base.len() as int)[q],
                (done + sub)[q].0,
                (done + sub)[q].1,
                (done + sub)[q].2,
            ) by {
                if q < done.len() {
                    assert(entries@.skip(base.len() as int)[q] == before.skip(base.len() as int)[q]);
                } else {
                    assert(entries@.skip(base.len() as int)[q] == entries@.skip(before.len() as int)[q
                        - done.len()]);
                }
            }
            done = done + sub;
            assert(done + children_layout(spans@, i as int, m + 1, next) =~= lay);
        }
        cursor = cursor.saturating_add(spans[c].duration);
        m = m + 1;
    }
    proof {
        assert(children_layout(spans@, i as int, sorted@.len() as int, cursor) =~= Seq::<
            (usize, u64, usize),
        >::empty());
        assert(done =~= lay);
    }
}

/// The start-time layout of a track whose roots are `roots`: the subtree of
/// each root in turn, ordered by start time, at the root's position.
pub open spec fn start_layout(spans: Seq<Span>, roots: Seq<usize>, k: int) -> Seq<(usize, u64, usize)>
    decreases k,
{
    if k <= 0 || k > roots.len() {
        Seq::empty()
    } else {
        start_layout(spans, roots, k - 1) + subtree_by_start(spans, roots[k - 1] as int).map_values(
            |key: SortKey| (key.2, spans[key.2 as int].start_time, (k - 1) as usize),
        )
    }
}

/// The duration layout of roots taken in the order `sroots` from the `k`-th
/// on, packed from `cursor`.
pub open spec fn roots_layout(spans: Seq<Span>, sroots: Seq<SortKey>, k: int, cursor: u64) -> Seq<
    (usize, u64, usize),
>
    decreases sroots.len() - k,
{
    if k < 0 || k >= sroots.len() {
        Seq::empty()
    } else {
        let r = sroots[k].2 as int;
        duration_layout(spans, r, cursor, 0) + roots_layout(
            spans,
            sroots,
            k + 1,
            sat_add(cursor, spans[r].duration),
        )
    }
}

/// The duration layout of a track: its roots, longest first, packed from 0.
pub open spec fn duration_track(spans: Seq<Span>, roots: Seq<usize>) -> Seq<(usize, u64, usize)> {
    roots_layout(spans, sorted_of(roots.map_values(|x: usize| duration_key(spans, x))), 0, 0)
}

/// The start-time views of one track.
fn track_by_start(spans: &[Span], roots: &Vec<usize>) -> (r: Vec<SpanView>)
    requires
        children_after(spans@),
        forall|k: int| 0 <= k < roots@.len() ==> roots@[k] < spans@.len(),
    ensures
        views_match(r@, start_layout(spans@, roots@, roots@.len() as int)),
{
    let mut r: Vec<SpanView> = Vec::new();
    let mut pos: usize = 0;
    while pos < roots.len()
        invariant
            children_after(spans@),
            forall|k: int| 0 <= k < roots@.len() ==> roots@[k] < spans@.len(),
            pos <= roots@.len(),
            views_match(r@, start_layout(spans@, roots@, pos as int)),
        decreases roots@.len() - pos,
    {
        let sub = build_subtree_start_time(spans, roots[pos], pos);
        let ghost before = r@;
        let mut m: usize = 0;
        while m < sub.len()
            invariant
                m <= sub@.len(),
                r@ == before + sub@.take(m as int),
            decreases sub@.len() - m,
        {
            r.push(sub[m]);
            m = m + 1;
            proof {
                assert(sub@.take(m as int) =~= sub@.take(m - 1).push(sub@[m - 1]));
            }
        }
        proof {
            assert(sub@.take(sub@.len() as int) =~= sub@);
            let key_lay = subtree_by_start(spans@, roots@[pos as int] as int).map_values(
                |key: SortKey| (key.2, spans@[key.2 as int].start_time, pos as usize),
            );
            assert(start_layout(spans@, roots@, pos + 1) == start_layout(spans@, roots@, pos as int)
                + key_lay);
            assert forall|q: int| 0 <= q < r@.len() implies fresh_view(
                #[trigger] r@[q],
                (start_layout(spans@, roots@, pos as int) + key_lay)[q].0,
                (start_layout(spans@, roots@, pos as int) + key_lay)[q].1,
                (start_layout(spans@, roots@, pos as int) + key_lay)[q].2,
            ) by {
                if q >= before.len() {
                    assert(r@[q] == sub@[q - before.len()]);
                } else {
                    assert(r@[q] == before[q]);
                }
            }
        }
        pos = pos + 1;
    }
    r
}

/// The duration views of one track.
fn track_by_duration(spans: &[Span], roots: &Vec<usize>) -> (r: Vec<SpanView>)
    requires
        children_after(spans@),
        forall|k: int| 0 <= k < roots@.len() ==> roots@[k] < spans@.len(),
    ensures
        views_match(r@, duration_track(spans@, roots@)),
{
    let mut keys: Vec<SortKey> = Vec::new();
    let mut k: usize = 0;
    while k < roots.len()
        invariant
            k <= roots@.len(),
            forall|q: int| 0 <= q < roots@.len() ==> roots@[q] < spans@.len(),
            keys@ == roots@.take(k as int).map_values(|x: usize| duration_key(spans@, x)),
        decreases roots@.len() - k,
    {
        let x = roots[k];
        keys.push(((UNBOUNDED - spans[x].duration) as u128, 0, x));
        k = k + 1;
        proof {
            assert(keys@ =~= roots@.take(k as int).map_values(|x: usize| duration_key(spans@, x)));
        }
    }
    proof {
        assert(roots@.take(roots@.len() as int) =~= roots@);
    }
    let ghost kv = keys@;
    let sorted = sort_keys(keys);
    proof {
        lemma_sorted_of(kv, sorted@);
        lemma_tags_from(roots@, |x: usize| duration_key(spans@, x), sorted@);
        assert forall|q: int| 0 <= q < sorted@.len() implies #[trigger] sorted@[q].2 < spans@.len() by {
            assert(roots@.contains(sorted@[q].2));
        }
    }
    let ghost lay = duration_track(spans@, roots@);
    let mut views: Vec<SpanView> = Vec::new();
    let mut cursor: u64 = 0;
    let mut m: usize = 0;
    let ghost mut done: Seq<(usize, u64, usize)> = Seq::empty();
    while m < sorted.len()
        invariant
            children_after(spans@),
            m <= sorted@.len(),
            sorted@ == sorted_of(roots@.map_values(|x: usize| duration_key(spans@, x))),
            forall|q: int| 0 <= q < sorted@.len() ==> #[trigger] sorted@[q].2 < spans@.len(),
            views_match(views@, done),
            done + roots_layout(spans@, sorted@, m as int, cursor) == lay,
        decreases sorted@.len() - m,
    {
        let root = sorted[m].2;
        let ghost before = views@;
        let ghost sub = duration_layout(spans@, root as int, cursor, 0);
        visit_duration_global(spans, root, cursor, 0, &mut views);
        proof {
            let next = sat_add(cursor, spans@[root as int].duration);
            assert(roots_layout(spans@, sorted@, m as int, cursor) == sub + roots_layout(
                spans@,
                sorted@,
                m + 1,
                next,
            ));
            assert(views@ =~= before + views@.skip(before.len() as int));
            assert forall|q: int| 0 <= q < (done + sub).len() implies fresh_view(
                #[trigger] views@[q],
                (done + sub)[q].0,
                (done + sub)[q].1,
                (done + sub)[q].2,
            ) by {
                if q >= done.len() {
                    assert(views@[q] == views@.skip(before.len() as int)[q - done.len()]);
                } else {
                    assert(views@[q] == before[q]);
                }
            }
            done = done + sub;
            assert(done + roots_layout(spans@, sorted@, m + 1, next) =~= lay);
        }
        cursor = cursor.saturating_add(spans[root].duration);
        m = m + 1;
    }
    proof {
        assert(done + Seq::<(usize, u64, usize)>::empty() =~= done);
    }
    views
}

/// Views of every track in both orderings: `(by start time, by duration)`.
/// `track_roots[i]` is the list of root span indices of track `i`.
pub fn build_track_views(spans: &[Span], track_roots: &Vec<Vec<usize>>) -> (r: (
    Vec<Vec<SpanView>>,
    Vec<Vec<SpanView>>,
))
    requires
        children_after(spans@),
        forall|t: int, k: int|
            0 <= t < track_roots@.len() && 0 <= k < track_roots@[t]@.len() ==> #[trigger] track_roots@[t]@[k]
                < spans@.len(),
    ensures
        r.0@.len() == track_roots@.len(),
        r.1@.len() == track_roots@.len(),
        forall|t: int|
            0 <= t < track_roots@.len() ==> views_match(
                (#[trigger] r.0@[t])@,
                start_layout(spans@, track_roots@[t]@, track_roots@[t]@.len() as int),
            ),
        forall|t: int|
            0 <= t < track_roots@.len() ==> views_match(
                (#[trigger] r.1@[t])@,
                duration_track(spans@, track_roots@[t]@),
            ),
{
    let mut by_start: Vec<Vec<SpanView>> = Vec::new();
    let mut by_duration: Vec<Vec<SpanView>> = Vec::new();
    let mut t: usize = 0;
    while t < track_roots.len()
        invariant
            children_after(spans@),
            forall|t: int, k: int|
                0 <= t < track_roots@.len() && 0 <= k < track_roots@[t]@.len() ==> #[trigger] track_roots@[t]@[k]
                    < spans@.len(),
            t <= track_roots@.len(),
            by_start@.len() == t,
            by_duration@.len() == t,
            forall|q: int|
                0 <= q < t ==> views_match(
                    (#[trigger] by_start@[q])@,
                    start_layout(spans@, track_roots@[q]@, track_roots@[q]@.len() as int),
                ),
            forall|q: int|
                0 <= q < t ==> views_match(
                    (#[trigger] by_duration@[q])@,
                    duration_track(spans@, track_roots@[q]@),
                ),
        decreases track_roots@.len() - t,
    {
        let roots = &track_roots[t];
        proof {
            assert forall|k: int| 0 <= k < roots@.len() implies roots@[k] < spans@.len() by {
                assert(track_roots@[t as int]@[k] < spans@.len());
            }
        }
        by_start.push(track_by_start(spans, roots));
        by_duration.push(track_by_duration(spans, roots));
        t = t + 1;
    }
    (by_start, by_duration)
}

} // verus!
