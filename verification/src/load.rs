//! Assembling the spans of a build: one unit per trace file, placed in time
//! by the build log when it has an entry for the unit, and all units merged
//! into one flat list.
use vstd::prelude::*;
use crate::link::{add_spans, linked_from, opt_chars, spans_of_trace, times_bounded, trace_times_bounded};
use crate::span::{Span, SpanType, TraceData, TIME_LIMIT, UNBOUNDED};
use crate::text::{chars_of, copy_str};
use crate::view::UnitTrace;

verus! {

broadcast use vstd::seq_lib::group_seq_properties;

/// `s` ends with `suffix`.
pub open spec fn ends_with_seq(s: Seq<char>, suffix: Seq<char>) -> bool {
    suffix.len() <= s.len() && s.skip(s.len() - suffix.len()) == suffix
}

/// Whether `s` ends with `suffix`.
pub fn ends_with_str(s: &str, suffix: &str) -> (r: bool)
    ensures
        r == ends_with_seq(s@, suffix@),
{
    let a = chars_of(s);
    let b = chars_of(suffix);
    if b.len() > a.len() {
        return false;
    }
    let off = a.len() - b.len();
    let mut i: usize = 0;
    while i < b.len()
        invariant
            a@ == s@,
            b@ == suffix@,
            off + b@.len() == a@.len(),
            a@.len() <= usize::MAX,
            i <= b@.len(),
            forall|k: int| 0 <= k < i ==> a@[off + k] == b@[k],
        decreases b@.len() - i,
    {
        if a[off + i] != b[i] {
            proof {
                assert(a@.skip(off as int)[i as int] != b@[i as int]);
            }
            return false;
        }
        i = i + 1;
    }
    proof {
        assert(a@.skip(off as int) =~= b@);
    }
    true
}

/// The first build record whose output `id` ends with, searching from `k`.
pub open spec fn ninja_match_from(ninja: Seq<UnitTrace>, id: Seq<char>, k: int) -> Option<int>
    decreases ninja.len() - k,
{
    if k < 0 || k >= ninja.len() {
        None
    } else if ends_with_seq(id, ninja[k].identifier@) {
        Some(k)
    } else {
        ninja_match_from(ninja, id, k + 1)
    }
}

/// The first build record whose output the unit `id` ends with.
pub open spec fn ninja_match(ninja: Seq<UnitTrace>, id: Seq<char>) -> Option<int> {
    ninja_match_from(ninja, id, 0)
}

/// Build records whose times, in microseconds, stay within [`TIME_LIMIT`]
/// and whose end is not before their start.
pub open spec fn ninja_bounded(ninja: Seq<UnitTrace>) -> bool {
    forall|j: int|
        0 <= j < ninja.len() ==> (#[trigger] ninja[j]).start_ms <= ninja[j].end_ms
            && ninja[j].end_ms * 1000 <= TIME_LIMIT
}

/// Start and duration of a unit: those of its build record, in
/// microseconds, or the trace's beginning and an unknown duration.
pub open spec fn unit_extent(ninja: Seq<UnitTrace>, id: Seq<char>, beginning_of_time: u64) -> (
    u64,
    u64,
) {
    match ninja_match(ninja, id) {
        Some(j) => (
            (ninja[j].start_ms * 1000) as u64,
            ((ninja[j].end_ms - ninja[j].start_ms) * 1000) as u64,
        ),
        None => (beginning_of_time, UNBOUNDED),
    }
}

/// `s` is the root span of the unit `id` named `label`.
pub open spec fn is_unit_root(
    s: Span,
    id: Seq<char>,
    label: Seq<char>,
    ninja: Seq<UnitTrace>,
    beginning_of_time: u64,
) -> bool {
    &&& s.type_ == SpanType::Unit
    &&& s.identifier@ == id
    &&& s.label@ == label
    &&& opt_chars(s.sublabel) == Some("Translation Unit"@)
    &&& (s.start_time, s.duration) == unit_extent(ninja, id, beginning_of_time)
    &&& s.parent_index is None
    &&& s.children_indices@ == Seq::<usize>::empty()
    &&& s.root_span_index == 0
    &&& s.depth == 0
}

/// The index of the first build record whose output `id` ends with.
pub fn find_ninja_match(ninja: &Vec<UnitTrace>, id: &str) -> (r: Option<usize>)
    ensures
        match r {
            Some(j) => ninja_match(ninja@, id@) == Some(j as int) && j < ninja@.len(),
            None => ninja_match(ninja@, id@) is None,
        },
{
    let mut k: usize = 0;
    while k < ninja.len()
        invariant
            k <= ninja@.len(),
            ninja_match_from(ninja@, id@, 0) == ninja_match_from(ninja@, id@, k as int),
        decreases ninja@.len() - k,
    {
        if ends_with_str(id, ninja[k].identifier.as_str()) {
            return Some(k);
        }
        k = k + 1;
    }
    None
}

/// The root span of a unit: the translation unit `identifier`, shown as
/// `label`, placed by its build record when the build log has one, else
/// starting at the trace's beginning with an unknown duration.
pub fn unit_span(identifier: &str, label: &str, ninja: &Vec<UnitTrace>, beginning_of_time: u64) -> (r:
    Span)
    requires
        ninja_bounded(ninja@),
    ensures
        is_unit_root(r, identifier@, label@, ninja@, beginning_of_time),
{
    let (start, duration) = match find_ninja_match(ninja, identifier) {
        Some(j) => {
            let nt = &ninja[j];
            proof {
                assert(ninja@[j as int] == *nt);
                assert(nt.start_ms <= nt.end_ms && nt.end_ms * 1000 <= TIME_LIMIT);
            }
            (nt.start_ms * 1000, (nt.end_ms - nt.start_ms) * 1000)
        },
        None => (beginning_of_time, UNBOUNDED),
    };
    proof {
        reveal_strlit("Translation Unit");
    }
    Span {
        type_: SpanType::Unit,
        identifier: copy_str(identifier),
        label: copy_str(label),
        sublabel: Some(copy_str("Translation Unit")),
        start_time: start,
        duration,
        parent_index: None,
        children_indices: Vec::new(),
        root_span_index: 0,
        depth: 0,
    }
}

/// The spans of one unit: its root span (see [`unit_span`]) followed by the
/// spans of its trace, linked under it.
pub fn unit_spans(
    identifier: &str,
    label: &str,
    ninja: &Vec<UnitTrace>,
    data: &TraceData,
    build_dir: &str,
) -> (r: Vec<Span>)
    requires
        ninja_bounded(ninja@),
        data.beginning_of_time <= TIME_LIMIT,
        trace_times_bounded(*data),
    ensures
        exists|root: Span, mid: Seq<Span>, perm: Seq<int>|
            is_unit_root(root, identifier@, label@, ninja@, data.beginning_of_time) && spans_of_trace(
                mid,
                seq![root],
                *data,
                build_dir@,
            ) && linked_from(mid, perm, r@),
{
    let root = unit_span(identifier, label, ninja, data.beginning_of_time);
    let ghost root_v = root;
    let mut spans: Vec<Span> = Vec::new();
    spans.push(root);
    proof {
        assert(spans@ =~= seq![root_v]);
        assert(times_bounded(spans@)) by {
            assert(spans@[0] == root_v);
            match ninja_match(ninja@, identifier@) {
                Some(j) => {
                    assert(0 <= j < ninja@.len()) by {
                        lemma_ninja_match_from(ninja@, identifier@, 0);
                    }
                    assert(ninja@[j].start_ms <= ninja@[j].end_ms);
                },
                None => {},
            }
        }
    }
    add_spans(&mut spans, data, build_dir);
    spans
}

proof fn lemma_ninja_match_from(ninja: Seq<UnitTrace>, id: Seq<char>, k: int)
    ensures
        match ninja_match_from(ninja, id, k) {
            Some(j) => k <= j < ninja.len(),
            None => true,
        },
    decreases ninja.len() - k,
{
    if 0 <= k < ninja.len() {
        lemma_ninja_match_from(ninja, id, k + 1);
    }
}


/// The views of a list of units.
pub open spec fn units_view(units: Seq<Vec<Span>>) -> Seq<Seq<Span>> {
    Seq::new(units.len(), |u: int| units[u]@)
}

/// Where unit `u` starts in the merged list: the number of spans of the
/// units before it.
pub open spec fn unit_offset(units: Seq<Seq<Span>>, u: int) -> int
    decreases u,
{
    if u <= 0 {
        0
    } else {
        unit_offset(units, u - 1) + units[u - 1].len()
    }
}

/// The total number of spans of all units.
pub open spec fn total_spans(units: Seq<Seq<Span>>) -> int {
    unit_offset(units, units.len() as int)
}

/// `r` is `s` of a unit placed at `off` in the merged list: its root is the
/// span at `off`, and its parent and children indices are moved by `off`.
pub open spec fn shifted_span(r: Span, s: Span, off: int) -> bool {
    &&& r.type_ == s.type_
    &&& r.identifier@ == s.identifier@
    &&& r.label@ == s.label@
    &&& opt_chars(r.sublabel) == opt_chars(s.sublabel)
    &&& r.start_time == s.start_time
    &&& r.duration == s.duration
    &&& r.depth == s.depth
    &&& r.root_span_index == off
    &&& r.parent_index == (match s.parent_index {
        Some(p) => Some((p + off) as usize),
        None => None,
    })
    &&& r.children_indices@ == s.children_indices@.map_values(|c: usize| (c + off) as usize)
}

/// The indices of `s`, moved by `off`, still fit in a `usize`.
pub open spec fn span_fits(s: Span, off: int) -> bool {
    &&& (s.parent_index matches Some(p) ==> p + off <= usize::MAX)
    &&& forall|c: int|
        0 <= c < s.children_indices@.len() ==> #[trigger] s.children_indices@[c] + off
            <= usize::MAX
}

/// Every index of every unit, moved by the unit's offset, fits in a `usize`.
pub open spec fn units_fit(units: Seq<Seq<Span>>) -> bool {
    forall|u: int, k: int|
        0 <= u < units.len() && 0 <= k < units[u].len() ==> span_fits(
            #[trigger] units[u][k],
            unit_offset(units, u),
        )
}

pub proof fn lemma_offset_mono(units: Seq<Seq<Span>>, u: int, v: int)
    requires
        0 <= u <= v <= units.len(),
    ensures
        unit_offset(units, u) + (if u < v {
            units[u].len() as int
        } else {
            0
        }) <= unit_offset(units, v),
        unit_offset(units, u) >= 0,
    decreases v - u,
{
    if u < v {
        lemma_offset_mono(units, u, v - 1);
        if u < v - 1 {
            lemma_offset_mono(units, u + 1, v - 1);
        }
    } else {
        lemma_offset_nonneg(units, u);
    }
}

pub proof fn lemma_offset_nonneg(units: Seq<Seq<Span>>, u: int)
    requires
        0 <= u <= units.len(),
    ensures
        unit_offset(units, u) >= 0,
    decreases u,
{
    if u > 0 {
        lemma_offset_nonneg(units, u - 1);
    }
}

/// The indices of `v`, each moved by `off`.
fn shift_indices(v: &Vec<usize>, off: usize) -> (r: Vec<usize>)
    requires
        forall|c: int| 0 <= c < v@.len() ==> #[trigger] v@[c] + off <= usize::MAX,
    ensures
        r@ == v@.map_values(|c: usize| (c + off) as usize),
{
    let mut r: Vec<usize> = Vec::new();
    let mut k: usize = 0;
    while k < v.len()
        invariant
            k <= v@.len(),
            forall|c: int| 0 <= c < v@.len() ==> #[trigger] v@[c] + off <= usize::MAX,
            r@ =~= v@.take(k as int).map_values(|c: usize| (c + off) as usize),
        decreases v@.len() - k,
    {
        r.push(v[k] + off);
        k = k + 1;
    }
    proof {
        assert(v@.take(v@.len() as int) =~= v@);
    }
    r
}

/// `s` placed at `off` in the merged list.
fn shift_span(s: &Span, off: usize) -> (r: Span)
    requires
        span_fits(*s, off as int),
    ensures
        shifted_span(r, *s, off as int),
{
    let parent_index = match s.parent_index {
        Some(p) => Some(p + off),
        None => None,
    };
    Span {
        type_: s.type_,
        identifier: s.identifier.clone(),
        label: s.label.clone(),
        sublabel: match &s.sublabel {
            Some(t) => Some(t.clone()),
            None => None,
        },
        start_time: s.start_time,
        duration: s.duration,
        parent_index,
        children_indices: shift_indices(&s.children_indices, off),
        root_span_index: off,
        depth: s.depth,
    }
}

/// Merges the spans of several units into one list: the units follow one
/// another, and the parent, children and root indices of each unit's spans
/// are moved by the number of spans before the unit.
pub fn merge_units(units: &Vec<Vec<Span>>) -> (r: Vec<Span>)
    requires
        total_spans(units_view(units@)) <= usize::MAX,
        units_fit(units_view(units@)),
    ensures
        r@.len() == total_spans(units_view(units@)),
        forall|u: int, k: int|
            0 <= u < units@.len() && 0 <= k < units@[u]@.len() ==> shifted_span(
                r@[unit_offset(units_view(units@), u) + k],
                #[trigger] units_view(units@)[u][k],
                unit_offset(units_view(units@), u),
            ),
{
    let ghost uv = units_view(units@);
    let mut out: Vec<Span> = Vec::new();
    let mut u: usize = 0;
    while u < units.len()
        invariant
            u <= units@.len(),
            uv == units_view(units@),
            total_spans(uv) <= usize::MAX,
            units_fit(uv),
            out@.len() == unit_offset(uv, u as int),
            forall|w: int, k: int|
                0 <= w < u && 0 <= k < uv[w].len() ==> shifted_span(
                    out@[unit_offset(uv, w) + k],
                    #[trigger] uv[w][k],
                    unit_offset(uv, w),
                ),
        decreases units@.len() - u,
    {
        let off = out.len();
        proof {
            lemma_offset_mono(uv, u as int, uv.len() as int);
            assert(uv[u as int] == units@[u as int]@);
        }
        let unit = &units[u];
        let mut k: usize = 0;
        while k < unit.len()
            invariant
                u < units@.len(),
                uv == units_view(units@),
                unit@ == uv[u as int],
                units_fit(uv),
                off == unit_offset(uv, u as int),
                off + unit@.len() <= usize::MAX,
                k <= unit@.len(),
                out@.len() == off + k,
                forall|w: int, k2: int|
                    0 <= w < u && 0 <= k2 < uv[w].len() ==> shifted_span(
                        out@[unit_offset(uv, w) + k2],
                        #[trigger] uv[w][k2],
                        unit_offset(uv, w),
                    ),
                forall|k2: int|
                    0 <= k2 < k ==> shifted_span(
                        out@[off + k2],
                        #[trigger] uv[u as int][k2],
                        off as int,
                    ),
            decreases unit@.len() - k,
        {
            proof {
                assert(span_fits(uv[u as int][k as int], unit_offset(uv, u as int)));
            }
            let s = shift_span(&unit[k], off);
            let ghost before = out@;
            out.push(s);
            proof {
                assert forall|w: int, k2: int|
                    0 <= w < u && 0 <= k2 < uv[w].len() implies shifted_span(
                    out@[unit_offset(uv, w) + k2],
                    #[trigger] uv[w][k2],
                    unit_offset(uv, w),
                ) by {
                    lemma_offset_mono(uv, w, u as int);
                    assert(out@[unit_offset(uv, w) + k2] == before[unit_offset(uv, w) + k2]);
                }
                assert forall|k2: int| 0 <= k2 < k + 1 implies shifted_span(
                    out@[off + k2],
                    #[trigger] uv[u as int][k2],
                    off as int,
                ) by {
                    if k2 < k {
                        assert(out@[off + k2] == before[off + k2]);
                    }
                }
            }
            k = k + 1;
        }
        proof {
            assert(unit_offset(uv, u + 1) == off + uv[u as int].len());
        }
        u = u + 1;
    }
    out
}

} // verus!
