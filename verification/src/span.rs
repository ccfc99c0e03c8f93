//! Spans: the timed, nested regions of a compilation that a trace records.
//!
//! Times are whole microseconds. A unit whose extent is not known (no build
//! log entry matched it) has the duration [`UNBOUNDED`] until its children
//! bound it.
use vstd::prelude::*;

verus! {

/// The duration of a unit whose extent is not known.
pub const UNBOUNDED: u64 = 0xffff_ffff_ffff_ffff;

/// Times read from a trace are at most this many microseconds (about 146 000
/// years), so that sums of a few of them fit in 64 bits.
pub const TIME_LIMIT: u64 = 0x4000_0000_0000_0000;

/// The kind of a span.
#[derive(PartialEq, Eq, Structural, Clone, Copy, Debug)]
pub enum SpanType {
    Unit,
    Source,
    Template,
    Class,
    Task,
}

impl SpanType {
    /// The name shown in the details badge.
    pub fn label(&self) -> (r: &'static str)
        ensures
            r@ == span_type_name(*self),
    {
        proof {
            reveal_strlit("Unit");
            reveal_strlit("Source");
            reveal_strlit("Template");
            reveal_strlit("Class");
            reveal_strlit("Task");
        }
        match self {
            SpanType::Unit => "Unit",
            SpanType::Source => "Source",
            SpanType::Template => "Template",
            SpanType::Class => "Class",
            SpanType::Task => "Task",
        }
    }

    /// Base color of this span type (Catppuccin palette), as RGB. A unit
    /// alternates between two shades of peach by its position among its
    /// siblings.
    pub fn base_rgb(&self, horizontal_index: Option<usize>) -> (r: (u8, u8, u8))
        ensures
            r == base_rgb_spec(*self, horizontal_index),
    {
        match self {
            SpanType::Unit => match horizontal_index {
                Some(i) => if i % 2 == 0 {
                    (255, 169, 127)
                } else {
                    (255, 182, 107)
                },
                None => (255, 169, 127),
            },
            SpanType::Source => (116, 199, 236),
            SpanType::Class => (203, 166, 247),
            SpanType::Template => (249, 226, 175),
            SpanType::Task => (172, 176, 190),
        }
    }
}

/// The name of a span type.
pub open spec fn span_type_name(t: SpanType) -> Seq<char> {
    match t {
        SpanType::Unit => "Unit"@,
        SpanType::Source => "Source"@,
        SpanType::Template => "Template"@,
        SpanType::Class => "Class"@,
        SpanType::Task => "Task"@,
    }
}

/// The base color of a span type.
pub open spec fn base_rgb_spec(t: SpanType, horizontal_index: Option<usize>) -> (u8, u8, u8) {
    match t {
        SpanType::Unit => match horizontal_index {
            Some(i) => if i % 2 == 0 {
                (255u8, 169u8, 127u8)
            } else {
                (255u8, 182u8, 107u8)
            },
            None => (255u8, 169u8, 127u8),
        },
        SpanType::Source => (116u8, 199u8, 236u8),
        SpanType::Class => (203u8, 166u8, 247u8),
        SpanType::Template => (249u8, 226u8, 175u8),
        SpanType::Task => (172u8, 176u8, 190u8),
    }
}

/// A timed region of a compilation.
pub struct Span {
    pub type_: SpanType,
    pub identifier: String,
    pub label: String,
    pub sublabel: Option<String>,
    /// Start, in microseconds.
    pub start_time: u64,
    /// Duration, in microseconds ([`UNBOUNDED`] when not known).
    pub duration: u64,
    pub parent_index: Option<usize>,
    pub children_indices: Vec<usize>,
    /// Global index of the root ancestor (self if root).
    pub root_span_index: usize,
    pub depth: usize,
}

/// Extra data of a trace event.
pub struct Args {
    pub detail: Option<String>,
}

impl Args {
    /// Arguments without a detail.
    pub fn default() -> (r: Args)
        ensures
            r.detail is None,
    {
        Args { detail: None }
    }
}

/// One event of a `-ftime-trace` file.
pub struct TraceEvent {
    pub name: Option<String>,
    pub cat: Option<String>,
    /// Phase: `B` (begin), `E` (end), `X` (complete), ...
    pub ph: String,
    /// Timestamp, in microseconds.
    pub ts: u64,
    pub pid: u32,
    pub tid: u32,
    /// Duration of a complete event, in microseconds.
    pub dur: Option<u64>,
    pub args: Option<Args>,
}

/// The contents of a `-ftime-trace` file.
pub struct TraceData {
    pub trace_events: Vec<TraceEvent>,
    pub beginning_of_time: u64,
}

} // verus!
