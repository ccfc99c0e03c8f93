use clapse::link::{add_spans, link_spans};
use clapse::load::{ends_with_str, merge_units, unit_span, unit_spans};
use clapse::ninja::{parse_ninja_log, parse_u64};
use clapse::span::{Args, Span, SpanType, TraceData, TraceEvent, UNBOUNDED};
use clapse::nav::total_duration;
use clapse::view::{schedule_spans, UnitTrace};

fn make_span(type_: SpanType, identifier: &str, start: u64, duration: u64) -> Span {
    Span {
        type_,
        identifier: identifier.to_string(),
        label: identifier.to_string(),
        sublabel: None,
        start_time: start,
        duration,
        parent_index: None,
        children_indices: Vec::new(),
        root_span_index: 0,
        depth: 0,
    }
}

fn make_root_span(start: u64, duration: u64) -> Span {
    make_span(SpanType::Unit, "", start, duration)
}

fn make_spans(starts_and_durations: &[(u64, u64)]) -> Vec<Span> {
    starts_and_durations
        .iter()
        .enumerate()
        .map(|(i, &(start, dur))| {
            let mut s = make_root_span(start, dur);
            s.root_span_index = i;
            s
        })
        .collect()
}

// ── schedule_spans ──

#[test]
fn empty_input() {
    assert!(schedule_spans(&[]).is_empty());
}

#[test]
fn single_span() {
    let spans = make_spans(&[(0, 10)]);
    let tracks = schedule_spans(&spans);
    assert_eq!(tracks.len(), 1);
    assert_eq!(tracks[0], vec![0]);
}

#[test]
fn sequential_spans_fit_on_one_track() {
    let spans = make_spans(&[(0, 10), (10, 10), (20, 10)]);
    let tracks = schedule_spans(&spans);
    assert_eq!(tracks.len(), 1);
    assert_eq!(tracks[0], vec![0, 1, 2]);
}

#[test]
fn parallel_spans_get_separate_tracks() {
    let spans = make_spans(&[(0, 10), (0, 10)]);
    let tracks = schedule_spans(&spans);
    assert_eq!(tracks.len(), 2);
}

#[test]
fn interleaved_scheduling() {
    let spans = make_spans(&[(0, 10), (5, 5), (10, 10), (15, 10)]);
    let tracks = schedule_spans(&spans);
    assert_eq!(tracks.len(), 2);
    assert_eq!(tracks[0], vec![0, 2]);
    assert_eq!(tracks[1], vec![1, 3]);
}

#[test]
fn spans_without_ninja_log_are_skipped() {
    let spans = make_spans(&[(0, 10), (0, UNBOUNDED)]);
    let tracks = schedule_spans(&spans);
    assert_eq!(tracks.len(), 1);
    assert_eq!(tracks[0], vec![0]);
}

#[test]
fn scheduled_tracks_do_not_overlap() {
    let spans = make_spans(&[(3, 4), (0, 5), (5, 2), (6, 1), (7, 3), (1, 9)]);
    let tracks = schedule_spans(&spans);
    let mut seen = Vec::new();
    for track in &tracks {
        for pair in track.windows(2) {
            let a = &spans[pair[0]];
            let b = &spans[pair[1]];
            assert!(a.start_time + a.duration <= b.start_time);
        }
        seen.extend(track.iter().copied());
    }
    seen.sort();
    assert_eq!(seen, vec![0, 1, 2, 3, 4, 5]);
}

#[test]
fn child_spans_are_not_scheduled() {
    let mut spans = make_spans(&[(0, 10), (2, 3)]);
    spans[1].parent_index = Some(0);
    let tracks = schedule_spans(&spans);
    assert_eq!(tracks, vec![vec![0]]);
}

// ── link_spans ──

#[test]
fn test_link_spans_root_only() {
    let mut spans = vec![make_span(SpanType::Unit, "root", 0, UNBOUNDED)];
    link_spans(&mut spans);
    assert_eq!(spans.len(), 1);
    assert!(spans[0].children_indices.is_empty());
    assert_eq!(spans[0].depth, 0);
    assert!(spans[0].parent_index.is_none());
}

#[test]
fn test_link_spans_root_one_child() {
    let mut spans = vec![
        make_span(SpanType::Unit, "root", 0, UNBOUNDED),
        make_span(SpanType::Source, "child", 10, 5),
    ];
    link_spans(&mut spans);
    assert_eq!(spans[1].parent_index, Some(0));
    assert_eq!(spans[1].depth, 1);
    assert_eq!(spans[0].children_indices, vec![1]);
}

#[test]
fn test_link_spans_two_siblings() {
    let mut spans = vec![
        make_span(SpanType::Unit, "root", 0, UNBOUNDED),
        make_span(SpanType::Source, "child1", 10, 3),
        make_span(SpanType::Source, "child2", 15, 4),
    ];
    link_spans(&mut spans);
    assert_eq!(spans[1].parent_index, Some(0));
    assert_eq!(spans[2].parent_index, Some(0));
    assert!(spans[0].children_indices.contains(&1));
    assert!(spans[0].children_indices.contains(&2));
}

#[test]
fn test_link_spans_nested() {
    let mut spans = vec![
        make_span(SpanType::Unit, "root", 0, UNBOUNDED),
        make_span(SpanType::Source, "parent", 10, 50),
        make_span(SpanType::Class, "child", 20, 10),
    ];
    link_spans(&mut spans);
    let parent_idx = spans[2].parent_index;
    assert!(parent_idx.is_some(), "child should have a parent");
    let parent = &spans[parent_idx.unwrap()];
    assert_eq!(parent.identifier, "parent");
    assert_eq!(spans[2].depth, 2);
}

#[test]
fn test_link_spans_root_inf_duration_adjusted() {
    let mut spans = vec![
        make_span(SpanType::Unit, "root", 0, UNBOUNDED),
        make_span(SpanType::Source, "child1", 10, 5),
        make_span(SpanType::Source, "child2", 20, 8),
    ];
    link_spans(&mut spans);
    assert_eq!(spans[0].start_time, 10, "root start should be min child start");
    assert_eq!(spans[0].duration, 18, "root dur should be 28-10=18");
}

#[test]
fn test_link_spans_shift_with_unit_start() {
    let mut spans = vec![
        make_span(SpanType::Unit, "root", 1000, UNBOUNDED),
        make_span(SpanType::Source, "child", 10, 5),
    ];
    link_spans(&mut spans);
    assert_eq!(spans[1].start_time, 20);
}

#[test]
fn test_link_spans_unit_start_zero_no_shift() {
    let mut spans = vec![
        make_span(SpanType::Unit, "root", 0, 50),
        make_span(SpanType::Source, "child", 10, 5),
    ];
    link_spans(&mut spans);
    assert_eq!(spans[1].start_time, 10);
}

#[test]
fn link_orders_by_start_and_keeps_the_tree_consistent() {
    let mut spans = vec![
        make_span(SpanType::Unit, "root", 0, 100),
        make_span(SpanType::Class, "late", 40, 5),
        make_span(SpanType::Source, "outer", 10, 50),
        make_span(SpanType::Template, "inner", 12, 3),
    ];
    link_spans(&mut spans);
    let names: Vec<&str> = spans.iter().map(|s| s.identifier.as_str()).collect();
    assert_eq!(names, vec!["root", "outer", "inner", "late"]);
    for (i, s) in spans.iter().enumerate().skip(1) {
        let p = s.parent_index.unwrap();
        assert!(p < i);
        assert_eq!(s.depth, spans[p].depth + 1);
        assert!(spans[p].children_indices.contains(&i));
    }
    assert_eq!(spans[2].parent_index, Some(1));
    assert_eq!(spans[3].parent_index, Some(1));
}

#[test]
fn equal_starts_put_the_longer_span_first() {
    let mut spans = vec![
        make_span(SpanType::Unit, "root", 0, 100),
        make_span(SpanType::Template, "short", 10, 2),
        make_span(SpanType::Source, "long", 10, 20),
    ];
    link_spans(&mut spans);
    assert_eq!(spans[1].identifier, "long");
    assert_eq!(spans[2].parent_index, Some(1));
}

// ── add_spans ──

fn event(name: &str, ph: &str, ts: u64, dur: Option<u64>, detail: Option<&str>) -> TraceEvent {
    TraceEvent {
        name: Some(name.to_string()),
        cat: None,
        ph: ph.to_string(),
        ts,
        pid: 1,
        tid: 1,
        dur,
        args: Some(Args { detail: detail.map(|d| d.to_string()) }),
    }
}

#[test]
fn add_spans_keeps_complete_events_of_known_kinds() {
    let data = TraceData {
        trace_events: vec![
            event("Source", "X", 10, Some(20), Some("/build/src/a.h")),
            event("Frontend", "X", 5, Some(50), None),
            event("Source", "B", 11, None, Some("/build/src/b.h")),
            event("Unknown", "X", 12, Some(1), None),
        ],
        beginning_of_time: 0,
    };
    let mut spans = vec![make_span(SpanType::Unit, "unit", 0, 100)];
    add_spans(&mut spans, &data, "/build");
    assert_eq!(spans.len(), 3);
    assert_eq!(spans[1].type_, SpanType::Task);
    assert_eq!(spans[1].label, "Frontend");
    assert_eq!(spans[2].type_, SpanType::Source);
    assert_eq!(spans[2].label, "src/a.h");
    assert_eq!(spans[2].sublabel.as_deref(), Some("Inclusion"));
    assert_eq!(spans[2].parent_index, Some(1));
}

// ── build log ──

#[test]
fn ninja_log_keeps_latest_entry_sorted_by_start() {
    let content = "# ninja log v5\n100\t200\t0\tb.o\tx\n0\t50\t0\ta.o\tx\n# comment\n\n300\t400\t0\tb.o\tx\n";
    let traces = parse_ninja_log(content).unwrap();
    let got: Vec<(&str, u64, u64)> =
        traces.iter().map(|t| (t.identifier.as_str(), t.start_ms, t.end_ms)).collect();
    assert_eq!(got, vec![("a.o", 0, 50), ("b.o", 300, 400)]);
}

#[test]
fn ninja_log_without_header_is_refused() {
    assert!(parse_ninja_log("0\t1\t0\ta.o\n").is_none());
    assert!(parse_ninja_log("").is_none());
}

#[test]
fn ninja_log_with_bad_line_is_refused() {
    assert!(parse_ninja_log("# ninja log v5\nx\t1\t0\ta.o\n").is_none());
    assert!(parse_ninja_log("# ninja log v5\n1\t2\n").is_none());
}

#[test]
fn ninja_log_accepts_crlf_lines() {
    let traces = parse_ninja_log("# ninja log v5\r\n1\t2\t0\ta.o\r\n").unwrap();
    assert_eq!(traces.len(), 1);
    assert_eq!(traces[0].identifier, "a.o");
}

#[test]
fn parse_u64_follows_std() {
    let p = |s: &str| parse_u64(&s.chars().collect::<Vec<char>>());
    assert_eq!(p("0"), Some(0));
    assert_eq!(p("+17"), Some(17));
    assert_eq!(p("18446744073709551615"), Some(u64::MAX));
    assert_eq!(p("18446744073709551616"), None);
    assert_eq!(p(""), None);
    assert_eq!(p("+"), None);
    assert_eq!(p("-1"), None);
    assert_eq!(p("1a"), None);
}

#[test]
fn ends_with_matches_suffixes() {
    assert!(ends_with_str("/build/CMakeFiles/x.dir/a.cpp.o", "x.dir/a.cpp.o"));
    assert!(ends_with_str("abc", ""));
    assert!(!ends_with_str("a.o", "xa.o"));
}

#[test]
fn unit_span_is_placed_by_the_build_log() {
    let ninja = vec![
        UnitTrace { identifier: "other.o".to_string(), start_ms: 1, end_ms: 2 },
        UnitTrace { identifier: "dir/a.cpp.o".to_string(), start_ms: 3, end_ms: 7 },
    ];
    let s = unit_span("/build/dir/a.cpp.o", "dir/a.cpp", &ninja, 99);
    assert_eq!(s.type_, SpanType::Unit);
    assert_eq!(s.start_time, 3000);
    assert_eq!(s.duration, 4000);
    assert_eq!(s.sublabel.as_deref(), Some("Translation Unit"));
    let t = unit_span("/build/dir/b.cpp.o", "dir/b.cpp", &ninja, 99);
    assert_eq!(t.start_time, 99);
    assert_eq!(t.duration, UNBOUNDED);
}

#[test]
fn unit_spans_link_the_trace_under_the_unit() {
    let data = TraceData {
        trace_events: vec![event("Frontend", "X", 10, Some(5), None)],
        beginning_of_time: 0,
    };
    let spans = unit_spans("a.o", "a", &Vec::new(), &data, "/build");
    assert_eq!(spans.len(), 2);
    assert_eq!(spans[0].start_time, 10);
    assert_eq!(spans[0].duration, 5);
    assert_eq!(spans[1].parent_index, Some(0));
}

#[test]
fn merge_moves_indices_by_the_unit_offset() {
    let mut a0 = make_span(SpanType::Unit, "a", 0, 10);
    a0.children_indices = vec![1];
    let mut a1 = make_span(SpanType::Source, "a1", 0, 5);
    a1.parent_index = Some(0);
    let mut b0 = make_span(SpanType::Unit, "b", 0, 10);
    b0.children_indices = vec![1];
    let mut b1 = make_span(SpanType::Source, "b1", 0, 5);
    b1.parent_index = Some(0);
    let merged = merge_units(&vec![vec![a0, a1], vec![b0, b1]]);
    assert_eq!(merged.len(), 4);
    assert_eq!(merged[2].children_indices, vec![3]);
    assert_eq!(merged[3].parent_index, Some(2));
    assert_eq!(merged[3].root_span_index, 2);
    assert_eq!(merged[1].root_span_index, 0);
}

#[test]
fn every_root_of_known_duration_is_scheduled() {
    let mut spans = make_spans(&[(0, 10), (5, 10), (5, 3), (20, 1)]);
    spans.push(make_root_span(0, UNBOUNDED));
    let tracks = schedule_spans(&spans);
    let mut placed: Vec<usize> = tracks.iter().flatten().copied().collect();
    placed.sort();
    assert_eq!(placed, vec![0, 1, 2, 3]);
}

#[test]
fn timeline_ends_at_the_latest_root() {
    let mut spans = make_spans(&[(0, 10), (5, 30), (20, 1)]);
    spans.push(make_root_span(100, UNBOUNDED));
    assert_eq!(total_duration(&spans), 35);
    assert_eq!(total_duration(&[]), 0);
}
