use clapse::help::HelpPopup;
use clapse::keys::details_height;
use clapse::link::span_from_event;
use clapse::load::find_ninja_match;
use clapse::ninja::text_lines_of;
use clapse::paths::{join_path, path_components, strip_prefix};
use clapse::sort::sort_keys;
use clapse::span::{Args, Span, SpanType, TraceEvent};
use clapse::text::{contains_lowercase, split_words};
use clapse::view::{
    build_subtree_start_time, build_track_views, collect_subtree, get_following_span_index, HorizontalDirection,
    SpanView, UnitTrace,
};

fn node(start: u64, duration: u64, parent: Option<usize>, children: Vec<usize>) -> Span {
    Span {
        type_: SpanType::Source,
        identifier: format!("s{}", start),
        label: format!("s{}", start),
        sublabel: None,
        start_time: start,
        duration,
        parent_index: parent,
        children_indices: children,
        root_span_index: 0,
        depth: parent.map_or(0, |_| 1),
    }
}

/// Two roots; the first has children 1 (with child 2) and 3.
fn forest() -> Vec<Span> {
    vec![
        node(0, 100, None, vec![1, 3]),
        node(10, 20, Some(0), vec![2]),
        node(12, 5, Some(1), vec![]),
        node(50, 40, Some(0), vec![]),
        node(200, 10, None, vec![]),
    ]
}

fn triples(views: &[SpanView]) -> Vec<(usize, u64, usize)> {
    views.iter().map(|v| (v.span_index, v.effective_start, v.index_in_parent)).collect()
}

#[test]
fn subtrees_are_walked_depth_first_last_child_first() {
    assert_eq!(collect_subtree(&forest(), 0), vec![0, 3, 1, 2]);
    assert_eq!(collect_subtree(&forest(), 4), vec![4]);
}

#[test]
fn subtree_views_come_in_start_order() {
    let views = build_subtree_start_time(&forest(), 0, 7);
    assert_eq!(triples(&views), vec![(0, 0, 7), (1, 10, 7), (2, 12, 7), (3, 50, 7)]);
    assert!(views.iter().all(|v| !v.has_core_cells && !v.was_displayed));
}

#[test]
fn track_views_in_both_orders() {
    let (by_start, by_duration) = build_track_views(&forest(), &vec![vec![0, 4]]);
    assert_eq!(by_start.len(), 1);
    assert_eq!(
        triples(&by_start[0]),
        vec![(0, 0, 0), (1, 10, 0), (2, 12, 0), (3, 50, 0), (4, 200, 1)]
    );
    // Longest first, packed one after the other.
    assert_eq!(
        triples(&by_duration[0]),
        vec![(0, 0, 0), (3, 0, 0), (1, 40, 1), (2, 40, 0), (4, 100, 0)]
    );
}

#[test]
fn siblings_follow_each_other_within_their_parent() {
    let spans = forest();
    let (mut by_start, _) = build_track_views(&spans, &vec![vec![0, 4]]);
    for v in by_start[0].iter_mut() {
        v.was_displayed = true;
    }
    let views = &by_start[0];
    assert_eq!(get_following_span_index(&spans, views, 1, HorizontalDirection::Next), Some(3));
    assert_eq!(get_following_span_index(&spans, views, 3, HorizontalDirection::Previous), Some(1));
    assert_eq!(get_following_span_index(&spans, views, 3, HorizontalDirection::Next), None);
    // The last child of a non-root span has no next sibling.
    assert_eq!(get_following_span_index(&spans, views, 2, HorizontalDirection::Next), None);
    assert_eq!(get_following_span_index(&spans, views, 1, HorizontalDirection::Previous), None);
    assert_eq!(get_following_span_index(&spans, views, 0, HorizontalDirection::Next), None);
    // Spans that were not drawn are skipped.
    let mut hidden = views.clone();
    for v in hidden.iter_mut() {
        if v.span_index == 3 {
            v.was_displayed = false;
        }
    }
    assert_eq!(get_following_span_index(&spans, &hidden, 1, HorizontalDirection::Next), None);
}

#[test]
fn details_height_of_the_selection() {
    let spans = forest();
    assert_eq!(details_height(&spans, Some(1), 20), 4);
    assert_eq!(details_height(&spans, None, 20), 0);
    assert_eq!(details_height(&spans, Some(99), 20), 0);
}

#[test]
fn help_lists_the_common_bindings_first() {
    let popup = HelpPopup::new(vec![("x", "Do x")]);
    let entries = popup.entries();
    assert_eq!(entries.len(), 7);
    assert_eq!(entries[0], ("?", "Toggle help"));
    assert_eq!(entries[5], ("Esc", "Close help / deselect"));
    assert_eq!(entries[6], ("x", "Do x"));
}

fn event(name: Option<&str>, ph: &str, detail: Option<&str>) -> TraceEvent {
    TraceEvent {
        name: name.map(|s| s.to_string()),
        cat: None,
        ph: ph.to_string(),
        ts: 7,
        pid: 1,
        tid: 1,
        dur: Some(3),
        args: detail.map(|d| Args { detail: Some(d.to_string()) }),
    }
}

#[test]
fn complete_events_of_known_kinds_become_spans() {
    let s = span_from_event(&event(Some("Source"), "X", Some("/build/src/a.h")), "/build").unwrap();
    assert_eq!(s.type_, SpanType::Source);
    assert_eq!(s.identifier, "/build/src/a.h");
    assert_eq!(s.label, "src/a.h");
    assert_eq!(s.sublabel.as_deref(), Some("Inclusion"));
    assert_eq!((s.start_time, s.duration), (7, 3));

    let t = span_from_event(&event(Some("Frontend"), "X", None), "/build").unwrap();
    assert_eq!(t.type_, SpanType::Task);
    assert_eq!(t.label, "Frontend");
    assert_eq!(t.identifier, "");
    assert_eq!(t.sublabel, None);

    let c = span_from_event(&event(Some("InstantiateClass"), "X", Some("Foo<int>")), "/b").unwrap();
    assert_eq!((c.type_, c.sublabel.as_deref()), (SpanType::Class, Some("Instantiation")));

    assert!(span_from_event(&event(Some("Source"), "B", Some("a.h")), "/build").is_none());
    assert!(span_from_event(&event(Some("Total Frontend"), "X", None), "/build").is_none());
    assert!(span_from_event(&event(None, "X", None), "/build").is_none());
}

#[test]
fn paths_split_into_components_like_std() {
    assert_eq!(path_components("/a/b//c/"), vec![vec!['/'], vec!['a'], vec!['b'], vec!['c']]);
    assert_eq!(path_components("./x/./y"), vec![vec!['.'], vec!['x'], vec!['y']]);
    assert_eq!(join_path(&vec![vec!['/'], vec!['a'], vec!['b']]), vec!['/', 'a', '/', 'b']);
    assert_eq!(strip_prefix("/build/src/a.cpp", "/build"), Some("src/a.cpp".to_string()));
    assert_eq!(strip_prefix("/buildx/a", "/build"), None);
    assert_eq!(strip_prefix("/build", "/build/"), Some(String::new()));
}

#[test]
fn words_and_lines() {
    let words: Vec<String> = split_words("  one\ttwo \n three ").into_iter().map(|w| w.into_iter().collect()).collect();
    assert_eq!(words, vec!["one", "two", "three"]);
    let lines: Vec<String> =
        text_lines_of(&"a\nb\r\n\nc".chars().collect::<Vec<char>>()).into_iter().map(|l| l.into_iter().collect()).collect();
    assert_eq!(lines, vec!["a", "b", "", "c"]);
}

#[test]
fn lowercase_search_and_build_log_lookup() {
    assert!(contains_lowercase("Foo<(LAMBDA at x)>", "(lambda"));
    assert!(!contains_lowercase("Foo<int>", "(lambda"));
    let log = vec![
        UnitTrace { identifier: "a.cpp.o".to_string(), start_ms: 1, end_ms: 2 },
        UnitTrace { identifier: "dir/b.cpp.o".to_string(), start_ms: 3, end_ms: 4 },
    ];
    assert_eq!(find_ninja_match(&log, "/build/dir/b.cpp.o"), Some(1));
    assert_eq!(find_ninja_match(&log, "/build/c.cpp.o"), None);
}

#[test]
fn keys_sort_lexicographically() {
    let sorted = sort_keys(vec![(2, 0, 1), (1, 5, 2), (1, 5, 0), (1, 2, 9)]);
    assert_eq!(sorted, vec![(1, 2, 9), (1, 5, 0), (1, 5, 2), (2, 0, 1)]);
}
