use clapse::candidates::{
    build_identifiers_of, build_includes_of, compute_extern_candidates, compute_pch_candidates, span_label_for_identifier, Area,
    PchCandidate, PchCandidatesWidget,
};
use clapse::keys::required_height;
use clapse::sources::aggregate_sources;
use clapse::span::{Span, SpanType};
use clapse::templates::{
    aggregate_templates, build_wildcard_identifier, concrete_identifier, is_instantiation, is_root_instantiation,
    parse_template_identifier,
};
use clapse::text::{base64_encode, wrap_text};

fn raw(
    type_: SpanType,
    identifier: &str,
    sublabel: Option<&str>,
    duration: u64,
    parent_index: Option<usize>,
    root_span_index: usize,
) -> Span {
    Span {
        type_,
        identifier: identifier.to_string(),
        label: identifier.to_string(),
        sublabel: sublabel.map(|s| s.to_string()),
        start_time: 0,
        duration,
        parent_index,
        children_indices: Vec::new(),
        root_span_index,
        depth: 0,
    }
}

fn strings(v: &[&str]) -> Vec<String> {
    v.iter().map(|s| s.to_string()).collect()
}

// ── Sources ──

fn source_trace() -> Vec<Span> {
    vec![
        raw(SpanType::Unit, "u1", None, 100, None, 0),
        raw(SpanType::Source, "a.h", None, 30, Some(0), 0),
        raw(SpanType::Source, "b.h", None, 10, Some(1), 0),
        raw(SpanType::Unit, "u2", None, 100, None, 3),
        raw(SpanType::Source, "a.h", None, 20, Some(3), 3),
        raw(SpanType::Source, "c.h", None, 5, Some(3), 3),
        raw(SpanType::Template, "f<int>", Some("Instantiation"), 1, Some(4), 3),
    ]
}

#[test]
fn sources_are_summed_per_inclusion_path() {
    let (spans, counts) = aggregate_sources(&source_trace());
    assert_eq!(spans.len(), 3);
    assert_eq!(counts, vec![2, 1, 1]);

    let ids: Vec<&str> = spans.iter().map(|s| s.identifier.as_str()).collect();
    assert_eq!(ids, vec!["a.h", "c.h", "b.h"]);

    assert_eq!((spans[0].start_time, spans[0].duration), (0, 50));
    assert_eq!((spans[1].start_time, spans[1].duration), (50, 5));
    assert_eq!((spans[2].start_time, spans[2].duration), (0, 10));

    assert_eq!(spans[0].parent_index, None);
    assert_eq!(spans[1].parent_index, None);
    assert_eq!(spans[2].parent_index, Some(0));
    assert_eq!(spans[0].children_indices, vec![2]);
    assert!(spans[1].children_indices.is_empty());
    assert_eq!(
        spans.iter().map(|s| (s.depth, s.root_span_index)).collect::<Vec<_>>(),
        vec![(0, 0), (0, 1), (1, 0)]
    );
    assert!(spans.iter().all(|s| s.type_ == SpanType::Source));
}

#[test]
fn sources_of_a_trace_without_includes_are_empty() {
    let trace = vec![raw(SpanType::Unit, "u", None, 10, None, 0)];
    let (spans, counts) = aggregate_sources(&trace);
    assert!(spans.is_empty());
    assert!(counts.is_empty());
}

#[test]
fn pch_candidates_need_more_than_one_unit() {
    let (spans, counts) = aggregate_sources(&source_trace());
    let (cands, lists) = compute_pch_candidates(&spans, &counts);
    assert_eq!(cands.len(), 1);
    assert_eq!(cands[0].identifier, "a.h");
    assert_eq!(cands[0].label, "a.h");
    assert_eq!(cands[0].total_duration, 50);
    assert_eq!(cands[0].count, 2);
    assert_eq!(lists, vec![vec![0]]);
}

#[test]
fn pch_candidates_group_by_file_and_rank_by_total() {
    let mut spans = vec![
        raw(SpanType::Source, "x.h", None, 5, None, 0),
        raw(SpanType::Source, "y.h", None, 40, None, 1),
        raw(SpanType::Source, "x.h", None, 50, Some(1), 1),
        raw(SpanType::Source, "z.h", None, 70, None, 3),
    ];
    spans[1].children_indices = vec![2];
    spans[0].label = "first x".to_string();
    let counts = vec![1, 3, 2, 1];
    let (cands, lists) = compute_pch_candidates(&spans, &counts);
    let got: Vec<(&str, &str, u64, usize)> = cands
        .iter()
        .map(|c| (c.identifier.as_str(), c.label.as_str(), c.total_duration, c.count))
        .collect();
    assert_eq!(got, vec![("x.h", "first x", 55, 3), ("y.h", "y.h", 40, 3)]);
    assert_eq!(lists, vec![vec![0, 2], vec![1]]);
}

#[test]
fn at_most_ten_candidates_are_kept() {
    let mut spans = Vec::new();
    let mut counts = Vec::new();
    for i in 0..12u64 {
        spans.push(raw(SpanType::Source, &format!("f{}.h", i), None, 100 + i, None, 0));
        counts.push(2);
    }
    let (cands, lists) = compute_pch_candidates(&spans, &counts);
    assert_eq!(cands.len(), 10);
    assert_eq!(lists.len(), 10);
    assert_eq!(cands[0].identifier, "f11.h");
    assert_eq!(cands[9].identifier, "f2.h");
    assert!(cands.windows(2).all(|w| w[0].total_duration >= w[1].total_duration));
}

#[test]
fn label_lookup_falls_back_to_the_identifier() {
    let mut spans = source_trace();
    spans[1].label = "A".to_string();
    assert_eq!(span_label_for_identifier(&spans, "a.h"), "A");
    assert_eq!(span_label_for_identifier(&spans, "nope.h"), "nope.h");
}

#[test]
fn includes_use_angle_brackets_for_system_headers() {
    let cands = vec![
        PchCandidate::new("/usr/include/stdio.h".to_string(), "stdio.h".to_string(), 10, 2),
        PchCandidate::new("/home/me/include/x.h".to_string(), "x.h".to_string(), 9, 2),
        PchCandidate::new("src/util.h".to_string(), "src/util.h".to_string(), 8, 2),
        PchCandidate::new("usr/include/y.h".to_string(), "y.h".to_string(), 7, 2),
    ];
    assert_eq!(
        build_includes_of(&cands),
        "#include <stdio.h>\n#include <x.h>\n#include \"src/util.h\"\n#include \"y.h\""
    );
    let widget = PchCandidatesWidget { candidates: &cands, scroll_offset: 0, selected_index: None, copy_confirmed: false };
    assert_eq!(widget.build_includes(), build_includes_of(&cands));
    assert_eq!(build_includes_of(&[]), "");
}

#[test]
fn includes_list_only_the_first_ten() {
    let cands: Vec<PchCandidate> =
        (0..11).map(|i| PchCandidate::new(format!("h{}", i), format!("h{}", i), 1, 2)).collect();
    let text = build_includes_of(&cands);
    assert_eq!(text.lines().count(), 10);
    assert!(text.ends_with("#include \"h9\""));
}

#[test]
fn copy_button_hit_box() {
    let area = Area { x: 10, y: 5, width: 40, height: 20 };
    let idle = PchCandidatesWidget { candidates: &[], scroll_offset: 0, selected_index: None, copy_confirmed: false };
    // Button spans columns 10 + 40 - 19 = 31 up to 48, on row 6.
    assert!(!idle.hit_copy_button(area, 30, 6));
    assert!(idle.hit_copy_button(area, 31, 6));
    assert!(idle.hit_copy_button(area, 48, 6));
    assert!(!idle.hit_copy_button(area, 49, 6));
    assert!(!idle.hit_copy_button(area, 40, 5));
    let copied = PchCandidatesWidget { candidates: &[], scroll_offset: 0, selected_index: None, copy_confirmed: true };
    // Narrower button: columns 37 up to 48.
    assert!(!copied.hit_copy_button(area, 36, 6));
    assert!(copied.hit_copy_button(area, 37, 6));
}

// ── Templates ──

#[test]
fn template_identifiers_split_into_name_and_arguments() {
    assert_eq!(
        parse_template_identifier("std::map<int, std::string>"),
        ("std::map".to_string(), strings(&["int", "std::string"]))
    );
    assert_eq!(parse_template_identifier("foo"), ("foo".to_string(), vec![]));
    assert_eq!(parse_template_identifier("a>b<"), ("a>b<".to_string(), vec![]));
    assert_eq!(parse_template_identifier("f<>"), ("f".to_string(), strings(&[""])));
    assert_eq!(
        parse_template_identifier("v<  a ,b>"),
        ("v".to_string(), strings(&["a", "b"]))
    );
}

#[test]
fn concrete_and_wildcard_identifiers() {
    assert_eq!(concrete_identifier("std::map", &strings(&["int", "std::string"])), "std::map<int, std::string>");
    assert_eq!(concrete_identifier("std::map", &vec![]), "std::map");
    assert_eq!(build_wildcard_identifier("f", &strings(&["int"]), 3), "f<int, *, *>");
    assert_eq!(build_wildcard_identifier("f", &vec![], 2), "f<*, *>");
    assert_eq!(build_wildcard_identifier("f", &vec![], 0), "f");
}

fn template_trace() -> Vec<Span> {
    vec![
        raw(SpanType::Unit, "u1", None, 100, None, 0),
        raw(SpanType::Template, "std::vector<int>", Some("Instantiation"), 30, Some(0), 0),
        raw(SpanType::Template, "std::vector<float>", Some("Instantiation"), 20, Some(0), 0),
        raw(SpanType::Unit, "u2", None, 100, None, 3),
        raw(SpanType::Template, "std::vector<int>", Some("Instantiation"), 10, Some(3), 3),
        raw(SpanType::Class, "Foo", Some("Instantiation"), 5, Some(4), 3),
        raw(SpanType::Template, "helper<int>", Some("Definition"), 7, Some(3), 3),
    ]
}

#[test]
fn root_instantiations_are_the_tops_of_chains() {
    let trace = template_trace();
    assert!(is_instantiation(&trace[1]));
    assert!(!is_instantiation(&trace[6]));
    assert!(is_root_instantiation(&trace, 1));
    assert!(is_root_instantiation(&trace, 4));
    assert!(!is_root_instantiation(&trace, 5));
    assert!(!is_root_instantiation(&trace, 6));
    assert!(!is_root_instantiation(&trace, 0));
}

#[test]
fn templates_group_instantiations_under_a_wildcard() {
    let (spans, counts) = aggregate_templates(&template_trace());
    let ids: Vec<&str> = spans.iter().map(|s| s.identifier.as_str()).collect();
    assert_eq!(ids, vec!["std::vector<*>", "std::vector<int>", "std::vector<float>"]);
    assert_eq!(counts, vec![3, 2, 1]);
    assert_eq!(
        spans.iter().map(|s| (s.start_time, s.duration)).collect::<Vec<_>>(),
        vec![(0, 60), (0, 40), (40, 20)]
    );
    assert_eq!(
        spans.iter().map(|s| (s.parent_index, s.depth, s.root_span_index)).collect::<Vec<_>>(),
        vec![(None, 0, 0), (Some(0), 1, 0), (Some(0), 1, 0)]
    );
    assert_eq!(spans[0].children_indices, vec![1, 2]);
    assert!(spans.iter().all(|s| s.sublabel.as_deref() == Some("Instantiation")));
    assert!(spans.iter().all(|s| s.label == s.identifier));
}

#[test]
fn templates_with_several_argument_counts_share_a_bare_parent() {
    let trace = vec![
        raw(SpanType::Unit, "u1", None, 100, None, 0),
        raw(SpanType::Template, "tuple<int>", Some("Instantiation"), 8, Some(0), 0),
        raw(SpanType::Template, "tuple<int, char>", Some("Instantiation"), 12, Some(0), 0),
        raw(SpanType::Class, "solo<long>", Some("Instantiation"), 3, Some(0), 0),
    ];
    let (spans, counts) = aggregate_templates(&trace);
    let ids: Vec<&str> = spans.iter().map(|s| s.identifier.as_str()).collect();
    assert_eq!(ids, vec!["tuple", "tuple<int, char>", "tuple<int>", "solo<long>"]);
    assert_eq!(counts, vec![2, 1, 1, 1]);
    assert_eq!(
        spans.iter().map(|s| (s.start_time, s.duration)).collect::<Vec<_>>(),
        vec![(0, 20), (0, 12), (12, 8), (20, 3)]
    );
    assert_eq!(spans[0].children_indices, vec![1, 2]);
    assert_eq!(spans[0].type_, SpanType::Template);
    assert_eq!(spans[3].type_, SpanType::Class);
    assert_eq!(
        spans.iter().map(|s| (s.parent_index, s.depth)).collect::<Vec<_>>(),
        vec![(None, 0), (Some(0), 1), (Some(0), 1), (None, 0)]
    );
}

#[test]
fn extern_candidates_are_repeated_leaves() {
    let (spans, counts) = aggregate_templates(&template_trace());
    let (cands, lists) = compute_extern_candidates(&spans, &counts);
    assert_eq!(cands.len(), 1);
    assert_eq!(cands[0].identifier, "std::vector<int>");
    assert_eq!(cands[0].total_duration, 40);
    assert_eq!(cands[0].count, 2);
    assert_eq!(lists, vec![vec![1]]);
}

#[test]
fn extern_candidates_skip_lambdas() {
    let spans = vec![
        raw(SpanType::Template, "f<(LAMBDA at a.cpp:1)>", Some("Instantiation"), 50, None, 0),
        raw(SpanType::Template, "g<int>", Some("Instantiation"), 10, None, 1),
    ];
    let (cands, _) = compute_extern_candidates(&spans, &[2, 2]);
    assert_eq!(cands.len(), 1);
    assert_eq!(cands[0].identifier, "g<int>");
}

// ── Text ──

#[test]
fn base64_matches_the_standard_alphabet() {
    assert_eq!(base64_encode(""), "");
    assert_eq!(base64_encode("M"), "TQ==");
    assert_eq!(base64_encode("Ma"), "TWE=");
    assert_eq!(base64_encode("Man"), "TWFu");
    assert_eq!(base64_encode("hello"), "aGVsbG8=");
    assert_eq!(base64_encode("#include <a>"), "I2luY2x1ZGUgPGE+");
    assert_eq!(base64_encode("é"), "w6k=");
    // Four characters of output for every three bytes of input, rounded up.
    for s in ["", "a", "ab", "abc", "abcd", "abcdefg"] {
        assert_eq!(base64_encode(s).len(), 4 * ((s.len() + 2) / 3));
    }
}

#[test]
fn wrapping_breaks_between_words() {
    assert_eq!(wrap_text("the quick brown fox", 10), vec!["the quick", "brown fox"]);
    assert_eq!(wrap_text("  spaced   out  ", 20), vec!["spaced out"]);
    assert_eq!(wrap_text("", 5), vec![""]);
    assert_eq!(wrap_text("anything", 0), Vec::<String>::new());
}

#[test]
fn wrapping_hard_wraps_a_long_first_word() {
    assert_eq!(wrap_text("abcdefghij", 4), vec!["abcd", "efgh", "ij"]);
    assert_eq!(wrap_text("abcdefghij k", 4), vec!["abcd", "efgh", "ij k"]);
    // A long word after others is moved to its own line, not cut.
    assert_eq!(wrap_text("ab abcdefgh", 5), vec!["ab", "abcdefgh"]);
}

#[test]
fn wrapped_lines_fit_when_words_do() {
    let text = "lorem ipsum dolor sit amet consectetur adipiscing elit";
    for width in 11..30 {
        for line in wrap_text(text, width) {
            assert!(line.chars().count() <= width);
        }
    }
}

#[test]
fn details_height_counts_wrapped_rows() {
    let mut s = raw(SpanType::Source, "foo", None, 1, None, 0);
    assert_eq!(required_height(&s, 20), 4);
    assert_eq!(required_height(&s, 3), 3);
    s.identifier = "bar".to_string();
    s.sublabel = Some("Instantiation".to_string());
    assert_eq!(required_height(&s, 20), 6);
    s.label = "one two three four".to_string();
    // Inner width 8: "one two" / "three" / "four".
    assert_eq!(required_height(&s, 10), 3 + 3 + 1 + 2);
}

// ── Colors ──

#[test]
fn test_get_color_unit_default() {
    assert_eq!(SpanType::Unit.base_rgb(None), (255, 169, 127));
}

#[test]
fn test_get_color_unit_even_index() {
    assert_eq!(SpanType::Unit.base_rgb(Some(0)), (255, 169, 127));
}

#[test]
fn test_get_color_unit_odd_index() {
    assert_eq!(SpanType::Unit.base_rgb(Some(1)), (255, 182, 107));
}

#[test]
fn test_get_color_non_unit_no_depth() {
    assert_eq!(SpanType::Source.base_rgb(None), (116, 199, 236));
}

#[test]
fn every_source_span_is_counted_once() {
    let trace = source_trace();
    let (_, counts) = aggregate_sources(&trace);
    let sources = trace.iter().filter(|s| s.type_ == SpanType::Source).count();
    assert_eq!(counts.iter().sum::<usize>(), sources);
}

#[test]
fn extern_candidates_copy_as_identifiers() {
    let cands: Vec<PchCandidate> =
        (0..12).map(|i| PchCandidate::new(format!("f<{}>", i), format!("l{}", i), 1, 2)).collect();
    let text = build_identifiers_of(&cands);
    assert_eq!(text.lines().count(), 10);
    assert!(text.starts_with("f<0>\nf<1>\n"));
    assert!(text.ends_with("f<9>"));
    assert_eq!(build_identifiers_of(&cands[..1]), "f<0>");
    assert_eq!(build_identifiers_of(&[]), "");
}

#[test]
fn concrete_identifiers_split_back() {
    let args = strings(&["int", "std::vector<char>", "3"]);
    let id = concrete_identifier("std::tuple", &args);
    assert_eq!(id, "std::tuple<int, std::vector<char>, 3>");
    assert_eq!(parse_template_identifier(&id), ("std::tuple".to_string(), args));
}

#[test]
fn sections_are_cut_only_at_delimiters() {
    let secs = clapse::text::split_sections("a::b/c:d");
    let seps: Vec<&str> = secs.iter().map(|(_, d)| d.as_str()).collect();
    assert_eq!(seps, vec!["::", "/", ""]);
    assert!(secs.iter().all(|(s, _)| !s.contains('/') && !s.contains("::")));
}
