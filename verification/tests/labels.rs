use clapse::paths::{clean_identifier, clean_path_label, clean_trace_file_path, last_n_components};
use clapse::text::{collapse_template_args, shorten_label, split_sections};

// ── last_n_components ──

#[test]
fn test_last_n_fewer_than_n() {
    // Absolute path keeps the root "/"
    assert_eq!(last_n_components("/a/b", 5), "/a/b");
}

#[test]
fn test_last_n_exactly_n() {
    assert_eq!(last_n_components("/a/b/c/d", 4), "a/b/c/d");
}

#[test]
fn test_last_n_more_than_n() {
    assert_eq!(last_n_components("/a/b/c/d/e/f", 3), "d/e/f");
}

#[test]
fn test_last_n_single_component() {
    // Absolute path keeps the root "/"
    assert_eq!(last_n_components("/file.cpp", 2), "/file.cpp");
}

// ── collapse_template_args ──

#[test]
fn test_collapse_no_templates() {
    assert_eq!(collapse_template_args("foo"), "foo");
}

#[test]
fn test_collapse_simple_template() {
    assert_eq!(collapse_template_args("std::vector<int>"), "std::vector<…>");
}

#[test]
fn test_collapse_nested() {
    let input = "std::map<int, std::string>";
    assert_eq!(collapse_template_args(input), "std::map<…>");
}

#[test]
fn test_collapse_multiple_top_level() {
    let input = "A<int>::B<float>";
    assert_eq!(collapse_template_args(input), "A<…>::B<…>");
}

#[test]
fn test_collapse_short_noop() {
    // Short strings with templates still get collapsed.
    assert_eq!(collapse_template_args("Vec<int>"), "Vec<…>");
}

// ── clean_identifier ──

#[test]
fn test_clean_identifier_short_non_path() {
    let build = "/build";
    assert_eq!(clean_identifier("foo", build), "foo");
}

#[test]
fn test_clean_identifier_long_non_path() {
    let build = "/build";
    let input = "some_very_long_identifier_that_exceeds_30_chars<int>";
    let expected = "some_very_long_identifier_that_exceeds_30_chars<…>";
    assert_eq!(clean_identifier(input, build), expected);
}

#[test]
fn test_clean_identifier_path_inside_build_dir() {
    let build = "/build";
    assert_eq!(clean_identifier("/build/src/file.cpp", build), "src/file.cpp");
}

#[test]
fn test_clean_identifier_path_outside_build_dir() {
    let build = "/build";
    let result = clean_identifier("/other/a/b/c/d/e/f/g.cpp", build);
    assert_eq!(result, "d/e/f/g.cpp");
}

// ── clean_path_label ──

#[test]
fn test_clean_path_label_inside_short() {
    let build = "/build";
    assert_eq!(clean_path_label("/build/src/a.cpp", build), "src/a.cpp");
}

#[test]
fn test_clean_path_label_inside_long() {
    let build = "/build";
    // Path has 17 chars → under 30 → returns full relative path, not truncated
    let result = clean_path_label("/build/a/b/c/d/e/f/g.cpp", build);
    assert_eq!(result, "a/b/c/d/e/f/g.cpp");
}

#[test]
fn test_clean_path_label_outside() {
    let build = "/build";
    let result = clean_path_label("/other/x/y/z/w/v/u/t/s/file.cpp", build);
    assert_eq!(result, "u/t/s/file.cpp");
}

// ── clean_trace_file_path ──

#[test]
fn test_clean_with_cmakefiles() {
    let build_dir = "../projects/opensource/clapse/build";
    let full_path =
        "../projects/opensource/clapse/build/lib/core/CMakeFiles/some_target.dir/src/awesome_file.cpp.json";
    let result = clean_trace_file_path(full_path, build_dir).unwrap();
    assert_eq!(result, "lib/core/src/awesome_file.cpp");
}

#[test]
fn test_clean_no_cmakefiles() {
    let build_dir = "/build";
    let full_path = "/build/lib/core/src/file.cpp.json";
    let result = clean_trace_file_path(full_path, build_dir).unwrap();
    assert_eq!(result, "lib/core/src/file.cpp");
}

#[test]
fn test_clean_multiple_cmakefiles() {
    let build_dir = "/build";
    let full_path = "/build/CMakeFiles/a.dir/CMakeFiles/b.dir/src/z.cpp.json";
    let result = clean_trace_file_path(full_path, build_dir).unwrap();
    // First CMakeFiles → skip "a.dir", second CMakeFiles → skip "b.dir"
    assert_eq!(result, "src/z.cpp");
}

#[test]
fn test_clean_build_dir_not_prefix() {
    let build_dir = "/build";
    let full_path = "/other/path/file.cpp.json";
    assert!(clean_trace_file_path(full_path, build_dir).is_none());
}

#[test]
fn test_clean_path_equals_build_dir() {
    let build_dir = "/build";
    let full_path = "/build";
    let result = clean_trace_file_path(full_path, build_dir).unwrap();
    assert_eq!(result, "");
}

#[test]
fn test_clean_no_extension() {
    let build_dir = "/build";
    let full_path = "/build/src/file";
    let result = clean_trace_file_path(full_path, build_dir).unwrap();
    assert_eq!(result, "src/file");
}

#[test]
fn test_clean_hidden_file() {
    let build_dir = "/build";
    let full_path = "/build/.hidden.cpp.json";
    let result = clean_trace_file_path(full_path, build_dir).unwrap();
    assert_eq!(result, ".hidden.cpp");
}

// ── split_sections ──

fn pairs(v: &[(&str, &str)]) -> Vec<(String, String)> {
    v.iter().map(|(a, b)| (a.to_string(), b.to_string())).collect()
}

#[test]
fn test_split_sections_slashes() {
    let result = split_sections("a/b/c");
    assert_eq!(result, pairs(&[("a", "/"), ("b", "/"), ("c", "")]));
}

#[test]
fn test_split_sections_namespaces() {
    let result = split_sections("std::vector");
    assert_eq!(result, pairs(&[("std", "::"), ("vector", "")]));
}

#[test]
fn test_split_sections_mixed() {
    let result = split_sections("a/b::c/d");
    assert_eq!(result, pairs(&[("a", "/"), ("b", "::"), ("c", "/"), ("d", "")]));
}

#[test]
fn test_split_sections_no_delimiter() {
    let result = split_sections("foo");
    assert_eq!(result, pairs(&[("foo", "")]));
}

#[test]
fn test_split_sections_empty() {
    let result = split_sections("");
    assert_eq!(result, pairs(&[("", "")]));
}

#[test]
fn test_split_sections_starts_with_delim() {
    let result = split_sections("::foo");
    assert_eq!(result, pairs(&[("", "::"), ("foo", "")]));
}

#[test]
fn test_split_sections_consecutive_delims() {
    let result = split_sections("a//b");
    assert_eq!(result, pairs(&[("a", "/"), ("", "/"), ("b", "")]));
}

// ── shorten_label ──

#[test]
fn test_shorten_fits() {
    assert_eq!(shorten_label("hello", 10), "hello");
}

#[test]
fn test_shorten_exact_fit() {
    assert_eq!(shorten_label("hello", 5), "hello");
}

#[test]
fn test_shorten_w_zero() {
    assert_eq!(shorten_label("hello", 0), "");
}

#[test]
fn test_shorten_single_section() {
    // "verylong" = 8 chars, w=4 → "ver…"
    assert_eq!(shorten_label("verylong", 4), "ver…");
}

#[test]
fn test_shorten_multi_section_remove_first() {
    // w=6: remove "a/", then "b/" still too long, then "c/" fits with 1 prefix char
    assert_eq!(shorten_label("a/b/c/d/e", 6), "c…/d/e");
}

#[test]
fn test_shorten_too_narrow() {
    assert_eq!(shorten_label("a/b/c", 1), "…");
}

#[test]
fn test_shorten_long_path() {
    // Realistic case: long path, enough room for last 2 components
    let label = "lib/core/src/utils/string_helpers.cpp";
    let result = shorten_label(label, 20);
    assert!(result.chars().count() <= 20);
    assert!(result.ends_with("string_helpers.cpp"));
    assert!(result.contains('…'));
}
