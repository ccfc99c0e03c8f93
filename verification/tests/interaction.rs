use clapse::candidates::Area;
use clapse::keys::{
    candidate_at, handle_app_key, handle_flame_key, scroll_candidates, tab_at, AppAction, FlameAction, KeyCode,
    KeyPress,
};
use clapse::nav::{
    center_track, compute_track_positions, current_match_index, fields_match, find_matches, move_selection, navigate_match,
    order_tracks, root_track_map, scroll_down, scroll_up, switch_track, track_index_for_span,
};
use clapse::search::{SearchAction, SearchKey, SearchState};
use clapse::span::{Span, SpanType};
use clapse::view::{FollowingSpanDirection, HorizontalDirection, SpanView};

/// A tab that records what the search box asks of it.
struct MockTab {
    search_query: String,
    next_match_calls: usize,
    prev_match_calls: usize,
}

impl MockTab {
    fn new() -> Self {
        MockTab { search_query: String::new(), next_match_calls: 0, prev_match_calls: 0 }
    }

    fn apply(&mut self, action: SearchAction) {
        match action {
            SearchAction::Stay => {}
            SearchAction::SetQuery(q) => self.search_query = q,
            SearchAction::NextMatch => self.next_match_calls += 1,
            SearchAction::PreviousMatch => self.prev_match_calls += 1,
        }
    }
}

fn press(state: &mut SearchState, tab: &mut MockTab, key: SearchKey) -> bool {
    let (consumed, action) = state.handle_key(key);
    tab.apply(action);
    consumed
}

// ── search box ──

#[test]
fn test_handle_key_not_visible_returns_false() {
    let mut state = SearchState::default();
    let mut tab = MockTab::new();
    assert!(!press(&mut state, &mut tab, SearchKey::Char('s')));
}

#[test]
fn test_handle_key_esc_closes() {
    let mut state = SearchState { visible: true, query: "test".into(), locked: false };
    let mut tab = MockTab::new();
    let consumed = press(&mut state, &mut tab, SearchKey::Esc);
    assert!(consumed);
    assert!(!state.visible);
    assert!(state.query.is_empty());
    assert!(!state.locked);
}

#[test]
fn test_handle_key_char_appends() {
    let mut state = SearchState { visible: true, query: String::new(), locked: false };
    let mut tab = MockTab::new();
    let consumed = press(&mut state, &mut tab, SearchKey::Char('a'));
    assert!(consumed);
    assert_eq!(state.query, "a");
    assert_eq!(tab.search_query, "a");
}

#[test]
fn test_handle_key_backspace() {
    let mut state = SearchState { visible: true, query: "ab".into(), locked: false };
    let mut tab = MockTab::new();
    let consumed = press(&mut state, &mut tab, SearchKey::Backspace);
    assert!(consumed);
    assert_eq!(state.query, "a");
    assert_eq!(tab.search_query, "a");
}

#[test]
fn test_handle_key_enter_locks() {
    let mut state = SearchState { visible: true, query: "foo".into(), locked: false };
    let mut tab = MockTab::new();
    let consumed = press(&mut state, &mut tab, SearchKey::Enter);
    assert!(consumed);
    assert!(state.locked);
}

#[test]
fn test_handle_key_locked_esc_unlocks() {
    let mut state = SearchState { visible: true, query: "foo".into(), locked: true };
    let mut tab = MockTab::new();
    let consumed = press(&mut state, &mut tab, SearchKey::Esc);
    assert!(consumed);
    assert!(!state.locked);
    assert_eq!(state.query, "foo");
}

#[test]
fn test_handle_key_locked_n_selects_next() {
    let mut state = SearchState { visible: true, query: "foo".into(), locked: true };
    let mut tab = MockTab::new();
    let consumed = press(&mut state, &mut tab, SearchKey::Char('n'));
    assert!(consumed);
    assert_eq!(tab.next_match_calls, 1);
}

#[test]
fn test_handle_key_locked_p_selects_prev() {
    let mut state = SearchState { visible: true, query: "foo".into(), locked: true };
    let mut tab = MockTab::new();
    let consumed = press(&mut state, &mut tab, SearchKey::Char('p'));
    assert!(consumed);
    assert_eq!(tab.prev_match_calls, 1);
}

#[test]
fn opening_then_escaping_restores_a_hidden_empty_box() {
    let mut state = SearchState::default();
    let mut tab = MockTab::new();
    tab.apply(state.open());
    assert!(state.visible && !state.locked && state.query.is_empty());
    press(&mut state, &mut tab, SearchKey::Char('x'));
    assert_eq!(tab.search_query, "x");
    press(&mut state, &mut tab, SearchKey::Esc);
    assert!(!state.visible && state.query.is_empty());
    assert_eq!(tab.search_query, "");
}

#[test]
fn backspace_on_empty_query_keeps_it_empty() {
    let mut state = SearchState { visible: true, query: String::new(), locked: false };
    let mut tab = MockTab::new();
    tab.search_query = "old".to_string();
    assert!(press(&mut state, &mut tab, SearchKey::Backspace));
    assert_eq!(state.query, "");
    assert_eq!(tab.search_query, "");
}

// ── search matches ──

fn span(identifier: &str, label: &str, sublabel: Option<&str>) -> Span {
    Span {
        type_: SpanType::Source,
        identifier: identifier.to_string(),
        label: label.to_string(),
        sublabel: sublabel.map(|s| s.to_string()),
        start_time: 0,
        duration: 1,
        parent_index: None,
        children_indices: Vec::new(),
        root_span_index: 0,
        depth: 0,
    }
}

#[test]
fn find_matches_ignores_case_in_all_names() {
    let spans = vec![
        span("/usr/include/Vector", "vector", None),
        span("a.cpp", "a.cpp", Some("Parsing VECTORS")),
        span("b.cpp", "b.cpp", None),
    ];
    assert_eq!(find_matches(&spans, Some("VeCtOr")), vec![0, 1]);
    assert_eq!(find_matches(&spans, Some("")), Vec::<usize>::new());
    assert_eq!(find_matches(&spans, None), Vec::<usize>::new());
}

#[test]
fn navigate_match_wraps_around() {
    let m = vec![3, 5, 9];
    assert_eq!(navigate_match(&m, Some(9), 1), Some(3));
    assert_eq!(navigate_match(&m, Some(3), -1), Some(9));
    assert_eq!(navigate_match(&m, Some(5), 1), Some(9));
    assert_eq!(navigate_match(&m, None, 1), Some(3));
    assert_eq!(navigate_match(&m, Some(4), -1), Some(9));
    assert_eq!(navigate_match(&Vec::new(), Some(4), 1), None);
    assert_eq!(current_match_index(&m, Some(5)), Some(1));
    assert_eq!(current_match_index(&m, Some(6)), None);
}

// ── tracks and selection ──

fn tree() -> Vec<Span> {
    // 0: root of track A, children 1 and 2; 3: root of track B.
    let mut s = vec![span("r0", "r0", None), span("c1", "c1", None), span("c2", "c2", None), span("r3", "r3", None)];
    s[0].duration = 10;
    s[0].children_indices = vec![1, 2];
    s[1].parent_index = Some(0);
    s[2].parent_index = Some(0);
    s[3].root_span_index = 3;
    s[3].duration = 30;
    s
}

fn view(i: usize, shown: bool) -> SpanView {
    SpanView { span_index: i, effective_start: 0, index_in_parent: 0, has_core_cells: shown, was_displayed: shown }
}

#[test]
fn tracks_are_ordered_longest_first() {
    let spans = tree();
    let ordered = order_tracks(&spans, vec![vec![0], vec![3]]);
    assert_eq!(ordered, vec![vec![3], vec![0]]);
    let map = root_track_map(&ordered, spans.len());
    assert_eq!(map, vec![Some(1), None, None, Some(0)]);
    assert_eq!(track_index_for_span(&spans, &map, 2), Some(1));
    assert_eq!(track_index_for_span(&spans, &map, 7), None);
}

#[test]
fn selection_moves_through_the_tree() {
    let spans = tree();
    let tracks = vec![vec![view(0, true), view(1, true), view(2, true)], vec![view(3, true)]];
    let map = vec![Some(0), None, None, Some(1)];
    assert_eq!(move_selection(&spans, &tracks, &map, None, FollowingSpanDirection::Next), Some(0));
    assert_eq!(move_selection(&spans, &tracks, &map, Some(0), FollowingSpanDirection::Child), Some(1));
    assert_eq!(move_selection(&spans, &tracks, &map, Some(1), FollowingSpanDirection::Next), Some(2));
    assert_eq!(move_selection(&spans, &tracks, &map, Some(2), FollowingSpanDirection::Previous), Some(1));
    assert_eq!(move_selection(&spans, &tracks, &map, Some(2), FollowingSpanDirection::Next), Some(2));
    assert_eq!(move_selection(&spans, &tracks, &map, Some(2), FollowingSpanDirection::Parent), Some(0));
    assert_eq!(move_selection(&spans, &tracks, &map, Some(0), FollowingSpanDirection::Parent), Some(0));
}

#[test]
fn switching_tracks_selects_the_first_shown_root() {
    let spans = tree();
    let tracks = vec![vec![view(0, true), view(1, true)], vec![view(3, false)]];
    let map = vec![Some(0), None, None, Some(1)];
    assert_eq!(switch_track(&spans, &tracks, &map, Some(1), HorizontalDirection::Next), Some((3, 1)));
    assert_eq!(switch_track(&spans, &tracks, &map, Some(3), HorizontalDirection::Next), Some((0, 0)));
    assert_eq!(switch_track(&spans, &tracks, &map, None, HorizontalDirection::Previous), Some((3, 1)));
    assert_eq!(switch_track(&spans, &Vec::new(), &map, None, HorizontalDirection::Next), None);
}

#[test]
fn track_rows_and_centering() {
    let rows = compute_track_positions(&vec![4, 9, 2]);
    assert_eq!(rows, vec![(0, 5), (5, 15), (15, 18)]);
    // Track 1 spans rows 5..15, centre 10; a 6-row viewport scrolls to 7.
    assert_eq!(center_track(&rows, 3, 1, 6, 0), 7);
    // Everything fits: back to the top.
    assert_eq!(center_track(&rows, 3, 2, 40, 9), 0);
    // Unknown track or no viewport: unchanged.
    assert_eq!(center_track(&rows, 3, 5, 6, 4), 4);
    assert_eq!(center_track(&rows, 3, 1, 0, 4), 4);
    // The last track cannot scroll past the end.
    assert_eq!(center_track(&rows, 3, 2, 6, 0), 12);
}

#[test]
fn mouse_scrolling_stays_in_the_content() {
    assert_eq!(scroll_up(20, 10, 2), 0);
    assert_eq!(scroll_up(20, 10, 8), 5);
    assert_eq!(scroll_down(20, 10, 8), 10);
    assert_eq!(scroll_down(20, 10, 1), 4);
    assert_eq!(scroll_down(5, 10, 0), 0);
}

// ── keys ──

fn key(code: KeyCode, ctrl: bool, alt: bool, shift: bool) -> KeyPress {
    KeyPress { code, ctrl, alt, shift }
}

#[test]
fn app_keys() {
    let k = |c: char| key(KeyCode::Char(c), false, false, false);
    assert_eq!(handle_app_key(k('q'), false, 3, 0), AppAction::Quit);
    assert_eq!(handle_app_key(key(KeyCode::Char('c'), true, false, false), false, 3, 0), AppAction::Quit);
    assert_eq!(handle_app_key(k('?'), false, 3, 0), AppAction::ToggleHelp);
    assert_eq!(handle_app_key(k('s'), false, 3, 0), AppAction::OpenSearch);
    assert_eq!(handle_app_key(key(KeyCode::Char('2'), false, true, false), false, 3, 0), AppAction::SelectTab(1));
    assert_eq!(handle_app_key(key(KeyCode::Char('3'), false, true, false), false, 2, 0), AppAction::Ignore);
    assert_eq!(handle_app_key(key(KeyCode::Char('t'), false, true, false), false, 3, 2), AppAction::SelectTab(0));
    assert_eq!(handle_app_key(k('x'), true, 3, 0), AppAction::CloseHelp);
    assert_eq!(handle_app_key(key(KeyCode::Left, false, false, false), false, 3, 0), AppAction::ToTab);
}

#[test]
fn flamegraph_keys() {
    assert_eq!(handle_flame_key(key(KeyCode::Up, true, false, false)), FlameAction::ZoomIn { fast: false });
    assert_eq!(
        handle_flame_key(key(KeyCode::Up, false, false, false)),
        FlameAction::Move(FollowingSpanDirection::Parent)
    );
    assert_eq!(handle_flame_key(key(KeyCode::PageDown, false, false, false)), FlameAction::ZoomOut { fast: true });
    assert_eq!(handle_flame_key(key(KeyCode::Left, true, false, true)), FlameAction::PanLeft { fine: true });
    assert_eq!(handle_flame_key(key(KeyCode::Char('y'), true, false, false)), FlameAction::CopyCandidates);
    assert_eq!(handle_flame_key(key(KeyCode::Char('y'), false, false, false)), FlameAction::CopyIdentifier);
    assert_eq!(
        handle_flame_key(key(KeyCode::BackTab, false, false, false)),
        FlameAction::SwitchTrack(HorizontalDirection::Previous)
    );
    assert_eq!(handle_flame_key(key(KeyCode::Esc, false, false, false)), FlameAction::ClearSelection);
}

#[test]
fn clicks_on_tabs_and_candidates() {
    let bar = Area { x: 10, y: 0, width: 60, height: 1 };
    // " Flamegraph " starts at 11 and is 12 wide; the divider is at 23.
    let lens = vec![10, 7, 9];
    assert_eq!(tab_at(bar, &lens, 11, 0), Some(0));
    assert_eq!(tab_at(bar, &lens, 22, 0), Some(0));
    assert_eq!(tab_at(bar, &lens, 23, 0), None);
    assert_eq!(tab_at(bar, &lens, 24, 0), Some(1));
    assert_eq!(tab_at(bar, &lens, 24, 1), None);
    let inner = Area { x: 50, y: 2, width: 20, height: 10 };
    assert_eq!(candidate_at(inner, 0, 55, 3), None);
    assert_eq!(candidate_at(inner, 0, 55, 4), Some(0));
    assert_eq!(candidate_at(inner, 1, 55, 7), Some(2));
    assert_eq!(candidate_at(inner, 0, 70, 7), None);
    assert_eq!(scroll_candidates(12, 10, 0, true), 1);
    assert_eq!(scroll_candidates(12, 10, 6, true), 6);
    assert_eq!(scroll_candidates(12, 10, 0, false), 0);
}

#[test]
fn next_then_previous_returns_to_the_match() {
    let matches = vec![2, 5, 9];
    for &m in &matches {
        let next = navigate_match(&matches, Some(m), 1);
        assert_eq!(navigate_match(&matches, next, -1), Some(m));
    }
    assert_eq!(navigate_match(&matches, Some(9), 1), Some(2));
}

#[test]
fn a_query_matches_any_of_the_three_names() {
    assert!(fields_match("std::vector<int>", "vector", None, "vec"));
    assert!(fields_match("a", "b", Some("instantiation"), "inst"));
    assert!(!fields_match("a", "b", None, "inst"));
    // The names are compared as given: lower-casing happens before.
    assert!(!fields_match("ABC", "x", None, "abc"));
    assert!(fields_match("x", "y", Some(""), ""));
}
