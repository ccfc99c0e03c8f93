//! What the keys and clicks of the viewer do: each input becomes one
//! action, which the event loop then performs.
use vstd::prelude::*;
use crate::candidates::Area;
use crate::span::Span;
use crate::text::{wrapped, wrap_text};
use crate::view::{FollowingSpanDirection, HorizontalDirection};

verus! {

/// A key as the viewer sees it.
#[derive(PartialEq, Eq, Structural, Clone, Copy, Debug)]
pub enum KeyCode {
    Char(char),
    Up,
    Down,
    Left,
    Right,
    PageUp,
    PageDown,
    Esc,
    Tab,
    BackTab,
    Other,
}

/// A key press with its modifiers.
#[derive(PartialEq, Eq, Structural, Clone, Copy, Debug)]
pub struct KeyPress {
    pub code: KeyCode,
    pub ctrl: bool,
    pub alt: bool,
    pub shift: bool,
}

/// What a key does at the level of the whole viewer.
#[derive(PartialEq, Eq, Structural, Clone, Copy, Debug)]
pub enum AppAction {
    Quit,
    ToggleHelp,
    OpenSearch,
    SelectTab(usize),
    CloseHelp,
    /// Nothing happens.
    Ignore,
    /// The current tab handles the key.
    ToTab,
}

/// The viewer's action for a key the search box did not consume.
pub open spec fn app_action(key: KeyPress, show_help: bool, n_tabs: usize, current: usize) -> AppAction {
    match key.code {
        KeyCode::Char(c) => if c == 'q' || c == 'Q' {
            AppAction::Quit
        } else if (c == 'c' || c == 'C') && key.ctrl {
            AppAction::Quit
        } else if c == '?' {
            AppAction::ToggleHelp
        } else if c == 's' || c == 'S' {
            AppAction::OpenSearch
        } else if (c == '1' || c == '2' || c == '3') && key.alt {
            let idx: usize = if c == '1' {
                0
            } else if c == '2' {
                1
            } else {
                2
            };
            if idx < n_tabs {
                AppAction::SelectTab(idx)
            } else {
                AppAction::Ignore
            }
        } else if (c == 't' || c == 'T') && key.alt {
            AppAction::SelectTab(((current + 1) % (n_tabs as int)) as usize)
        } else if show_help {
            AppAction::CloseHelp
        } else {
            AppAction::ToTab
        },
        _ => if show_help {
            AppAction::CloseHelp
        } else {
            AppAction::ToTab
        },
    }
}

/// The viewer's action for a key the search box did not consume: `q` or
/// `Ctrl+C` quits, `?` toggles the help, `s` opens the search, `Alt+1..3`
/// and `Alt+T` change tabs; any other key closes the help, or goes to the
/// current tab.
pub fn handle_app_key(key: KeyPress, show_help: bool, n_tabs: usize, current: usize) -> (r: AppAction)
    requires
        n_tabs > 0,
        current < n_tabs,
    ensures
        r == app_action(key, show_help, n_tabs, current),
{
    match key.code {
        KeyCode::Char(c) => {
            if c == 'q' || c == 'Q' {
                AppAction::Quit
            } else if (c == 'c' || c == 'C') && key.ctrl {
                AppAction::Quit
            } else if c == '?' {
                AppAction::ToggleHelp
            } else if c == 's' || c == 'S' {
                AppAction::OpenSearch
            } else if (c == '1' || c == '2' || c == '3') && key.alt {
                let idx: usize = if c == '1' {
                    0
                } else if c == '2' {
                    1
                } else {
                    2
                };
                if idx < n_tabs {
                    AppAction::SelectTab(idx)
                } else {
                    AppAction::Ignore
                }
            } else if (c == 't' || c == 'T') && key.alt {
                let next: usize = if current + 1 == n_tabs {
                    0
                } else {
                    current + 1
                };
                proof {
                    assert(next == (current + 1) % (n_tabs as int)) by (nonlinear_arith)
                        requires
                            current < n_tabs,
                            next == if current + 1 == n_tabs {
                                0
                            } else {
                                current + 1
                            },
                    ;
                }
                AppAction::SelectTab(next)
            } else if show_help {
                AppAction::CloseHelp
            } else {
                AppAction::ToTab
            }
        },
        _ => if show_help {
            AppAction::CloseHelp
        } else {
            AppAction::ToTab
        },
    }
}

/// What a key does in a flamegraph.
#[derive(PartialEq, Eq, Structural, Clone, Copy, Debug)]
pub enum FlameAction {
    /// Zoom in, fast (`PageUp`) or by a small step.
    ZoomIn { fast: bool },
    ZoomOut { fast: bool },
    /// Pan, by a small step with `Shift`.
    PanLeft { fine: bool },
    PanRight { fine: bool },
    Move(FollowingSpanDirection),
    ResetZoom,
    ZoomToSelected,
    ClearSelection,
    SwitchTrack(HorizontalDirection),
    CopyIdentifier,
    /// `Ctrl+Y`: copy the candidates (in tabs that have them).
    CopyCandidates,
    ToggleSortMode,
    Ignore,
}

/// The flamegraph action of a key.
pub open spec fn flame_action(key: KeyPress) -> FlameAction {
    match key.code {
        KeyCode::Up => if key.ctrl {
            FlameAction::ZoomIn { fast: false }
        } else {
            FlameAction::Move(FollowingSpanDirection::Parent)
        },
        KeyCode::Down => if key.ctrl {
            FlameAction::ZoomOut { fast: false }
        } else {
            FlameAction::Move(FollowingSpanDirection::Child)
        },
        KeyCode::PageUp => FlameAction::ZoomIn { fast: true },
        KeyCode::PageDown => FlameAction::ZoomOut { fast: true },
        KeyCode::Left => if key.ctrl {
            FlameAction::PanLeft { fine: key.shift }
        } else {
            FlameAction::Move(FollowingSpanDirection::Previous)
        },
        KeyCode::Right => if key.ctrl {
            FlameAction::PanRight { fine: key.shift }
        } else {
            FlameAction::Move(FollowingSpanDirection::Next)
        },
        KeyCode::Char(c) => if c == '+' || c == '=' {
            FlameAction::ZoomIn { fast: false }
        } else if c == '-' {
            FlameAction::ZoomOut { fast: false }
        } else if c == 'r' {
            FlameAction::ResetZoom
        } else if c == ' ' {
            FlameAction::ZoomToSelected
        } else if c == 'y' && key.ctrl {
            FlameAction::CopyCandidates
        } else if c == 'y' {
            FlameAction::CopyIdentifier
        } else if c == 'm' {
            FlameAction::ToggleSortMode
        } else {
            FlameAction::Ignore
        },
        KeyCode::Esc => FlameAction::ClearSelection,
        KeyCode::Tab => FlameAction::SwitchTrack(HorizontalDirection::Next),
        KeyCode::BackTab => FlameAction::SwitchTrack(HorizontalDirection::Previous),
        KeyCode::Other => FlameAction::Ignore,
    }
}

/// The flamegraph action of a key: arrows move the selection (with `Ctrl`,
/// zoom or pan), `+`/`-`/`PageUp`/`PageDown` zoom, `r` resets the zoom,
/// `Space` zooms to the selection, `Esc` clears it, `Tab` switches tracks,
/// `y` copies the identifier (`Ctrl+Y` the candidates), `m` toggles the
/// sort mode.
pub fn handle_flame_key(key: KeyPress) -> (r: FlameAction)
    ensures
        r == flame_action(key),
{
    match key.code {
        KeyCode::Up => if key.ctrl {
            FlameAction::ZoomIn { fast: false }
        } else {
            FlameAction::Move(FollowingSpanDirection::Parent)
        },
        KeyCode::Down => if key.ctrl {
            FlameAction::ZoomOut { fast: false }
        } else {
            FlameAction::Move(FollowingSpanDirection::Child)
        },
        KeyCode::PageUp => FlameAction::ZoomIn { fast: true },
        KeyCode::PageDown => FlameAction::ZoomOut { fast: true },
        KeyCode::Left => if key.ctrl {
            FlameAction::PanLeft { fine: key.shift }
        } else {
            FlameAction::Move(FollowingSpanDirection::Previous)
        },
        KeyCode::Right => if key.ctrl {
            FlameAction::PanRight { fine: key.shift }
        } else {
            FlameAction::Move(FollowingSpanDirection::Next)
        },
        KeyCode::Char(c) => if c == '+' || c == '=' {
            FlameAction::ZoomIn { fast: false }
        } else if c == '-' {
            FlameAction::ZoomOut { fast: false }
        } else if c == 'r' {
            FlameAction::ResetZoom
        } else if c == ' ' {
            FlameAction::ZoomToSelected
        } else if c == 'y' && key.ctrl {
            FlameAction::CopyCandidates
        } else if c == 'y' {
            FlameAction::CopyIdentifier
        } else if c == 'm' {
            FlameAction::ToggleSortMode
        } else {
            FlameAction::Ignore
        },
        KeyCode::Esc => FlameAction::ClearSelection,
        KeyCode::Tab => FlameAction::SwitchTrack(HorizontalDirection::Next),
        KeyCode::BackTab => FlameAction::SwitchTrack(HorizontalDirection::Previous),
        KeyCode::Other => FlameAction::Ignore,
    }
}

// ---------------------------------------------------------------------------
// Clicks
// ---------------------------------------------------------------------------

/// The tab under column `col` of the tab bar drawn at `x`: each label
/// takes its length plus two cells of padding, after one cell of padding,
/// with one cell of divider between labels.
pub open spec fn tab_at_from(label_lens: Seq<usize>, col: int, cur: int, i: int) -> Option<usize>
    decreases label_lens.len() - i,
{
    if i < 0 || i >= label_lens.len() {
        None
    } else {
        let w = label_lens[i] + 2;
        if cur <= col < cur + w {
            Some(i as usize)
        } else {
            tab_at_from(label_lens, col, cur + w + 1, i + 1)
        }
    }
}

/// The tab clicked at (`col`, `row`) in the tab bar `area`.
pub open spec fn clicked_tab(area: Area, label_lens: Seq<usize>, col: u16, row: u16) -> Option<usize> {
    if row == area.y && area.x <= col < area.x + area.width {
        tab_at_from(label_lens, col as int, area.x + 1, 0)
    } else {
        None
    }
}

/// The tab clicked at (`col`, `row`), given the lengths of the tab labels.
pub fn tab_at(area: Area, label_lens: &Vec<usize>, col: u16, row: u16) -> (r: Option<usize>)
    ensures
        r == clicked_tab(area, label_lens@, col, row),
{
    if !(row == area.y && area.x <= col && (col as u32) < area.x as u32 + area.width as u32) {
        return None;
    }
    let mut cur: u128 = area.x as u128 + 1;
    let mut i: usize = 0;
    while i < label_lens.len()
        invariant
            i <= label_lens@.len(),
            row == area.y && area.x <= col < area.x + area.width,
            cur <= u16::MAX as int + usize::MAX as int + 4,
            tab_at_from(label_lens@, col as int, area.x + 1, 0) == tab_at_from(
                label_lens@,
                col as int,
                cur as int,
                i as int,
            ),
        decreases label_lens@.len() - i,
    {
        if cur > col as u128 {
            proof {
                lemma_tab_past(label_lens@, col as int, cur as int, i as int);
            }
            return None;
        }
        let l = label_lens[i];
        let w: u128 = l as u128 + 2;
        if (col as u128) < cur + w {
            proof {
                assert(w == label_lens@[i as int] + 2);
                assert(tab_at_from(label_lens@, col as int, cur as int, i as int) == Some(i));
            }
            return Some(i);
        }
        cur = cur + w + 1;
        i = i + 1;
    }
    None
}

proof fn lemma_tab_past(label_lens: Seq<usize>, col: int, cur: int, i: int)
    requires
        cur > col,
    ensures
        tab_at_from(label_lens, col, cur, i) is None,
    decreases label_lens.len() - i,
{
    if 0 <= i < label_lens.len() {
        lemma_tab_past(label_lens, col, cur + label_lens[i] + 3, i + 1);
    }
}

/// The candidate under the cell (`col`, `row`) of a candidate list whose
/// inner area is `inner`, scrolled by `scroll_offset` candidates; `None`
/// outside the list (below its two-row header).
pub open spec fn list_click(inner: Area, scroll_offset: u16, col: u16, row: u16) -> Option<int> {
    let top = inner.y + 2;
    if inner.x <= col < inner.x + inner.width && top <= row < inner.y + inner.height {
        Some(scroll_offset + (row - top) / 2)
    } else {
        None
    }
}

/// The candidate clicked in a candidate list (see [`list_click`]).
pub fn candidate_at(inner: Area, scroll_offset: u16, col: u16, row: u16) -> (r: Option<usize>)
    requires
        inner.x + inner.width <= u16::MAX,
        inner.y + inner.height <= u16::MAX,
    ensures
        match r {
            Some(i) => list_click(inner, scroll_offset, col, row) == Some(i as int),
            None => list_click(inner, scroll_offset, col, row) is None,
        },
{
    let top: u32 = inner.y as u32 + 2;
    if inner.x <= col && col < inner.x + inner.width && top <= row as u32 && row < inner.y + inner.height {
        let rel: u32 = row as u32 - top;
        Some(scroll_offset as usize + (rel / 2) as usize)
    } else {
        None
    }
}

/// The largest scroll of a candidate list of `n` candidates in a panel of
/// `height` rows (two rows of border, two of header, two per candidate);
/// the count is cut to 16 bits.
pub open spec fn panel_max_scroll(height: u16, n: usize) -> u16 {
    let inner = if height >= 4 {
        height - 4
    } else {
        0
    };
    let visible = inner / 2;
    let m = if n >= visible {
        n - visible
    } else {
        0
    };
    (m % 0x10000) as u16
}

/// Scrolls a candidate list by one candidate, up or down, within its
/// length.
pub fn scroll_candidates(height: u16, n: usize, offset: u16, down: bool) -> (r: u16)
    ensures
        r == ({
            let max = panel_max_scroll(height, n);
            let s = if down {
                if offset + 1 > u16::MAX {
                    u16::MAX as int
                } else {
                    offset + 1
                }
            } else {
                if offset >= 1 {
                    offset - 1
                } else {
                    0
                }
            };
            if s < max {
                s
            } else {
                max as int
            }
        }),
{
    let inner = height.saturating_sub(2).saturating_sub(2);
    let visible = inner / 2;
    let m = n.saturating_sub(visible as usize);
    let max = (m % 0x10000) as u16;
    let s = if down {
        offset.saturating_add(1)
    } else {
        offset.saturating_sub(1)
    };
    if s < max {
        s
    } else {
        max
    }
}

// ---------------------------------------------------------------------------
// Details panel
// ---------------------------------------------------------------------------

/// The height the details of `s` need at `width` columns to show all their
/// content: two rows of border, one of badges and time pills, and the
/// wrapped label, identifier (when it differs from the label) and
/// sublabel.
pub open spec fn details_rows(s: Span, width: u16) -> int {
    if width < 4 {
        3
    } else {
        let w = width - 2;
        let label = wrapped(s.label@, w).len();
        let ident = if s.identifier@ != s.label@ {
            wrapped(s.identifier@, w).len() as int
        } else {
            0
        };
        let sub = match s.sublabel {
            Some(t) => wrapped(t@, w).len() as int,
            None => 0,
        };
        3 + label + ident + sub
    }
}

/// The height of the details of `s` (see [`details_rows`]).
pub fn required_height(s: &Span, area_width: u16) -> (r: u16)
    requires
        details_rows(*s, area_width) <= u16::MAX,
    ensures
        r == details_rows(*s, area_width),
{
    if area_width < 4 {
        return 3;
    }
    let w = (area_width - 2) as usize;
    let label = wrap_text(s.label.as_str(), w).len();
    let ident = if !crate::link::str_eq(s.identifier.as_str(), s.label.as_str()) {
        wrap_text(s.identifier.as_str(), w).len()
    } else {
        0
    };
    let sub = match &s.sublabel {
        Some(t) => wrap_text(t.as_str(), w).len(),
        None => 0,
    };
    (3 + label + ident + sub) as u16
}

/// The height of the details panel: that of the selected span, or nothing
/// without a selection.
pub fn details_height(spans: &[Span], selected: Option<usize>, area_width: u16) -> (r: u16)
    requires
        forall|i: int| 0 <= i < spans@.len() ==> details_rows(#[trigger] spans@[i], area_width) <= u16::MAX,
    ensures
        r == match selected {
            Some(si) => if si < spans@.len() {
                details_rows(spans@[si as int], area_width)
            } else {
                0
            },
            None => 0,
        },
{
    match selected {
        Some(si) => if si < spans.len() {
            required_height(&spans[si], area_width)
        } else {
            0
        },
        None => 0,
    }
}

} // verus!
