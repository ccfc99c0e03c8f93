//! The search box: what each key does to the query and what it asks of the
//! current tab.
use vstd::prelude::*;
use crate::text::{chars_of, push_char, string_of};

verus! {

/// State of the search box.
pub struct SearchState {
    pub query: String,
    pub visible: bool,
    /// Locked: the query is fixed and `n`/`p` walk through the matches.
    pub locked: bool,
}

/// The keys the search box reacts to.
#[derive(PartialEq, Eq, Structural, Clone, Copy, Debug)]
pub enum SearchKey {
    Esc,
    Enter,
    Backspace,
    Char(char),
    Other,
}

/// What the search box asks of the current tab.
#[derive(PartialEq, Eq, Debug)]
pub enum SearchAction {
    /// Nothing.
    Stay,
    /// Search for this query (an empty query clears the search).
    SetQuery(String),
    /// Select the next match.
    NextMatch,
    /// Select the previous match.
    PreviousMatch,
}

/// The view of an action: the query as characters.
pub open spec fn action_view(a: SearchAction) -> Option<Seq<char>> {
    match a {
        SearchAction::SetQuery(q) => Some(q@),
        _ => None,
    }
}

impl SearchState {
    /// A hidden, empty, unlocked search box.
    pub fn default() -> (r: SearchState)
        ensures
            r.query@ == Seq::<char>::empty(),
            !r.visible,
            !r.locked,
    {
        SearchState { query: String::new(), visible: false, locked: false }
    }

    /// Opens the search box with an empty query; the tab is to clear its
    /// search.
    pub fn open(&mut self) -> (action: SearchAction)
        ensures
            final(self).visible,
            !final(self).locked,
            final(self).query@ == Seq::<char>::empty(),
            action matches SearchAction::SetQuery(q) && q@ == Seq::<char>::empty(),
    {
        self.visible = true;
        self.locked = false;
        self.query = String::new();
        SearchAction::SetQuery(String::new())
    }

    /// Handles a key. Returns whether the key was consumed, and what the tab
    /// is to do.
    ///
    /// A hidden box consumes nothing. A locked box consumes `Esc` (unlock),
    /// `n` (next match) and `p` (previous match). An unlocked box consumes
    /// `Esc` (close and clear), `Enter` (lock), a character (appended to the
    /// query) and `Backspace` (last character removed); after each change of
    /// the query the tab is to search for it. Other keys fall through. A
    /// locked box stays visible: no key locks a hidden box or hides a
    /// locked one.
    pub fn handle_key(&mut self, key: SearchKey) -> (r: (bool, SearchAction))
        ensures
            (old(self).locked ==> old(self).visible) ==> (final(self).locked ==> final(self).visible),
            !old(self).visible ==> !r.0 && r.1 == SearchAction::Stay && *final(self) == *old(self),
            old(self).visible && old(self).locked ==> match key {
                SearchKey::Esc => r.0 && r.1 == SearchAction::Stay && !final(self).locked
                    && final(self).visible && final(self).query@ == old(self).query@,
                SearchKey::Char('n') => r.0 && r.1 == SearchAction::NextMatch && *final(self)
                    == *old(self),
                SearchKey::Char('p') => r.0 && r.1 == SearchAction::PreviousMatch && *final(self)
                    == *old(self),
                _ => !r.0 && r.1 == SearchAction::Stay && *final(self) == *old(self),
            },
            old(self).visible && !old(self).locked ==> match key {
                SearchKey::Esc => r.0 && !final(self).visible && !final(self).locked
                    && final(self).query@ == Seq::<char>::empty() && action_view(r.1) == Some(
                    Seq::<char>::empty(),
                ),
                SearchKey::Enter => r.0 && r.1 == SearchAction::Stay && final(self).locked
                    && final(self).visible && final(self).query@ == old(self).query@,
                SearchKey::Char(c) => r.0 && final(self).visible && !final(self).locked
                    && final(self).query@ == old(self).query@.push(c) && action_view(r.1) == Some(
                    final(self).query@,
                ),
                SearchKey::Backspace => r.0 && final(self).visible && !final(self).locked
                    && final(self).query@ == (if old(self).query@.len() > 0 {
                    old(self).query@.drop_last()
                } else {
                    old(self).query@
                }) && action_view(r.1) == Some(final(self).query@),
                SearchKey::Other => !r.0 && r.1 == SearchAction::Stay && *final(self)
                    == *old(self),
            },
    {
        if !self.visible {
            return (false, SearchAction::Stay);
        }
        if self.locked {
            match key {
                SearchKey::Esc => {
                    self.locked = false;
                    return (true, SearchAction::Stay);
                },
                SearchKey::Char(c) => {
                    if c == 'n' {
                        return (true, SearchAction::NextMatch);
                    }
                    if c == 'p' {
                        return (true, SearchAction::PreviousMatch);
                    }
                },
                _ => {},
            }
        } else {
            match key {
                SearchKey::Esc => {
                    self.visible = false;
                    self.locked = false;
                    self.query = String::new();
                    return (true, SearchAction::SetQuery(String::new()));
                },
                SearchKey::Enter => {
                    self.locked = true;
                    return (true, SearchAction::Stay);
                },
                SearchKey::Char(c) => {
                    push_char(&mut self.query, c);
                    let q = string_of(chars_of(self.query.as_str()).as_slice(), 0, self.query.unicode_len());
                    proof {
                        assert(self.query@.subrange(0, self.query@.len() as int) =~= self.query@);
                    }
                    return (true, SearchAction::SetQuery(q));
                },
                SearchKey::Backspace => {
                    let cs = chars_of(self.query.as_str());
                    if cs.len() > 0 {
                        self.query = string_of(cs.as_slice(), 0, cs.len() - 1);
                        proof {
                            assert(cs@.subrange(0, cs@.len() - 1) =~= cs@.drop_last());
                        }
                    }
                    let q = string_of(chars_of(self.query.as_str()).as_slice(), 0, self.query.unicode_len());
                    proof {
                        assert(self.query@.subrange(0, self.query@.len() as int) =~= self.query@);
                    }
                    return (true, SearchAction::SetQuery(q));
                },
                _ => {},
            }
        }
        (false, SearchAction::Stay)
    }
}

} // verus!
