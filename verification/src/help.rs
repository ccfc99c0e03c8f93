//! The help popup: the key bindings it lists.
use vstd::prelude::*;

verus! {

/// The key bindings every tab shares, shown first.
pub open spec fn common_bindings() -> Seq<(Seq<char>, Seq<char>)> {
    seq![
        ("?"@, "Toggle help"@),
        ("q"@, "Quit"@),
        ("s"@, "Search"@),
        ("Alt + 1/2/3"@, "Jump to tab"@),
        ("Alt + t"@, "Next tab"@),
        ("Esc"@, "Close help / deselect"@),
    ]
}

/// The view of a list of `(key, description)` pairs.
pub open spec fn bindings_view(v: Seq<(&str, &str)>) -> Seq<(Seq<char>, Seq<char>)> {
    Seq::new(v.len(), |k: int| (v[k].0@, v[k].1@))
}

/// A popup listing key bindings.
pub struct HelpPopup<'a> {
    pub combinations: Vec<(&'a str, &'a str)>,
}

impl<'a> HelpPopup<'a> {
    /// A popup for the given tab-specific bindings.
    pub fn new(combinations: Vec<(&'a str, &'a str)>) -> (r: Self)
        ensures
            r.combinations@ == combinations@,
    {
        Self { combinations }
    }

    /// All bindings shown: the common ones, then the tab's own.
    pub fn entries(&self) -> (r: Vec<(&'a str, &'a str)>)
        ensures
            bindings_view(r@) == common_bindings() + bindings_view(self.combinations@),
    {
        let mut r: Vec<(&'a str, &'a str)> = Vec::new();
        r.push(("?", "Toggle help"));
        r.push(("q", "Quit"));
        r.push(("s", "Search"));
        r.push(("Alt + 1/2/3", "Jump to tab"));
        r.push(("Alt + t", "Next tab"));
        r.push(("Esc", "Close help / deselect"));
        let mut i: usize = 0;
        while i < self.combinations.len()
            invariant
                i <= self.combinations@.len(),
                bindings_view(r@) == common_bindings() + bindings_view(self.combinations@).take(
                    i as int,
                ),
            decreases self.combinations@.len() - i,
        {
            let ghost old_r = r@;
            r.push(self.combinations[i]);
            proof {
                assert(bindings_view(r@) =~= bindings_view(old_r).push(
                    (self.combinations@[i as int].0@, self.combinations@[i as int].1@),
                ));
                assert(bindings_view(self.combinations@).take(i + 1) =~= bindings_view(
                    self.combinations@,
                ).take(i as int).push(
                    (self.combinations@[i as int].0@, self.combinations@[i as int].1@),
                ));
            }
            i = i + 1;
        }
        proof {
            assert(bindings_view(self.combinations@).take(self.combinations@.len() as int)
                =~= bindings_view(self.combinations@));
        }
        r
    }
}

} // verus!
