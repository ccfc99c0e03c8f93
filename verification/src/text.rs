//! Text helpers: character access on strings, case-insensitive search, and
//! the label shortening used throughout the viewer.
use vstd::prelude::*;
use vstd::string::StringSliceAdditionalSpecFns;

verus! {

broadcast use vstd::seq_lib::group_seq_properties;

/// The ellipsis character used when text is cut short.
pub const ELLIPSIS: char = '\u{2026}';

/// Appends `c` to `s` (`String::push`).
#[verifier::external_body]
pub(crate) fn push_char(s: &mut String, c: char)
    ensures
        final(s)@ == old(s)@.push(c),
{
    s.push(c);
}

/// Appends `t` to `s`.
pub fn push_str(s: &mut String, t: &str)
    ensures
        final(s)@ == old(s)@ + t@,
{
    s.append(t);
}

/// The characters of `s`, in order.
pub fn chars_of(s: &str) -> (v: Vec<char>)
    ensures
        v@ == s@,
{
    let mut v: Vec<char> = Vec::new();
    for c in it: s.chars()
        invariant
            v@ == it.seq().take(it.index()),
    {
        v.push(c);
    }
    v
}

/// A string holding the characters of `s[from..to]`.
pub fn string_of(s: &[char], from: usize, to: usize) -> (r: String)
    requires
        from <= to <= s@.len(),
    ensures
        r@ == s@.subrange(from as int, to as int),
{
    let mut r = String::new();
    let mut i = from;
    while i < to
        invariant
            from <= i <= to <= s@.len(),
            r@ == s@.subrange(from as int, i as int),
        decreases to - i,
    {
        push_char(&mut r, s[i]);
        i = i + 1;
    }
    r
}

/// A copy of `s`.
pub fn copy_str(s: &str) -> (r: String)
    ensures
        r@ == s@,
{
    let mut r = String::new();
    push_str(&mut r, s);
    r
}

/// Number of characters of `s` (not bytes).
pub fn char_count(s: &str) -> (n: usize)
    ensures
        n == s@.len(),
{
    s.unicode_len()
}

/// The lower-case form of a string, as `str::to_lowercase` computes it
/// (Unicode case mapping, which depends on the string alone).
pub uninterp spec fn lowercase(s: Seq<char>) -> Seq<char>;

/// `str::to_lowercase`: the result is the named lower-case form of `s`.
#[verifier::external_body]
pub(crate) fn to_lowercase(s: &str) -> (r: String)
    ensures
        r@ == lowercase(s@),
{
    s.to_lowercase()
}

/// `needle` occurs in `hay` at position `i`.
pub open spec fn occurs_at(hay: Seq<char>, needle: Seq<char>, i: int) -> bool {
    0 <= i && i + needle.len() <= hay.len() && hay.subrange(i, i + needle.len()) == needle
}

/// `needle` occurs somewhere in `hay` (the empty string occurs everywhere).
pub open spec fn contains_seq(hay: Seq<char>, needle: Seq<char>) -> bool {
    exists|i: int| occurs_at(hay, needle, i)
}

/// Whether `n` occurs in `h` at position `i`.
fn matches_at(h: &Vec<char>, n: &Vec<char>, i: usize) -> (r: bool)
    requires
        i + n@.len() <= h@.len(),
    ensures
        r == occurs_at(h@, n@, i as int),
{
    let mut j: usize = 0;
    while j < n.len()
        invariant
            i + n@.len() <= h.len(),
            j <= n@.len(),
            forall|m: int| 0 <= m < j ==> h@[i + m] == n@[m],
        decreases n@.len() - j,
    {
        if h[i + j] != n[j] {
            proof {
                assert(h@.subrange(i as int, i + n@.len())[j as int] != n@[j as int]);
            }
            return false;
        }
        j = j + 1;
    }
    proof {
        assert(h@.subrange(i as int, i + n@.len()) =~= n@);
    }
    true
}

/// Whether `needle` occurs as a substring of `hay`.
pub fn contains_str(hay: &str, needle: &str) -> (r: bool)
    ensures
        r == contains_seq(hay@, needle@),
{
    let h = chars_of(hay);
    let n = chars_of(needle);
    if n.len() > h.len() {
        proof {
            assert forall|i: int| !occurs_at(h@, n@, i) by {}
        }
        return false;
    }
    let last = h.len() - n.len();
    let mut i: usize = 0;
    loop
        invariant
            h@ == hay@,
            n@ == needle@,
            n@.len() <= h@.len(),
            last == h@.len() - n@.len(),
            i <= last,
            forall|k: int| 0 <= k < i ==> !occurs_at(h@, n@, k),
        decreases last - i,
    {
        if matches_at(&h, &n, i) {
            return true;
        }
        if i == last {
            proof {
                assert forall|k: int| !occurs_at(h@, n@, k) by {
                    if 0 <= k && k + n@.len() <= h@.len() {
                        assert(k <= i);
                    }
                }
            }
            return false;
        }
        i = i + 1;
    }
}

/// Case-insensitive containment: `needle_lower` (already lower-cased) occurs
/// in the lower-case form of `hay`.
pub fn contains_lowercase(hay: &str, needle_lower: &str) -> (r: bool)
    ensures
        r == contains_seq(lowercase(hay@), needle_lower@),
{
    let h = to_lowercase(hay);
    contains_str(h.as_str(), needle_lower)
}

// ---------------------------------------------------------------------------
// Template argument collapsing
// ---------------------------------------------------------------------------

/// One step of collapsing: the output so far and the current `<`/`>` nesting.
pub open spec fn collapse_step(st: (Seq<char>, nat), c: char) -> (Seq<char>, nat) {
    if c == '<' {
        (if st.1 == 0 { st.0 + seq!['<', ELLIPSIS, '>'] } else { st.0 }, st.1 + 1)
    } else if c == '>' {
        (st.0, if st.1 == 0 { 0 } else { (st.1 - 1) as nat })
    } else if st.1 == 0 {
        (st.0.push(c), 0)
    } else {
        st
    }
}

/// The state after reading all of `s`.
pub open spec fn collapse_state(s: Seq<char>) -> (Seq<char>, nat)
    decreases s.len(),
{
    if s.len() == 0 {
        (Seq::empty(), 0)
    } else {
        collapse_step(collapse_state(s.drop_last()), s.last())
    }
}

/// `s` with every top-level `<...>` group replaced by `<…>`: characters
/// inside angle brackets are dropped, and an unmatched `>` is ignored.
pub open spec fn collapsed(s: Seq<char>) -> Seq<char> {
    collapse_state(s).0
}

/// Replaces every top-level template argument list by `<…>`.
pub fn collapse_template_args(s: &str) -> (r: String)
    ensures
        r@ == collapsed(s@),
{
    let cs = chars_of(s);
    let mut result = String::new();
    let mut depth: usize = 0;
    let mut i: usize = 0;
    while i < cs.len()
        invariant
            cs@ == s@,
            i <= cs@.len(),
            depth <= i,
            (result@, depth as nat) == collapse_state(cs@.take(i as int)),
        decreases cs@.len() - i,
    {
        let c = cs[i];
        proof {
            assert(cs@.take(i + 1).drop_last() =~= cs@.take(i as int));
        }
        if c == '<' {
            if depth == 0 {
                push_char(&mut result, '<');
                push_char(&mut result, ELLIPSIS);
                push_char(&mut result, '>');
            }
            depth = depth + 1;
        } else if c == '>' {
            depth = depth.saturating_sub(1);
        } else if depth == 0 {
            push_char(&mut result, c);
        }
        i = i + 1;
    }
    proof {
        assert(cs@.take(cs@.len() as int) =~= cs@);
    }
    result
}

// ---------------------------------------------------------------------------
// Sections of a label
// ---------------------------------------------------------------------------

/// Length of the delimiter (`/` or `::`) that starts at `q` in `s`, or 0.
pub open spec fn delim_len(s: Seq<char>, q: int) -> int {
    if 0 <= q < s.len() && s[q] == '/' {
        1
    } else if 0 <= q && q + 1 < s.len() && s[q] == ':' && s[q + 1] == ':' {
        2
    } else {
        0
    }
}

/// Position and length of the leftmost delimiter in `s`.
pub open spec fn first_delim(s: Seq<char>) -> Option<(int, int)>
    decreases s.len(),
{
    if s.len() == 0 {
        None
    } else if delim_len(s, 0) > 0 {
        Some((0, delim_len(s, 0)))
    } else {
        match first_delim(s.drop_first()) {
            Some((p, l)) => Some((p + 1, l)),
            None => None,
        }
    }
}

proof fn lemma_first_delim(s: Seq<char>)
    ensures
        match first_delim(s) {
            Some((p, l)) => 0 <= p && 1 <= l && p + l <= s.len() && l == delim_len(s, p) && (
            forall|q: int| 0 <= q < p ==> delim_len(s, q) == 0),
            None => forall|q: int| 0 <= q < s.len() ==> delim_len(s, q) == 0,
        },
    decreases s.len(),
{
    if s.len() > 0 && delim_len(s, 0) == 0 {
        lemma_first_delim(s.drop_first());
        assert forall|q: int| 1 <= q < s.len() implies delim_len(s, q) == delim_len(
            s.drop_first(),
            q - 1,
        ) by {}
    }
}

/// The leftmost delimiter is found by scanning: if none starts before `p`
/// and one starts at `p`, it is the leftmost.
proof fn lemma_first_delim_at(s: Seq<char>, p: int)
    requires
        0 <= p <= s.len(),
        forall|q: int| 0 <= q < p ==> delim_len(s, q) == 0,
    ensures
        p < s.len() && delim_len(s, p) > 0 ==> first_delim(s) == Some((p, delim_len(s, p))),
        p == s.len() ==> first_delim(s) is None,
{
    lemma_first_delim(s);
}

/// `s` cut into `(section, following delimiter)` pairs at every `/` and
/// `::`, scanning from the left; the last pair has an empty delimiter.
#[verifier::opaque]
pub open spec fn sections(s: Seq<char>) -> Seq<(Seq<char>, Seq<char>)>
    decreases s.len(),
{
    match first_delim(s) {
        Some((p, l)) => if 0 <= p && 1 <= l && p + l <= s.len() {
            seq![(s.take(p), s.subrange(p, p + l))] + sections(s.skip(p + l))
        } else {
            seq![(s, Seq::empty())]
        },
        None => seq![(s, Seq::empty())],
    }
}

/// The text of a list of sections, delimiters included.
pub open spec fn join_sections(secs: Seq<(Seq<char>, Seq<char>)>) -> Seq<char>
    decreases secs.len(),
{
    if secs.len() == 0 {
        Seq::empty()
    } else {
        secs[0].0 + secs[0].1 + join_sections(secs.drop_first())
    }
}

proof fn lemma_join_cons(x: (Seq<char>, Seq<char>), rest: Seq<(Seq<char>, Seq<char>)>)
    ensures
        join_sections(seq![x] + rest) == x.0 + x.1 + join_sections(rest),
{
    assert((seq![x] + rest).drop_first() =~= rest);
    assert((seq![x] + rest)[0] == x);
}

pub proof fn lemma_sections_join(s: Seq<char>)
    ensures
        join_sections(sections(s)) == s,
        sections(s).len() >= 1,
        sections(s).last().1.len() == 0,
    decreases s.len(),
{
    reveal(sections);
    lemma_first_delim(s);
    match first_delim(s) {
        Some((p, l)) => {
            lemma_sections_join(s.skip(p + l));
            let rest = sections(s.skip(p + l));
            lemma_join_cons((s.take(p), s.subrange(p, p + l)), rest);
            assert(s =~= s.take(p) + s.subrange(p, p + l) + s.skip(p + l));
        },
        None => {
            lemma_join_cons((s, Seq::<char>::empty()), Seq::empty());
            assert(s + Seq::<char>::empty() + Seq::<char>::empty() =~= s);
        },
    }
}

/// No section of `s` holds a delimiter, and every delimiter but the last
/// (which is empty) is `/` or `::`.
pub proof fn lemma_sections_delimiters(s: Seq<char>)
    ensures
        forall|k: int, q: int| 0 <= k < sections(s).len() ==> #[trigger] delim_len(sections(s)[k].0, q) == 0,
        forall|k: int|
            0 <= k < sections(s).len() - 1 ==> (#[trigger] sections(s)[k]).1 == seq!['/'] || sections(s)[k].1
                == seq![':', ':'],
    decreases s.len(),
{
    reveal(sections);
    lemma_first_delim(s);
    match first_delim(s) {
        Some((p, l)) => {
            lemma_sections_delimiters(s.skip(p + l));
            let rest = sections(s.skip(p + l));
            let all = sections(s);
            assert(all == seq![(s.take(p), s.subrange(p, p + l))] + rest);
            assert forall|k: int, q: int| 0 <= k < all.len() implies #[trigger] delim_len(all[k].0, q) == 0 by {
                if k == 0 {
                    let t = s.take(p);
                    if 0 <= q < t.len() {
                        assert(delim_len(s, q) == 0);
                        assert(t[q] == s[q]);
                        if q + 1 < t.len() {
                            assert(t[q + 1] == s[q + 1]);
                        }
                    }
                } else {
                    assert(all[k] == rest[k - 1]);
                }
            }
            assert forall|k: int| 0 <= k < all.len() - 1 implies (#[trigger] all[k]).1 == seq!['/'] || all[k].1
                == seq![':', ':'] by {
                if k == 0 {
                    if l == 1 {
                        assert(s.subrange(p, p + l) =~= seq!['/']);
                    } else {
                        assert(s.subrange(p, p + l) =~= seq![':', ':']);
                    }
                } else {
                    assert(all[k] == rest[k - 1]);
                }
            }
        },
        None => {
            let all = sections(s);
            assert(all == seq![(s, Seq::<char>::empty())]);
            assert forall|k: int, q: int| 0 <= k < all.len() implies #[trigger] delim_len(all[k].0, q) == 0 by {
                assert(all[k].0 == s);
            }
        },
    }
}

/// One scanning step: with no delimiter in `s[st..i]` and one of length
/// `l` at `i`, the sections of `s[st..]` start with `(s[st..i], s[i..i+l])`.
proof fn lemma_sections_step(s: Seq<char>, st: int, i: int, l: int)
    requires
        0 <= st <= i,
        i + l <= s.len(),
        l > 0,
        l == delim_len(s, i),
        forall|q: int| 0 <= q < i - st ==> delim_len(s.skip(st), q) == 0,
    ensures
        sections(s.skip(st)) == seq![(s.subrange(st, i), s.subrange(i, i + l))] + sections(
            s.skip(i + l),
        ),
{
    reveal(sections);
    let rest = s.skip(st);
    assert(delim_len(rest, i - st) == delim_len(s, i));
    lemma_first_delim_at(rest, i - st);
    assert(rest.take(i - st) =~= s.subrange(st, i));
    assert(rest.subrange(i - st, i - st + l) =~= s.subrange(i, i + l));
    assert(rest.skip(i - st + l) =~= s.skip(i + l));
}

/// The last step: with no delimiter in `s[st..]`, its sections are the
/// single pair `(s[st..], "")`.
proof fn lemma_sections_end(s: Seq<char>, st: int)
    requires
        0 <= st <= s.len(),
        forall|q: int| 0 <= q < s.len() - st ==> delim_len(s.skip(st), q) == 0,
    ensures
        sections(s.skip(st)) == seq![(s.skip(st), Seq::<char>::empty())],
{
    reveal(sections);
    lemma_first_delim_at(s.skip(st), s.len() - st);
}

/// The view of a list of string pairs.
pub open spec fn pairs_view(v: Seq<(String, String)>) -> Seq<(Seq<char>, Seq<char>)> {
    Seq::new(v.len(), |k: int| (v[k].0@, v[k].1@))
}

/// The view of a list of character-vector pairs.
pub open spec fn vec_pairs_view(v: Seq<(Vec<char>, Vec<char>)>) -> Seq<(Seq<char>, Seq<char>)> {
    Seq::new(v.len(), |k: int| (v[k].0@, v[k].1@))
}

fn delim_len_at(cs: &Vec<char>, q: usize) -> (l: usize)
    requires
        q < cs.len(),
    ensures
        l == delim_len(cs@, q as int),
{
    if cs[q] == '/' {
        1
    } else if q + 1 < cs.len() && cs[q] == ':' && cs[q + 1] == ':' {
        2
    } else {
        0
    }
}

/// The characters `cs[a..b]`.
pub fn copy_range(cs: &Vec<char>, a: usize, b: usize) -> (v: Vec<char>)
    requires
        a <= b <= cs@.len(),
    ensures
        v@ == cs@.subrange(a as int, b as int),
{
    let mut v: Vec<char> = Vec::new();
    let mut k = a;
    while k < b
        invariant
            a <= k <= b <= cs@.len(),
            v@ == cs@.subrange(a as int, k as int),
        decreases b - k,
    {
        v.push(cs[k]);
        k = k + 1;
    }
    v
}

/// Splits `cs` into sections (see [`sections`]).
pub fn sections_of(cs: &Vec<char>) -> (r: Vec<(Vec<char>, Vec<char>)>)
    ensures
        vec_pairs_view(r@) == sections(cs@),
{
    let mut r: Vec<(Vec<char>, Vec<char>)> = Vec::new();
    let mut st: usize = 0;
    let mut i: usize = 0;
    while i < cs.len()
        invariant
            st <= i <= cs@.len(),
            vec_pairs_view(r@) + sections(cs@.skip(st as int)) == sections(cs@),
            forall|q: int| 0 <= q < i - st ==> delim_len(cs@.skip(st as int), q) == 0,
        decreases cs@.len() - i,
    {
        let l = delim_len_at(cs, i);
        proof {
            assert(delim_len(cs@.skip(st as int), i - st) == delim_len(cs@, i as int));
        }
        if l > 0 {
            let text = copy_range(cs, st, i);
            let delim = copy_range(cs, i, i + l);
            proof {
                lemma_sections_step(cs@, st as int, i as int, l as int);
            }
            let ghost old_r = r@;
            r.push((text, delim));
            proof {
                assert(vec_pairs_view(r@) =~= vec_pairs_view(old_r).push((text@, delim@)));
                assert(vec_pairs_view(old_r).push((text@, delim@)) + sections(cs@.skip(i + l))
                    =~= vec_pairs_view(old_r) + (seq![(text@, delim@)] + sections(
                    cs@.skip(i + l),
                )));
            }
            st = i + l;
            i = i + l;
        } else {
            i = i + 1;
        }
    }
    proof {
        lemma_sections_end(cs@, st as int);
    }
    let text = copy_range(cs, st, cs.len());
    let ghost old_r = r@;
    r.push((text, Vec::new()));
    proof {
        assert(text@ =~= cs@.skip(st as int));
        assert(vec_pairs_view(r@) =~= vec_pairs_view(old_r) + seq![
            (cs@.skip(st as int), Seq::<char>::empty()),
        ]);
    }
    r
}

/// A string holding the characters of `v`.
pub fn string_from(v: &Vec<char>) -> (r: String)
    ensures
        r@ == v@,
{
    let r = string_of(v.as_slice(), 0, v.len());
    proof {
        assert(v@.subrange(0, v@.len() as int) =~= v@);
    }
    r
}

/// Splits `label` into `(section_text, following_delimiter)` pairs; the
/// delimiters are `::` and `/`.
pub fn split_sections(label: &str) -> (r: Vec<(String, String)>)
    ensures
        pairs_view(r@) == sections(label@),
{
    let cs = chars_of(label);
    let secs = sections_of(&cs);
    let mut r: Vec<(String, String)> = Vec::new();
    let mut i: usize = 0;
    while i < secs.len()
        invariant
            i <= secs@.len(),
            pairs_view(r@) == vec_pairs_view(secs@).take(i as int),
        decreases secs@.len() - i,
    {
        let a = string_from(&secs[i].0);
        let b = string_from(&secs[i].1);
        let ghost old_r = r@;
        r.push((a, b));
        proof {
            assert(pairs_view(r@) =~= pairs_view(old_r).push((a@, b@)));
            assert(vec_pairs_view(secs@).take(i + 1) =~= vec_pairs_view(secs@).take(i as int).push(
                (a@, b@),
            ));
        }
        i = i + 1;
    }
    proof {
        assert(vec_pairs_view(secs@).take(secs@.len() as int) =~= vec_pairs_view(secs@));
    }
    r
}

// ---------------------------------------------------------------------------
// Shortening labels
// ---------------------------------------------------------------------------

/// The first `n` elements of `s`, or all of it when it is shorter.
pub open spec fn take_upto(s: Seq<char>, n: int) -> Seq<char> {
    if n <= s.len() {
        s.take(n)
    } else {
        s
    }
}

/// The shortened text when the sections before `secs[r]` are removed and
/// `secs[r - 1]` is cut down to fit: as many of its characters as fit, `…`,
/// its delimiter, then the remaining sections; `None` when even an empty
/// prefix does not fit in `w`.
pub open spec fn shorten_candidate(secs: Seq<(Seq<char>, Seq<char>)>, r: int, w: int) -> Option<
    Seq<char>,
> {
    let suffix = join_sections(secs.skip(r));
    let conn = secs[r - 1].1;
    let min_len = 1 + conn.len() + suffix.len();
    if min_len <= w {
        Some(take_upto(secs[r - 1].0, w - min_len) + seq![ELLIPSIS] + conn + suffix)
    } else {
        None
    }
}

/// The first candidate that fits, trying `r`, `r + 1`, ..., `secs.len()`.
pub open spec fn shorten_from(secs: Seq<(Seq<char>, Seq<char>)>, r: int, w: int) -> Seq<char>
    decreases secs.len() + 1 - r,
{
    if r > secs.len() || r < 1 {
        seq![ELLIPSIS]
    } else {
        match shorten_candidate(secs, r, w) {
            Some(x) => x,
            None => shorten_from(secs, r + 1, w),
        }
    }
}

/// `label` shortened to at most `w` characters: unchanged when it fits;
/// empty for `w == 0`; for a label without delimiters, its first `w - 1`
/// characters and `…`; otherwise the fewest leading sections are removed so
/// that the rest fits, keeping as much of the last removed section as fits.
pub open spec fn shortened(label: Seq<char>, w: int) -> Seq<char> {
    if label.len() <= w {
        label
    } else if w <= 0 {
        Seq::empty()
    } else if sections(label).len() == 1 {
        label.take(w - 1) + seq![ELLIPSIS]
    } else {
        shorten_from(sections(label), 1, w)
    }
}

/// Appends the characters of `w` to `v`.
pub fn append_chars(v: &mut Vec<char>, w: &Vec<char>)
    ensures
        final(v)@ == old(v)@ + w@,
{
    let mut m: usize = 0;
    while m < w.len()
        invariant
            m <= w@.len(),
            v@ == old(v)@ + w@.take(m as int),
        decreases w@.len() - m,
    {
        v.push(w[m]);
        m = m + 1;
        proof {
            assert(w@.take(m as int) =~= w@.take(m - 1).push(w@[m - 1]));
        }
    }
    proof {
        assert(w@.take(w@.len() as int) =~= w@);
    }
}

proof fn lemma_join_skip_step(secs: Seq<(Seq<char>, Seq<char>)>, k: int)
    requires
        0 <= k < secs.len(),
    ensures
        join_sections(secs.skip(k)) == secs[k].0 + secs[k].1 + join_sections(secs.skip(k + 1)),
{
    assert(secs.skip(k).drop_first() =~= secs.skip(k + 1));
    assert(secs.skip(k)[0] == secs[k]);
}

/// The text of `secs[r..]`.
fn join_from(secs: &Vec<(Vec<char>, Vec<char>)>, r: usize) -> (v: Vec<char>)
    requires
        r <= secs@.len(),
    ensures
        v@ == join_sections(vec_pairs_view(secs@).skip(r as int)),
{
    let ghost view = vec_pairs_view(secs@);
    let mut v: Vec<char> = Vec::new();
    let mut k = r;
    while k < secs.len()
        invariant
            r <= k <= secs@.len(),
            view == vec_pairs_view(secs@),
            v@ + join_sections(view.skip(k as int)) == join_sections(view.skip(r as int)),
        decreases secs@.len() - k,
    {
        proof {
            lemma_join_skip_step(view, k as int);
        }
        let ghost v0 = v@;
        append_chars(&mut v, &secs[k].0);
        append_chars(&mut v, &secs[k].1);
        proof {
            assert(v@ + join_sections(view.skip(k + 1)) =~= v0 + join_sections(view.skip(k as int)));
        }
        k = k + 1;
    }
    proof {
        assert(view.skip(secs@.len() as int) =~= Seq::<(Seq<char>, Seq<char>)>::empty());
        assert(v@ + Seq::<char>::empty() =~= v@);
    }
    v
}

/// Shortens `label` to fit in `w` characters.
///
/// Removes leading sections (delimited by `::` or `/`) from the front until
/// the remainder fits, replacing the last removed section with as many of its
/// characters as possible followed by `…`.
pub fn shorten_label(label: &str, w: usize) -> (r: String)
    ensures
        r@ == shortened(label@, w as int),
{
    let cs = chars_of(label);
    if cs.len() <= w {
        return copy_str(label);
    }
    if w == 0 {
        return String::new();
    }
    let secs = sections_of(&cs);
    if secs.len() == 1 {
        let mut r = string_of(cs.as_slice(), 0, w - 1);
        push_char(&mut r, ELLIPSIS);
        return r;
    }
    let ghost view = vec_pairs_view(secs@);
    proof {
        lemma_sections_join(cs@);
        lemma_join_len_skip(view, view.len() as int);
    }
    let mut rm: usize = 1;
    loop
        invariant
            1 <= rm <= secs@.len(),
            secs@.len() > 1,
            view == vec_pairs_view(secs@),
            view == sections(cs@),
            view.last().1.len() == 0,
            cs@ == label@,
            label@.len() > w,
            w > 0,
            shorten_from(view, 1, w as int) == shorten_from(view, rm as int, w as int),
        decreases secs@.len() - rm,
    {
        let suffix = join_from(&secs, rm);
        let conn_len = secs[rm - 1].1.len();
        proof {
            assert(view[rm - 1] == (secs@[rm - 1].0@, secs@[rm - 1].1@));
            if rm == secs@.len() {
                assert(view.skip(rm as int) =~= Seq::<(Seq<char>, Seq<char>)>::empty());
                assert(view[rm - 1] == view.last());
                assert(conn_len == 0);
            }
        }
        if conn_len < w && suffix.len() <= w - 1 - conn_len {
            let available = w - 1 - conn_len - suffix.len();
            let prev = &secs[rm - 1].0;
            let keep = if available < prev.len() {
                available
            } else {
                prev.len()
            };
            let mut r = string_of(prev.as_slice(), 0, keep);
            push_char(&mut r, ELLIPSIS);
            let conn = string_from(&secs[rm - 1].1);
            push_str(&mut r, conn.as_str());
            let suf = string_from(&suffix);
            push_str(&mut r, suf.as_str());
            proof {
                let cand = take_upto(view[rm - 1].0, w - (1 + conn_len + suffix@.len())) + seq![
                    ELLIPSIS,
                ] + view[rm - 1].1 + join_sections(view.skip(rm as int));
                assert(prev@.subrange(0, keep as int) =~= take_upto(
                    view[rm - 1].0,
                    w - (1 + conn_len + suffix@.len()),
                ));
                assert(shorten_candidate(view, rm as int, w as int) == Some(cand));
                assert(r@ =~= cand);
            }
            return r;
        }
        assert(rm < secs@.len());
        rm = rm + 1;
    }
}

proof fn lemma_join_len_skip(secs: Seq<(Seq<char>, Seq<char>)>, r: int)
    requires
        0 <= r <= secs.len(),
    ensures
        join_sections(secs.skip(r)).len() <= join_sections(secs).len(),
    decreases r,
{
    if r > 0 {
        lemma_join_len_skip(secs.drop_first(), r - 1);
        assert(secs.drop_first().skip(r - 1) =~= secs.skip(r));
    } else {
        assert(secs.skip(0) =~= secs);
    }
}

// ---------------------------------------------------------------------------
// Word wrapping
// ---------------------------------------------------------------------------

/// `char::is_whitespace`: the Unicode `White_Space` characters.
pub open spec fn is_space(c: char) -> bool {
    c == ' ' || ('\u{9}' <= c && c <= '\u{d}') || c == '\u{85}' || c == '\u{a0}' || c == '\u{1680}'
        || ('\u{2000}' <= c && c <= '\u{200a}') || c == '\u{2028}' || c == '\u{2029}' || c
        == '\u{202f}' || c == '\u{205f}' || c == '\u{3000}'
}

/// `char::is_whitespace`.
pub fn is_space_char(c: char) -> (r: bool)
    ensures
        r == is_space(c),
{
    c == ' ' || ('\u{9}' <= c && c <= '\u{d}') || c == '\u{85}' || c == '\u{a0}' || c == '\u{1680}'
        || ('\u{2000}' <= c && c <= '\u{200a}') || c == '\u{2028}' || c == '\u{2029}' || c
        == '\u{202f}' || c == '\u{205f}' || c == '\u{3000}'
}

/// The words of `s`: its maximal runs of non-whitespace characters, in order
/// (`str::split_whitespace`).
pub open spec fn words(s: Seq<char>) -> Seq<Seq<char>>
    decreases s.len(),
{
    if s.len() == 0 {
        Seq::empty()
    } else if is_space(s.last()) {
        words(s.drop_last())
    } else if s.len() >= 2 && !is_space(s[s.len() - 2]) && words(s.drop_last()).len() > 0 {
        let w = words(s.drop_last());
        w.update(w.len() - 1, w.last().push(s.last()))
    } else {
        words(s.drop_last()).push(seq![s.last()])
    }
}

/// Every word is non-empty.
proof fn lemma_words_nonempty(s: Seq<char>)
    ensures
        forall|k: int| 0 <= k < words(s).len() ==> #[trigger] words(s)[k].len() > 0,
        s.len() > 0 && !is_space(s.last()) ==> words(s).len() > 0,
    decreases s.len(),
{
    if s.len() > 0 {
        lemma_words_nonempty(s.drop_last());
        if s.len() >= 2 && !is_space(s[s.len() - 2]) {
            assert(s.drop_last().last() == s[s.len() - 2]);
        }
    }
}

/// The words of `s`.
pub fn split_words(s: &str) -> (r: Vec<Vec<char>>)
    ensures
        r@.len() == words(s@).len(),
        forall|k: int| 0 <= k < r@.len() ==> #[trigger] r@[k]@ == words(s@)[k],
{
    let cs = chars_of(s);
    let mut r: Vec<Vec<char>> = Vec::new();
    let mut i: usize = 0;
    while i < cs.len()
        invariant
            cs@ == s@,
            i <= cs@.len(),
            r@.len() == words(cs@.take(i as int)).len(),
            forall|k: int| 0 <= k < r@.len() ==> #[trigger] r@[k]@ == words(cs@.take(i as int))[k],
        decreases cs@.len() - i,
    {
        let c = cs[i];
        let ghost pre = cs@.take(i as int);
        proof {
            assert(cs@.take(i + 1).drop_last() =~= pre);
            assert(cs@.take(i + 1).last() == c);
            lemma_words_nonempty(pre);
            if i >= 1 {
                assert(cs@.take(i + 1)[i - 1] == cs@[i - 1]);
                assert(pre.last() == cs@[i - 1]);
            }
        }
        if is_space_char(c) {
        } else if i >= 1 && !is_space_char(cs[i - 1]) {
            let last = r.len() - 1;
            let mut w = r.pop().unwrap();
            w.push(c);
            r.push(w);
            proof {
                let ws = words(pre);
                assert(words(cs@.take(i + 1)) == ws.update(ws.len() - 1, ws.last().push(c)));
            }
        } else {
            let mut w: Vec<char> = Vec::new();
            w.push(c);
            r.push(w);
            proof {
                assert(w@ =~= seq![c]);
            }
        }
        i = i + 1;
    }
    proof {
        assert(cs@.take(cs@.len() as int) =~= cs@);
    }
    r
}

/// A word longer than `width` cut into full lines of `width` characters and
/// the rest (of 1 to `width` characters).
pub open spec fn hard_wrap(word: Seq<char>, width: int) -> (Seq<Seq<char>>, Seq<char>)
    decreases word.len(),
{
    if width <= 0 || word.len() <= width {
        (Seq::empty(), word)
    } else {
        let (lines, rest) = hard_wrap(word.skip(width), width);
        (seq![word.take(width)] + lines, rest)
    }
}

/// Adds one word to the wrapping state `(finished lines, current line)`.
pub open spec fn wrap_step(st: (Seq<Seq<char>>, Seq<char>), word: Seq<char>, width: int) -> (
    Seq<Seq<char>>,
    Seq<char>,
) {
    if st.1.len() == 0 {
        if word.len() > width {
            let (lines, rest) = hard_wrap(word, width);
            (st.0 + lines, rest)
        } else {
            (st.0, word)
        }
    } else if st.1.len() + 1 + word.len() <= width {
        (st.0, st.1 + seq![' '] + word)
    } else {
        (st.0.push(st.1), word)
    }
}

/// The wrapping state after the words `ws`.
pub open spec fn wrap_state(ws: Seq<Seq<char>>, width: int) -> (Seq<Seq<char>>, Seq<char>)
    decreases ws.len(),
{
    if ws.len() == 0 {
        (Seq::empty(), Seq::empty())
    } else {
        wrap_step(wrap_state(ws.drop_last(), width), ws.last(), width)
    }
}

/// `text` wrapped greedily into lines: words are joined by single spaces
/// while the line stays within `width` characters; a word longer than
/// `width` that starts a line is cut into pieces of `width` characters, but
/// one that follows other words is moved whole to a line of its own, which
/// is then longer than `width`. An empty text gives one empty line, and
/// width 0 gives no lines.
pub open spec fn wrapped(text: Seq<char>, width: int) -> Seq<Seq<char>> {
    if width <= 0 {
        Seq::empty()
    } else {
        let st = wrap_state(words(text), width);
        let lines = if st.1.len() > 0 {
            st.0.push(st.1)
        } else {
            st.0
        };
        if lines.len() == 0 {
            seq![Seq::empty()]
        } else {
            lines
        }
    }
}

/// The view of a list of strings.
pub open spec fn strings_view(v: Seq<String>) -> Seq<Seq<char>> {
    Seq::new(v.len(), |k: int| v[k]@)
}

/// Wraps `text` into lines (see [`wrapped`]: a long word after other words
/// keeps its own, longer line).
pub fn wrap_text(text: &str, width: usize) -> (r: Vec<String>)
    ensures
        strings_view(r@) == wrapped(text@, width as int),
{
    if width == 0 {
        return Vec::new();
    }
    let ws = split_words(text);
    let ghost wsv = words(text@);
    let mut lines: Vec<String> = Vec::new();
    let mut current: Vec<char> = Vec::new();
    let mut i: usize = 0;
    proof {
        lemma_words_nonempty(text@);
    }
    while i < ws.len()
        invariant
            width > 0,
            ws@.len() == wsv.len(),
            wsv == words(text@),
            forall|k: int| 0 <= k < ws@.len() ==> #[trigger] ws@[k]@ == wsv[k],
            forall|k: int| 0 <= k < wsv.len() ==> #[trigger] wsv[k].len() > 0,
            i <= ws@.len(),
            (strings_view(lines@), current@) == wrap_state(wsv.take(i as int), width as int),
        decreases ws@.len() - i,
    {
        let word = &ws[i];
        let ghost pre = wsv.take(i as int);
        proof {
            assert(wsv.take(i + 1).drop_last() =~= pre);
            assert(wsv.take(i + 1).last() == word@);
        }
        if current.len() == 0 {
            if word.len() > width {
                let mut start: usize = 0;
                let ghost lines0 = strings_view(lines@);
                proof {
                    assert(word@.skip(0) =~= word@);
                }
                while word.len() - start > width
                    invariant
                        width > 0,
                        start <= word@.len(),
                        strings_view(lines@) + hard_wrap(word@.skip(start as int), width as int).0
                            == lines0 + hard_wrap(word@, width as int).0,
                        hard_wrap(word@.skip(start as int), width as int).1 == hard_wrap(
                            word@,
                            width as int,
                        ).1,
                    decreases word@.len() - start,
                {
                    let piece = string_of(word.as_slice(), start, start + width);
                    let ghost rest = word@.skip(start as int);
                    proof {
                        assert(rest.take(width as int) =~= piece@);
                        assert(rest.skip(width as int) =~= word@.skip(start + width));
                    }
                    let ghost old_lines = strings_view(lines@);
                    lines.push(piece);
                    proof {
                        assert(strings_view(lines@) =~= old_lines.push(piece@));
                        let hw = hard_wrap(word@.skip(start + width), width as int);
                        assert(old_lines.push(piece@) + hw.0 =~= old_lines + (seq![piece@] + hw.0));
                    }
                    start = start + width;
                }
                current = copy_range(word, start, word.len());
                proof {
                    assert(current@ =~= word@.skip(start as int));
                    assert(word@.skip(start as int).len() <= width);
                    assert(hard_wrap(word@.skip(start as int), width as int).0 =~= Seq::<
                        Seq<char>,
                    >::empty());
                    assert(strings_view(lines@) + Seq::<Seq<char>>::empty() =~= strings_view(
                        lines@,
                    ));
                }
            } else {
                current = copy_range(word, 0, word.len());
                proof {
                    assert(current@ =~= word@);
                }
            }
        } else if current.len() < width && word.len() < width - current.len() {
            current.push(' ');
            let mut m: usize = 0;
            let ghost c0 = current@;
            while m < word.len()
                invariant
                    m <= word@.len(),
                    current@ == c0 + word@.take(m as int),
                decreases word@.len() - m,
            {
                current.push(word[m]);
                m = m + 1;
                proof {
                    assert(word@.take(m as int) =~= word@.take(m - 1).push(word@[m - 1]));
                }
            }
            proof {
                assert(word@.take(word@.len() as int) =~= word@);
            }
        } else {
            let line = string_from(&current);
            let ghost old_lines = strings_view(lines@);
            lines.push(line);
            proof {
                assert(strings_view(lines@) =~= old_lines.push(current@));
            }
            current = copy_range(word, 0, word.len());
            proof {
                assert(current@ =~= word@);
            }
        }
        i = i + 1;
    }
    proof {
        assert(wsv.take(ws@.len() as int) =~= wsv);
    }
    if current.len() > 0 {
        let line = string_from(&current);
        let ghost old_lines = strings_view(lines@);
        lines.push(line);
        proof {
            assert(strings_view(lines@) =~= old_lines.push(current@));
        }
    }
    if lines.len() == 0 {
        lines.push(String::new());
        proof {
            assert(strings_view(lines@) =~= seq![Seq::<char>::empty()]);
        }
    }
    lines
}

// ---------------------------------------------------------------------------
// Base64
// ---------------------------------------------------------------------------

/// The base64 digit for `n` (`A`-`Z`, `a`-`z`, `0`-`9`, `+`, `/`).
pub open spec fn b64_digit(n: int) -> char {
    if n < 26 {
        ('A' as int + n) as char
    } else if n < 52 {
        ('a' as int + (n - 26)) as char
    } else if n < 62 {
        ('0' as int + (n - 52)) as char
    } else if n == 62 {
        '+'
    } else {
        '/'
    }
}

/// Standard base64 (with `=` padding) of `b`, three bytes at a time.
pub open spec fn base64(b: Seq<u8>) -> Seq<char>
    decreases b.len(),
{
    if b.len() == 0 {
        Seq::empty()
    } else {
        let x0 = b[0] as int;
        let x1 = if b.len() > 1 { b[1] as int } else { 0 };
        let x2 = if b.len() > 2 { b[2] as int } else { 0 };
        let d0 = b64_digit(x0 / 4);
        let d1 = b64_digit((x0 % 4) * 16 + x1 / 16);
        if b.len() == 1 {
            seq![d0, d1, '=', '=']
        } else if b.len() == 2 {
            seq![d0, d1, b64_digit((x1 % 16) * 4), '=']
        } else {
            seq![d0, d1, b64_digit((x1 % 16) * 4 + x2 / 64), b64_digit(x2 % 64)] + base64(b.skip(3))
        }
    }
}

fn b64_char(n: u8) -> (c: char)
    requires
        n < 64,
    ensures
        c == b64_digit(n as int),
{
    if n < 26 {
        (65u8 + n) as char
    } else if n < 52 {
        (97u8 + (n - 26)) as char
    } else if n < 62 {
        (48u8 + (n - 52)) as char
    } else if n == 62 {
        '+'
    } else {
        '/'
    }
}

/// Base64 of the UTF-8 bytes of `input`.
#[verifier::rlimit(40)]
pub fn base64_encode(input: &str) -> (r: String)
    ensures
        r@ == base64(input.spec_bytes()),
{
    let bytes = input.as_bytes();
    let mut result = String::new();
    let mut i: usize = 0;
    while i < bytes.len()
        invariant
            bytes@ == input.spec_bytes(),
            i <= bytes@.len(),
            result@ + base64(bytes@.skip(i as int)) == base64(bytes@),
        decreases bytes@.len() - i,
    {
        let ghost rest = bytes@.skip(i as int);
        let left = bytes.len() - i;
        let b0 = bytes[i];
        let b1 = if left > 1 { bytes[i + 1] } else { 0 };
        let b2 = if left > 2 { bytes[i + 2] } else { 0 };
        let ghost r0 = result@;
        push_char(&mut result, b64_char(b0 / 4));
        if left > 1 {
            push_char(&mut result, b64_char((b0 % 4) * 16 + b1 / 16));
            if left > 2 {
                push_char(&mut result, b64_char((b1 % 16) * 4 + b2 / 64));
                push_char(&mut result, b64_char(b2 % 64));
            } else {
                push_char(&mut result, b64_char((b1 % 16) * 4));
                push_char(&mut result, '=');
            }
        } else {
            push_char(&mut result, b64_char((b0 % 4) * 16));
            push_char(&mut result, '=');
            push_char(&mut result, '=');
        }
        proof {
            assert(rest[0] == b0);
            if left > 1 {
                assert(rest[1] == b1);
            }
            if left > 2 {
                assert(rest[2] == b2);
                assert(rest.skip(3) =~= bytes@.skip(i + 3));
            } else {
                assert(bytes@.skip(i + left) =~= Seq::<u8>::empty());
            }
            assert(result@ + base64(bytes@.skip(i + if left > 3 { 3 } else { left as int }))
                =~= r0 + base64(rest));
        }
        i = if left > 3 {
            i + 3
        } else {
            bytes.len()
        };
    }
    proof {
        assert(bytes@.skip(bytes@.len() as int) =~= Seq::<u8>::empty());
        assert(result@ + Seq::<char>::empty() =~= result@);
    }
    result
}

// ---------------------------------------------------------------------------
// Splitting at a separator
// ---------------------------------------------------------------------------

/// `s` cut at every `sep` (always at least one part; parts may be empty).
pub open spec fn split_on(s: Seq<char>, sep: char) -> Seq<Seq<char>>
    decreases s.len(),
{
    if s.len() == 0 {
        seq![Seq::empty()]
    } else if s.last() == sep {
        split_on(s.drop_last(), sep).push(Seq::empty())
    } else {
        let t = split_on(s.drop_last(), sep);
        t.update(t.len() - 1, t.last().push(s.last()))
    }
}

/// The view of a list of character vectors.
pub open spec fn chars_view(v: Seq<Vec<char>>) -> Seq<Seq<char>> {
    Seq::new(v.len(), |k: int| v[k]@)
}

/// `cs` cut at every `sep`.
pub fn split_chars(cs: &Vec<char>, sep: char) -> (r: Vec<Vec<char>>)
    ensures
        chars_view(r@) == split_on(cs@, sep),
        r@.len() >= 1,
{
    let mut r: Vec<Vec<char>> = Vec::new();
    r.push(Vec::new());
    proof {
        assert(chars_view(r@) =~= split_on(cs@.take(0), sep));
    }
    let mut i: usize = 0;
    while i < cs.len()
        invariant
            i <= cs@.len(),
            chars_view(r@) == split_on(cs@.take(i as int), sep),
            r@.len() >= 1,
        decreases cs@.len() - i,
    {
        let c = cs[i];
        let ghost old_r = r@;
        proof {
            assert(cs@.take(i + 1).drop_last() =~= cs@.take(i as int));
            assert(cs@.take(i + 1).last() == c);
        }
        if c == sep {
            r.push(Vec::new());
            proof {
                assert(chars_view(r@) =~= chars_view(old_r).push(Seq::<char>::empty()));
            }
        } else {
            let mut last = r.pop().unwrap();
            last.push(c);
            r.push(last);
            proof {
                let t = chars_view(old_r);
                assert(chars_view(r@) =~= t.update(t.len() - 1, t.last().push(c)));
            }
        }
        i = i + 1;
    }
    proof {
        assert(cs@.take(cs@.len() as int) =~= cs@);
    }
    r
}

} // verus!
