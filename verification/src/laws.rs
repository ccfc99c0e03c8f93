//! The laws of the library: properties that hold of every input and tie
//! several functions together.
use vstd::prelude::*;
use crate::link::{children_upto, depth_at, end_at, lemma_open_before, linked_from, parent_at, permuted_times, start_ordered, bounded_unit, Times};
use crate::span::{Span, SpanType, TraceEvent};
use crate::keys::{app_action, flame_action, AppAction, FlameAction, KeyCode, KeyPress};
use crate::view::{FollowingSpanDirection, HorizontalDirection};
use crate::text::{base64, b64_digit, collapse_state, collapsed, split_on};
use crate::templates::{concrete_id, first_index, join_args, last_index, template_parts, trim_start, trimmed};
use crate::nav::{displayed_roots, moved_selection, nav_ready, navigated_match, track_of};
use crate::load::{lemma_offset_mono, lemma_offset_nonneg, shifted_span, total_spans, unit_offset};
use crate::view::{children_after, displayed_children, parents_before, SpanView};
use crate::text::{ELLIPSIS, delim_len, join_sections, lemma_sections_join, sections, shorten_candidate, shorten_from, shortened, take_upto, wrap_state, wrapped, words};

verus! {

broadcast use vstd::seq_lib::group_seq_properties;

// ---------------------------------------------------------------------------
// Labels
// ---------------------------------------------------------------------------

/// The sections of a label, delimiters included, spell the label again.
pub proof fn law_sections_rejoin(label: Seq<char>)
    ensures
        join_sections(sections(label)) == label,
{
    lemma_sections_join(label);
}

/// A label is cut only at its delimiters: no section holds a `/` or a
/// `::`, every delimiter but the last is `/` or `::`, and the last one is
/// empty.
pub proof fn law_sections_cut_at_delimiters(label: Seq<char>)
    ensures
        forall|k: int, q: int|
            0 <= k < sections(label).len() ==> #[trigger] delim_len(sections(label)[k].0, q) == 0,
        forall|k: int|
            0 <= k < sections(label).len() - 1 ==> (#[trigger] sections(label)[k]).1 == seq!['/']
                || sections(label)[k].1 == seq![':', ':'],
        sections(label).len() >= 1,
        sections(label).last().1.len() == 0,
{
    lemma_sections_join(label);
    crate::text::lemma_sections_delimiters(label);
}

proof fn lemma_shorten_from_fits(secs: Seq<(Seq<char>, Seq<char>)>, r: int, w: int)
    requires
        w >= 1,
    ensures
        shorten_from(secs, r, w).len() <= w,
    decreases secs.len() + 1 - r,
{
    if r > secs.len() || r < 1 {
    } else {
        match shorten_candidate(secs, r, w) {
            Some(x) => {
                let suffix = join_sections(secs.skip(r));
                let conn = secs[r - 1].1;
                let min_len = 1 + conn.len() + suffix.len();
                assert(take_upto(secs[r - 1].0, w - min_len).len() <= w - min_len);
            },
            None => {
                lemma_shorten_from_fits(secs, r + 1, w);
            },
        }
    }
}

/// A shortened label fits in its width.
pub proof fn law_shortened_fits(label: Seq<char>, w: nat)
    ensures
        shortened(label, w as int).len() <= w,
{
    if label.len() <= w {
    } else if w == 0 {
    } else if sections(label).len() == 1 {
    } else {
        lemma_shorten_from_fits(sections(label), 1, w as int);
    }
}


proof fn lemma_wrap_state_fits(ws: Seq<Seq<char>>, width: int)
    requires
        width > 0,
        forall|k: int| 0 <= k < ws.len() ==> (#[trigger] ws[k]).len() <= width,
    ensures
        forall|k: int|
            0 <= k < wrap_state(ws, width).0.len() ==> (#[trigger] wrap_state(ws, width).0[k]).len()
                <= width,
        wrap_state(ws, width).1.len() <= width,
    decreases ws.len(),
{
    if ws.len() > 0 {
        let d = ws.drop_last();
        assert forall|k: int| 0 <= k < d.len() implies (#[trigger] d[k]).len() <= width by {
            assert(d[k] == ws[k]);
        }
        lemma_wrap_state_fits(d, width);
        let st = wrap_state(d, width);
        let w = ws.last();
        assert(w.len() <= width);
        let nst = wrap_state(ws, width);
        if st.1.len() == 0 {
        } else if st.1.len() + 1 + w.len() <= width {
        } else {
            assert forall|k: int| 0 <= k < nst.0.len() implies (#[trigger] nst.0[k]).len() <= width by {
                if k < st.0.len() {
                    assert(nst.0[k] == st.0[k]);
                }
            }
        }
    }
}

/// When no word of the text is longer than the width, every wrapped line
/// fits in the width.
pub proof fn law_wrapped_lines_fit(text: Seq<char>, width: nat)
    requires
        width > 0,
        forall|k: int| 0 <= k < words(text).len() ==> (#[trigger] words(text)[k]).len() <= width,
    ensures
        forall|k: int| 0 <= k < wrapped(text, width as int).len() ==> (#[trigger] wrapped(text, width as int)[k]).len() <= width,
{
    lemma_wrap_state_fits(words(text), width as int);
    let st = wrap_state(words(text), width as int);
    let lines = if st.1.len() > 0 {
        st.0.push(st.1)
    } else {
        st.0
    };
    assert forall|k: int| 0 <= k < lines.len() implies (#[trigger] lines[k]).len() <= width by {
        if k < st.0.len() {
            assert(lines[k] == st.0[k]);
        }
    }
}


// ---------------------------------------------------------------------------
// Linking
// ---------------------------------------------------------------------------

proof fn lemma_children_upto(t: Times, j: int, m: int)
    requires
        m <= t.len(),
        m <= usize::MAX + 1,
    ensures
        forall|k: int|
            0 <= k < children_upto(t, j, m).len() ==> j < #[trigger] children_upto(t, j, m)[k] < m
                && parent_at(t, children_upto(t, j, m)[k] as int) == j,
        forall|c: int| 1 <= c < m && parent_at(t, c) == j ==> children_upto(t, j, m).contains(c as usize),
    decreases m,
{
    if m > 1 {
        lemma_children_upto(t, j, m - 1);
        lemma_open_before(t, m - 1, m - 1);
        let prev = children_upto(t, j, m - 1);
        let cur = children_upto(t, j, m);
        assert forall|k: int| 0 <= k < cur.len() implies j < #[trigger] cur[k] < m && parent_at(t, cur[k] as int)
            == j by {
            if k < prev.len() {
                assert(cur[k] == prev[k]);
            } else {
                assert(cur[k] == (m - 1) as usize);
            }
        }
        assert forall|c: int| 1 <= c < m && parent_at(t, c) == j implies cur.contains(c as usize) by {
            if c < m - 1 {
                assert(prev.contains(c as usize));
                let k = choose|k: int| 0 <= k < prev.len() && prev[k] == c as usize;
                assert(cur[k] == prev[k]);
            } else {
                assert(cur.last() == c as usize);
            }
        }
    }
}

/// The facts of `linked_from` that the tree law needs, one span at a time.
proof fn lemma_linked_span(old: Seq<Span>, perm: Seq<int>, fin: Seq<Span>, i: int)
    requires
        linked_from(old, perm, fin),
        old.len() <= usize::MAX,
        old[0].children_indices@.len() == 0,
        old[0].parent_index is None,
        old[0].depth == 0,
        0 <= i < old.len(),
    ensures
        ({
            let t = permuted_times(old, perm);
            &&& fin[i].children_indices@ == children_upto(t, i, old.len() as int)
            &&& fin[i].depth == depth_at(t, i)
            &&& (i >= 1 ==> fin[i].parent_index == Some(parent_at(t, i) as usize) && fin[i].start_time
                == t[i].0 + bounded_unit(t).0 && fin[i].duration == t[i].1)
            &&& (i == 0 ==> fin[i].parent_index is None)
        }),
{
    let t = permuted_times(old, perm);
    if i == 0 {
        assert(fin[0].children_indices@ =~= children_upto(t, 0, old.len() as int));
    }
}

/// After linking the spans of a fresh unit (the unit first, without
/// parent, children or depth), every other span has an earlier parent,
/// lies one level below it, is listed among its children, and starts
/// while its parent (other than the unit) is open; children lists hold
/// only later spans.
#[verifier::spinoff_prover]
pub proof fn law_linked_tree(old: Seq<Span>, perm: Seq<int>, fin: Seq<Span>)
    requires
        linked_from(old, perm, fin),
        old.len() >= 1,
        old.len() <= usize::MAX,
        old[0].parent_index is None,
        old[0].children_indices@.len() == 0,
        old[0].depth == 0,
    ensures
        parents_before(fin),
        children_after(fin),
        forall|i: int|
            1 <= i < fin.len() ==> ((#[trigger] fin[i]).parent_index matches Some(p) && fin[i].depth
                == fin[p as int].depth + 1 && fin[p as int].children_indices@.contains(i as usize)),
        forall|i: int|
            1 <= i < fin.len() ==> ((#[trigger] fin[i]).parent_index matches Some(p) && (p >= 1 ==> fin[p as int].start_time
                <= fin[i].start_time < fin[p as int].start_time + fin[p as int].duration)),
{
    let n = old.len() as int;
    let t = permuted_times(old, perm);
    assert(fin.len() == n);
    assert forall|i: int| 0 <= i < fin.len() implies ((#[trigger] fin[i]).parent_index matches Some(p)
        ==> p < i) by {
        lemma_linked_span(old, perm, fin, i);
        if i >= 1 {
            lemma_open_before(t, i, i);
        }
    }
    assert forall|i: int, k: int|
        0 <= i < fin.len() && 0 <= k < fin[i].children_indices@.len() implies i < (
        #[trigger] fin[i].children_indices@[k]) < fin.len() by {
        lemma_linked_span(old, perm, fin, i);
        lemma_children_upto(t, i, n);
    }
    assert forall|i: int|
        1 <= i < fin.len() implies ((#[trigger] fin[i]).parent_index matches Some(p) && fin[i].depth
            == fin[p as int].depth + 1 && fin[p as int].children_indices@.contains(i as usize)) by {
        lemma_linked_span(old, perm, fin, i);
        lemma_open_before(t, i, i);
        let p = parent_at(t, i);
        lemma_linked_span(old, perm, fin, p);
        lemma_children_upto(t, p, n);
    }
    assert forall|i: int|
        1 <= i < fin.len() implies ((#[trigger] fin[i]).parent_index matches Some(p) && (p >= 1
            ==> fin[p as int].start_time <= fin[i].start_time < fin[p as int].start_time + fin[p as int].duration)) by {
        lemma_linked_span(old, perm, fin, i);
        lemma_open_before(t, i, i);
        let p = parent_at(t, i);
        if p >= 1 {
            lemma_linked_span(old, perm, fin, p);
            assert(start_ordered(t));
            assert(t[p].0 <= t[i].0);
            assert(end_at(t, p) > t[i].0);
        }
    }
}


// ---------------------------------------------------------------------------
// Merging units
// ---------------------------------------------------------------------------

/// The unit and position within it of span `i` of the merged list.
proof fn lemma_locate(units: Seq<Seq<Span>>, i: int) -> (r: (int, int))
    requires
        0 <= i < total_spans(units),
    ensures
        0 <= r.0 < units.len(),
        0 <= r.1 < units[r.0].len(),
        i == unit_offset(units, r.0) + r.1,
    decreases units.len(),
{
    let n = units.len() as int;
    let d = units.drop_last();
    assert forall|u: int| 0 <= u <= d.len() implies unit_offset(d, u) == unit_offset(units, u) by {
        lemma_offset_prefix(units, u);
    }
    if i < unit_offset(units, n - 1) {
        assert(total_spans(d) == unit_offset(units, n - 1));
        let (u, k) = lemma_locate(d, i);
        assert(d[u] == units[u]);
        (u, k)
    } else {
        (n - 1, i - unit_offset(units, n - 1))
    }
}

proof fn lemma_offset_prefix(units: Seq<Seq<Span>>, u: int)
    requires
        0 <= u < units.len(),
    ensures
        unit_offset(units.drop_last(), u) == unit_offset(units, u),
    decreases u,
{
    if u > 0 {
        lemma_offset_prefix(units, u - 1);
        assert(units.drop_last()[u - 1] == units[u - 1]);
    }
}

/// The facts of one merged span.
#[verifier::spinoff_prover]
proof fn lemma_merged_span(units: Seq<Seq<Span>>, out: Seq<Span>, i: int)
    requires
        out.len() == total_spans(units),
        out.len() <= usize::MAX,
        forall|u: int, k: int|
            0 <= u < units.len() && 0 <= k < units[u].len() ==> shifted_span(
                out[unit_offset(units, u) + k],
                #[trigger] units[u][k],
                unit_offset(units, u),
            ),
        forall|u: int| 0 <= u < units.len() ==> parents_before(#[trigger] units[u]) && children_after(units[u]),
        forall|u: int| 0 <= u < units.len() && units[u].len() > 0 ==> (#[trigger] units[u])[0].parent_index is None,
        0 <= i < out.len(),
    ensures
        out[i].parent_index matches Some(p) ==> p < i,
        forall|c: int| 0 <= c < out[i].children_indices@.len() ==> i < #[trigger] out[i].children_indices@[c] < out.len(),
        out[i].root_span_index <= i,
        out[out[i].root_span_index as int].parent_index is None,
{
    let (u, k) = lemma_locate(units, i);
    let off = unit_offset(units, u);
    let s = units[u][k];
    let s0 = units[u][0];
    assert(shifted_span(out[i], s, off));
    assert(shifted_span(out[off + 0], s0, off));
    lemma_offset_nonneg(units, u);
    lemma_offset_mono(units, u, units.len() as int);
    assert(parents_before(units[u]));
    assert(children_after(units[u]));
    assert(s0.parent_index is None);
    match s.parent_index {
        Some(p) => {
            assert(p < k);
        },
        None => {},
    }
    assert forall|c: int| 0 <= c < out[i].children_indices@.len() implies i < #[trigger] out[i].children_indices@[c]
        < out.len() by {
        assert(out[i].children_indices@[c] == (s.children_indices@[c] + off) as usize);
        assert(k < s.children_indices@[c] < units[u].len());
    }
}

/// Merging units whose indices point inside each unit (parents before,
/// children after, the unit's first span a root) gives one list with the
/// same property, where every span's root is an earlier root span: the
/// first span of its unit.
pub proof fn law_merged_consistent(units: Seq<Seq<Span>>, out: Seq<Span>)
    requires
        out.len() == total_spans(units),
        out.len() <= usize::MAX,
        forall|u: int, k: int|
            0 <= u < units.len() && 0 <= k < units[u].len() ==> shifted_span(
                out[unit_offset(units, u) + k],
                #[trigger] units[u][k],
                unit_offset(units, u),
            ),
        forall|u: int| 0 <= u < units.len() ==> parents_before(#[trigger] units[u]) && children_after(units[u]),
        forall|u: int| 0 <= u < units.len() && units[u].len() > 0 ==> (#[trigger] units[u])[0].parent_index is None,
    ensures
        parents_before(out),
        children_after(out),
        forall|i: int|
            0 <= i < out.len() ==> (#[trigger] out[i]).root_span_index <= i && out[out[i].root_span_index as int].parent_index is None,
{
    assert forall|i: int| 0 <= i < out.len() implies ((#[trigger] out[i]).parent_index matches Some(p) ==> p < i)
        && out[i].root_span_index <= i && out[out[i].root_span_index as int].parent_index is None by {
        lemma_merged_span(units, out, i);
    }
    assert forall|i: int, c: int|
        0 <= i < out.len() && 0 <= c < out[i].children_indices@.len() implies i < (
        #[trigger] out[i].children_indices@[c]) < out.len() by {
        lemma_merged_span(units, out, i);
    }
}


// ---------------------------------------------------------------------------
// Encoding and searching
// ---------------------------------------------------------------------------

/// Base64 turns every started group of three bytes into four characters.
pub proof fn law_base64_length(b: Seq<u8>)
    ensures
        base64(b).len() == 4 * ((b.len() + 2) / 3),
    decreases b.len(),
{
    if b.len() >= 3 {
        law_base64_length(b.skip(3));
        assert((b.len() + 2) / 3 == (b.skip(3).len() + 2) / 3 + 1);
    }
}

// ---------------------------------------------------------------------------
// Template identifiers
// ---------------------------------------------------------------------------

proof fn lemma_first_index_absent(s: Seq<char>, c: char)
    requires
        !s.contains(c),
    ensures
        first_index(s, c) is None,
    decreases s.len(),
{
    if s.len() > 0 {
        assert(!s.drop_last().contains(c)) by {
            if s.drop_last().contains(c) {
                let w = choose|w: int| 0 <= w < s.drop_last().len() && s.drop_last()[w] == c;
                assert(s[w] == c);
            }
        }
        lemma_first_index_absent(s.drop_last(), c);
        assert(s[s.len() - 1] != c);
    }
}

proof fn lemma_first_index_extend(s: Seq<char>, c: char, k: int)
    requires
        0 <= k <= s.len(),
        first_index(s.take(k), c) is Some,
    ensures
        first_index(s, c) == first_index(s.take(k), c),
    decreases s.len() - k,
{
    if k < s.len() {
        assert(s.take(k + 1).drop_last() =~= s.take(k));
        lemma_first_index_extend(s, c, k + 1);
    } else {
        assert(s.take(k) =~= s);
    }
}

proof fn lemma_split_plain(t: Seq<char>, sep: char)
    requires
        !t.contains(sep),
    ensures
        split_on(t, sep) == seq![t],
    decreases t.len(),
{
    if t.len() > 0 {
        let d = t.drop_last();
        assert(!d.contains(sep)) by {
            if d.contains(sep) {
                let w = choose|w: int| 0 <= w < d.len() && d[w] == sep;
                assert(t[w] == sep);
            }
        }
        lemma_split_plain(d, sep);
        assert(t[t.len() - 1] != sep);
        assert(d.push(t.last()) =~= t);
    }
}

proof fn lemma_split_after_sep(x: Seq<char>, t: Seq<char>, sep: char)
    requires
        !t.contains(sep),
    ensures
        split_on(x + seq![sep] + t, sep) == split_on(x, sep).push(t),
    decreases t.len(),
{
    let s = x + seq![sep] + t;
    if t.len() == 0 {
        assert(s.drop_last() =~= x);
        assert(s.last() == sep);
        assert(t =~= Seq::<char>::empty());
    } else {
        let d = t.drop_last();
        assert(!d.contains(sep)) by {
            if d.contains(sep) {
                let w = choose|w: int| 0 <= w < d.len() && d[w] == sep;
                assert(t[w] == sep);
            }
        }
        lemma_split_after_sep(x, d, sep);
        assert(s.drop_last() =~= x + seq![sep] + d);
        assert(s.last() == t[t.len() - 1]);
        assert(t[t.len() - 1] != sep);
        assert(d.push(t.last()) =~= t);
        assert(split_on(s, sep) =~= split_on(x, sep).push(t));
    }
}

/// The arguments as they come out of splitting their join at commas: all
/// but the first keep the space that followed the comma.
pub open spec fn spaced_args(args: Seq<Seq<char>>) -> Seq<Seq<char>> {
    Seq::new(args.len(), |k: int| if k == 0 { args[0] } else { seq![' '] + args[k] })
}

proof fn lemma_split_join_args(args: Seq<Seq<char>>)
    requires
        args.len() >= 1,
        forall|k: int| 0 <= k < args.len() ==> !(#[trigger] args[k]).contains(','),
    ensures
        split_on(join_args(args), ',') == spaced_args(args),
    decreases args.len(),
{
    if args.len() == 1 {
        lemma_split_plain(args[0], ',');
        assert(spaced_args(args) =~= seq![args[0]]);
    } else {
        let d = args.drop_last();
        assert forall|k: int| 0 <= k < d.len() implies !(#[trigger] d[k]).contains(',') by {
            assert(d[k] == args[k]);
        }
        lemma_split_join_args(d);
        let t = seq![' '] + args.last();
        assert(!t.contains(',')) by {
            if t.contains(',') {
                let w = choose|w: int| 0 <= w < t.len() && t[w] == ',';
                assert(w > 0);
                assert(args.last()[w - 1] == ',');
                assert(args[args.len() - 1].contains(','));
            }
        }
        reveal_strlit(", ");
        assert(join_args(args) =~= join_args(d) + seq![','] + t);
        lemma_split_after_sep(join_args(d), t, ',');
        assert(spaced_args(args) =~= spaced_args(d).push(t));
    }
}

/// Splitting the identifier of a concrete instantiation gives back its
/// name and arguments, when the name holds no `<` and each argument is
/// trimmed and holds no comma.
pub proof fn law_template_identifier_round_trip(name: Seq<char>, args: Seq<Seq<char>>)
    requires
        !name.contains('<'),
        args.len() >= 1,
        forall|k: int| 0 <= k < args.len() ==> !(#[trigger] args[k]).contains(','),
        forall|k: int| 0 <= k < args.len() ==> trimmed(#[trigger] args[k]) == args[k],
    ensures
        template_parts(concrete_id(name, args)) == (name, args),
{
    let j = join_args(args);
    let id = concrete_id(name, args);
    assert(id =~= name + "<"@ + j + ">"@) by {
        reveal_strlit("<");
        reveal_strlit(">");
    }
    reveal_strlit("<");
    reveal_strlit(">");
    let o = name.len() as int;
    let c = id.len() - 1;
    lemma_first_index_absent(name, '<');
    assert(id.take(o + 1).drop_last() =~= name);
    assert(id.take(o + 1).last() == '<');
    assert(first_index(id.take(o + 1), '<') == Some(o));
    lemma_first_index_extend(id, '<', o + 1);
    assert(id.last() == '>');
    assert(last_index(id, '>') == Some(c));
    assert(c > o);
    assert(id.take(o) =~= name);
    assert(id.subrange(o + 1, c) =~= j);
    lemma_split_join_args(args);
    let parts = spaced_args(args).map_values(|a: Seq<char>| trimmed(a));
    assert forall|k: int| 0 <= k < args.len() implies #[trigger] parts[k] == args[k] by {
        if k > 0 {
            let sp = seq![' '] + args[k];
            assert(sp.drop_first() =~= args[k]);
            assert(trim_start(sp) == trim_start(args[k]));
        }
    }
    assert(parts =~= args);
}

/// The value of a base64 digit (`A`-`Z`, `a`-`z`, `0`-`9`, `+`, `/`).
pub open spec fn b64_value(c: char) -> int {
    if 'A' <= c && c <= 'Z' {
        c as int - 'A' as int
    } else if 'a' <= c && c <= 'z' {
        c as int - 'a' as int + 26
    } else if '0' <= c && c <= '9' {
        c as int - '0' as int + 52
    } else if c == '+' {
        62
    } else {
        63
    }
}

/// Standard base64 decoding, four characters at a time; `=` ends the
/// text.
pub open spec fn base64_decoded(cs: Seq<char>) -> Seq<u8>
    decreases cs.len(),
{
    if cs.len() < 4 {
        Seq::empty()
    } else {
        let v0 = b64_value(cs[0]);
        let v1 = b64_value(cs[1]);
        let v2 = b64_value(cs[2]);
        let v3 = b64_value(cs[3]);
        let b0 = (v0 * 4 + v1 / 16) as u8;
        if cs[2] == '=' {
            seq![b0]
        } else {
            let b1 = ((v1 % 16) * 16 + v2 / 4) as u8;
            if cs[3] == '=' {
                seq![b0, b1]
            } else {
                seq![b0, b1, ((v2 % 4) * 64 + v3) as u8] + base64_decoded(cs.skip(4))
            }
        }
    }
}

proof fn lemma_b64_digit(n: int)
    requires
        0 <= n < 64,
    ensures
        b64_value(b64_digit(n)) == n,
        b64_digit(n) != '=',
{
}

proof fn lemma_b64_group(x0: int, x1: int, x2: int)
    requires
        0 <= x0 < 256,
        0 <= x1 < 256,
        0 <= x2 < 256,
    ensures
        0 <= x0 / 4 < 64,
        0 <= (x0 % 4) * 16 + x1 / 16 < 64,
        0 <= (x1 % 16) * 4 + x2 / 64 < 64,
        0 <= x2 % 64 < 64,
        (x0 / 4) * 4 + ((x0 % 4) * 16 + x1 / 16) / 16 == x0,
        (((x0 % 4) * 16 + x1 / 16) % 16) * 16 + ((x1 % 16) * 4 + x2 / 64) / 4 == x1,
        (((x1 % 16) * 4 + x2 / 64) % 4) * 64 + x2 % 64 == x2,
{
    assert(((x0 % 4) * 16 + x1 / 16) / 16 == x0 % 4) by (nonlinear_arith)
        requires 0 <= x0 < 256, 0 <= x1 < 256;
    assert(((x0 % 4) * 16 + x1 / 16) % 16 == x1 / 16) by (nonlinear_arith)
        requires 0 <= x0 < 256, 0 <= x1 < 256;
    assert(((x1 % 16) * 4 + x2 / 64) / 4 == x1 % 16) by (nonlinear_arith)
        requires 0 <= x1 < 256, 0 <= x2 < 256;
    assert(((x1 % 16) * 4 + x2 / 64) % 4 == x2 / 64) by (nonlinear_arith)
        requires 0 <= x1 < 256, 0 <= x2 < 256;
}

/// Decoding the base64 of some bytes gives the bytes back.
pub proof fn law_base64_decodes(b: Seq<u8>)
    ensures
        base64_decoded(base64(b)) == b,
    decreases b.len(),
{
    if b.len() > 0 {
        let x0 = b[0] as int;
        let x1 = if b.len() > 1 { b[1] as int } else { 0 };
        let x2 = if b.len() > 2 { b[2] as int } else { 0 };
        lemma_b64_group(x0, x1, x2);
        lemma_b64_digit(x0 / 4);
        lemma_b64_digit((x0 % 4) * 16 + x1 / 16);
        lemma_b64_digit((x1 % 16) * 4 + x2 / 64);
        lemma_b64_digit(x2 % 64);
        lemma_b64_digit((x1 % 16) * 4);
        let e = base64(b);
        if b.len() == 1 {
            assert(base64_decoded(e) =~= b);
        } else if b.len() == 2 {
            assert((x1 % 16) * 4 == (x1 % 16) * 4 + x2 / 64);
            assert(base64_decoded(e) =~= b);
        } else {
            law_base64_decodes(b.skip(3));
            assert(e.skip(4) =~= base64(b.skip(3)));
            assert(b =~= seq![b[0], b[1], b[2]] + b.skip(3));
            assert(base64_decoded(e) =~= b);
        }
    }
}

/// Moving between search matches always lands on a match.
pub proof fn law_navigate_lands_on_match(matches: Seq<usize>, selected: Option<usize>, direction: int)
    requires
        matches.len() > 0,
    ensures
        navigated_match(matches, selected, direction) matches Some(x) && matches.contains(x),
{
    let n = matches.len() as int;
    let pos = match selected {
        Some(sel) => crate::view::position_of(matches, sel),
        None => None,
    };
    let np = match pos {
        Some(p) => (p + direction) % n,
        None => if direction > 0 {
            0
        } else {
            n - 1
        },
    };
    assert(0 <= np < n);
    assert(matches[np] == matches[np]);
}

proof fn lemma_position_found(s: Seq<usize>, x: usize)
    requires
        s.contains(x),
    ensures
        crate::view::position_of(s, x) is Some,
    decreases s.len(),
{
    if s[0] != x {
        let w = choose|w: int| 0 <= w < s.len() && s[w] == x;
        assert(s.drop_first()[w - 1] == x);
        lemma_position_found(s.drop_first(), x);
    }
}

/// Among distinct matches, stepping to the next match and back to the
/// previous one returns to the match one started from.
pub proof fn law_next_then_previous(matches: Seq<usize>, x: usize)
    requires
        matches.no_duplicates(),
        matches.contains(x),
    ensures
        navigated_match(matches, navigated_match(matches, Some(x), 1), -1) == Some(x),
{
    let n = matches.len() as int;
    lemma_position_found(matches, x);
    crate::view::lemma_position_of(matches, x);
    let p = crate::view::position_of(matches, x).unwrap();
    let q = (p + 1) % n;
    assert(navigated_match(matches, Some(x), 1) == Some(matches[q]));
    assert(matches.contains(matches[q]));
    lemma_position_found(matches, matches[q]);
    crate::view::lemma_position_of(matches, matches[q]);
    let k = crate::view::position_of(matches, matches[q]).unwrap();
    assert(k == q);
    assert(0 <= p < n);
    if p + 1 < n {
        vstd::arithmetic::div_mod::lemma_small_mod((p + 1) as nat, n as nat);
        vstd::arithmetic::div_mod::lemma_small_mod(p as nat, n as nat);
    } else {
        vstd::arithmetic::div_mod::lemma_mod_self_0(n);
        assert((0 - 1) % n == n - 1) by (nonlinear_arith)
            requires
                n > 0,
        ;
    }
}

// ---------------------------------------------------------------------------
// Template instantiations
// ---------------------------------------------------------------------------

/// A span is a root instantiation exactly when its sublabel is
/// `Instantiation`, it is a template or a class, and its parent, if any, is
/// neither a template nor a class: an instantiation nested in another one
/// is never a root, so its time is not counted twice.
pub proof fn law_root_instantiations(spans: Seq<Span>, i: int)
    requires
        0 <= i < spans.len(),
    ensures
        crate::templates::root_instantiation(spans, i) <==> (
            crate::link::opt_chars(spans[i].sublabel) == Some("Instantiation"@)
            && (spans[i].type_ == SpanType::Template || spans[i].type_ == SpanType::Class)
            && match spans[i].parent_index {
                Some(p) => spans[p as int].type_ != SpanType::Template && spans[p as int].type_ != SpanType::Class,
                None => true,
            }),
        spans[i].parent_index matches Some(p) && (spans[p as int].type_ == SpanType::Template
            || spans[p as int].type_ == SpanType::Class) ==> !crate::templates::root_instantiation(spans, i),
{
}

// ---------------------------------------------------------------------------
// Trace events
// ---------------------------------------------------------------------------

/// The complete events of the compiler's phases (`Frontend`, `Backend`,
/// `PerformPendingInstantiations`, `CodeGen Function`, `DebugType`) become
/// task spans labelled with the phase's name and without a sublabel; the
/// other kinds become spans of their kind with their sublabel; an event
/// that is not complete gives no span.
pub proof fn law_event_kinds(e: TraceEvent, build_dir: Seq<char>)
    ensures
        e.ph@ != "X"@ ==> !crate::link::event_gives_span(e),
        e.ph@ == "X"@ && e.name is Some && (e.name.unwrap()@ == "Frontend"@ || e.name.unwrap()@ == "Backend"@
            || e.name.unwrap()@ == "PerformPendingInstantiations"@ || e.name.unwrap()@ == "CodeGen Function"@
            || e.name.unwrap()@ == "DebugType"@)
            ==> crate::link::event_gives_span(e) && forall|s: Span|
            crate::link::span_of_event(s, e, build_dir) ==> s.type_ == SpanType::Task && s.label@ == e.name.unwrap()@
                && s.sublabel is None && s.start_time == e.ts,
        e.ph@ == "X"@ && e.name is Some && e.name.unwrap()@ == "Source"@ ==> crate::link::event_gives_span(e)
            && forall|s: Span|
            crate::link::span_of_event(s, e, build_dir) ==> s.type_ == SpanType::Source
                && crate::link::opt_chars(s.sublabel) == Some("Inclusion"@),
        e.ph@ == "X"@ && e.name is Some && e.name.unwrap()@ == "InstantiateClass"@ ==> crate::link::event_gives_span(e)
            && forall|s: Span|
            crate::link::span_of_event(s, e, build_dir) ==> s.type_ == SpanType::Class
                && crate::link::opt_chars(s.sublabel) == Some("Instantiation"@),
        e.ph@ == "X"@ && e.name is Some && e.name.unwrap()@ == "InstantiateTemplate"@ ==> crate::link::event_gives_span(e)
            && forall|s: Span|
            crate::link::span_of_event(s, e, build_dir) ==> s.type_ == SpanType::Template
                && crate::link::opt_chars(s.sublabel) == Some("Instantiation"@),
        e.ph@ == "X"@ && e.name is Some && e.name.unwrap()@ == "ParseClass"@ ==> crate::link::event_gives_span(e)
            && forall|s: Span|
            crate::link::span_of_event(s, e, build_dir) ==> s.type_ == SpanType::Class
                && crate::link::opt_chars(s.sublabel) == Some("Parsing"@),
        e.ph@ == "X"@ && e.name is Some && e.name.unwrap()@ == "ParseTemplate"@ ==> crate::link::event_gives_span(e)
            && forall|s: Span|
            crate::link::span_of_event(s, e, build_dir) ==> s.type_ == SpanType::Template
                && crate::link::opt_chars(s.sublabel) == Some("Parsing"@),
{
    reveal_strlit("X");
    reveal_strlit("Frontend");
    reveal_strlit("Backend");
    reveal_strlit("PerformPendingInstantiations");
    reveal_strlit("CodeGen Function");
    reveal_strlit("DebugType");
    reveal_strlit("Source");
    reveal_strlit("ParseClass");
    reveal_strlit("ParseTemplate");
    reveal_strlit("InstantiateClass");
    reveal_strlit("InstantiateTemplate");
    reveal_strlit("Inclusion");
    reveal_strlit("Instantiation");
    reveal_strlit("Parsing");
    assert("Frontend"@.len() == 8);
    assert("Backend"@.len() == 7);
    assert("PerformPendingInstantiations"@.len() == 28);
    assert("CodeGen Function"@.len() == 16);
    assert("DebugType"@.len() == 9);
    assert("Source"@.len() == 6);
    assert("ParseClass"@.len() == 10);
    assert("ParseTemplate"@.len() == 13);
    assert("InstantiateClass"@.len() == 16);
    assert("InstantiateTemplate"@.len() == 19);
    if e.name is Some {
        let n = e.name.unwrap()@;
        assert(crate::link::event_name(e) == n);
        assert("CodeGen Function"@[0] != "InstantiateClass"@[0]);
        assert("InstantiateClass"@[0] != "CodeGen Function"@[0]);
    }
}

// ---------------------------------------------------------------------------
// Key bindings
// ---------------------------------------------------------------------------

/// The documented flamegraph keys: `Ctrl+Up`/`Ctrl+Down`, `+`/`=`/`-` and
/// `PageUp`/`PageDown` zoom; `Ctrl+Left`/`Ctrl+Right` pan (finely with
/// `Shift`); the arrows move to the parent, the first child and the
/// previous or next sibling; `r` resets the zoom; `Space` zooms to the
/// selection; `Esc` clears it; `Tab`/`Shift+Tab` switch tracks; `y` copies
/// the identifier and `Ctrl+Y` the candidates; `m` toggles the sort mode.
pub proof fn law_flame_bindings(key: KeyPress)
    ensures
        key.code == KeyCode::Up && key.ctrl ==> flame_action(key) == (FlameAction::ZoomIn { fast: false }),
        key.code == KeyCode::Down && key.ctrl ==> flame_action(key) == (FlameAction::ZoomOut { fast: false }),
        key.code == KeyCode::PageUp ==> flame_action(key) == (FlameAction::ZoomIn { fast: true }),
        key.code == KeyCode::PageDown ==> flame_action(key) == (FlameAction::ZoomOut { fast: true }),
        key.code == KeyCode::Left && key.ctrl ==> flame_action(key) == (FlameAction::PanLeft { fine: key.shift }),
        key.code == KeyCode::Right && key.ctrl ==> flame_action(key) == (FlameAction::PanRight { fine: key.shift }),
        key.code == KeyCode::Up && !key.ctrl ==> flame_action(key) == FlameAction::Move(FollowingSpanDirection::Parent),
        key.code == KeyCode::Down && !key.ctrl ==> flame_action(key) == FlameAction::Move(FollowingSpanDirection::Child),
        key.code == KeyCode::Left && !key.ctrl ==> flame_action(key) == FlameAction::Move(
            FollowingSpanDirection::Previous,
        ),
        key.code == KeyCode::Right && !key.ctrl ==> flame_action(key) == FlameAction::Move(FollowingSpanDirection::Next),
        key.code == KeyCode::Char('+') || key.code == KeyCode::Char('=') ==> flame_action(key)
            == (FlameAction::ZoomIn { fast: false }),
        key.code == KeyCode::Char('-') ==> flame_action(key) == (FlameAction::ZoomOut { fast: false }),
        key.code == KeyCode::Char('r') ==> flame_action(key) == FlameAction::ResetZoom,
        key.code == KeyCode::Char(' ') ==> flame_action(key) == FlameAction::ZoomToSelected,
        key.code == KeyCode::Esc ==> flame_action(key) == FlameAction::ClearSelection,
        key.code == KeyCode::Tab ==> flame_action(key) == FlameAction::SwitchTrack(HorizontalDirection::Next),
        key.code == KeyCode::BackTab ==> flame_action(key) == FlameAction::SwitchTrack(HorizontalDirection::Previous),
        key.code == KeyCode::Char('y') && !key.ctrl ==> flame_action(key) == FlameAction::CopyIdentifier,
        key.code == KeyCode::Char('y') && key.ctrl ==> flame_action(key) == FlameAction::CopyCandidates,
        key.code == KeyCode::Char('m') ==> flame_action(key) == FlameAction::ToggleSortMode,
{
}

/// The documented viewer keys: `q` and `Ctrl+C` quit, `?` toggles the
/// help, `s` opens the search, `Alt+1`/`Alt+2`/`Alt+3` jump to an existing
/// tab and `Alt+T` to the next one, cyclically; with the help shown, an
/// arrow key closes it.
pub proof fn law_app_bindings(key: KeyPress, show_help: bool, n_tabs: usize, current: usize)
    requires
        n_tabs > 0,
        current < n_tabs,
    ensures
        key.code == KeyCode::Char('q') || key.code == KeyCode::Char('Q') ==> app_action(key, show_help, n_tabs, current)
            == AppAction::Quit,
        key.code == KeyCode::Char('c') && key.ctrl ==> app_action(key, show_help, n_tabs, current) == AppAction::Quit,
        key.code == KeyCode::Char('?') ==> app_action(key, show_help, n_tabs, current) == AppAction::ToggleHelp,
        key.code == KeyCode::Char('s') ==> app_action(key, show_help, n_tabs, current) == AppAction::OpenSearch,
        key.code == KeyCode::Char('1') && key.alt ==> app_action(key, show_help, n_tabs, current)
            == AppAction::SelectTab(0),
        key.code == KeyCode::Char('2') && key.alt && n_tabs >= 2 ==> app_action(key, show_help, n_tabs, current)
            == AppAction::SelectTab(1),
        key.code == KeyCode::Char('3') && key.alt && n_tabs >= 3 ==> app_action(key, show_help, n_tabs, current)
            == AppAction::SelectTab(2),
        key.code == KeyCode::Char('t') && key.alt ==> app_action(key, show_help, n_tabs, current)
            == AppAction::SelectTab((if current + 1 == n_tabs { 0 } else { (current + 1) as usize })),
        key.code == KeyCode::Left && show_help ==> app_action(key, show_help, n_tabs, current) == AppAction::CloseHelp,
        key.code == KeyCode::Left && !show_help ==> app_action(key, show_help, n_tabs, current) == AppAction::ToTab,
{
    if key.code == KeyCode::Char('t') && key.alt {
        if current + 1 == n_tabs {
            vstd::arithmetic::div_mod::lemma_mod_self_0(n_tabs as int);
        } else {
            vstd::arithmetic::div_mod::lemma_small_mod((current + 1) as nat, n_tabs as nat);
        }
    }
}

// ---------------------------------------------------------------------------
// Moving the selection
// ---------------------------------------------------------------------------

proof fn lemma_roots_distinct(spans: Seq<Span>, views: Seq<SpanView>, m: int, d: bool)
    ensures
        displayed_roots(spans, views, m, d).no_duplicates(),
    decreases m,
{
    if m > 0 {
        lemma_roots_distinct(spans, views, m - 1, d);
    }
}

proof fn lemma_children_distinct(spans: Seq<Span>, views: Seq<SpanView>, p: int, m: int)
    ensures
        displayed_children(spans, views, p, m).no_duplicates(),
    decreases m,
{
    if m > 0 {
        lemma_children_distinct(spans, views, p, m - 1);
    }
}

proof fn lemma_position_distinct(s: Seq<usize>, p: int)
    requires
        s.no_duplicates(),
        0 <= p < s.len(),
    ensures
        crate::view::position_of(s, s[p]) == Some(p),
{
    lemma_position_found(s, s[p]);
    crate::view::lemma_position_of(s, s[p]);
}

/// Left and right on a root go to the previous and next root shown on its
/// track, and leave the selection where it is at either end.
pub proof fn law_root_neighbours(
    spans: Seq<Span>,
    tracks: Seq<Vec<SpanView>>,
    root_tracks: Seq<Option<usize>>,
    si: usize,
    t: usize,
    p: int,
)
    requires
        nav_ready(spans, tracks, root_tracks),
        si < spans.len(),
        spans[si as int].parent_index is None,
        track_of(spans, root_tracks, si as int) == Some(t),
        0 <= p < displayed_roots(spans, tracks[t as int]@, tracks[t as int]@.len() as int, true).len(),
        displayed_roots(spans, tracks[t as int]@, tracks[t as int]@.len() as int, true)[p] == si,
    ensures
        ({
            let roots = displayed_roots(spans, tracks[t as int]@, tracks[t as int]@.len() as int, true);
            &&& p + 1 < roots.len() ==> moved_selection(spans, tracks, root_tracks, Some(si), FollowingSpanDirection::Next)
                == Some(roots[p + 1])
            &&& p + 1 == roots.len() ==> moved_selection(spans, tracks, root_tracks, Some(si), FollowingSpanDirection::Next)
                == Some(si)
            &&& p >= 1 ==> moved_selection(spans, tracks, root_tracks, Some(si), FollowingSpanDirection::Previous)
                == Some(roots[p - 1])
            &&& p == 0 ==> moved_selection(spans, tracks, root_tracks, Some(si), FollowingSpanDirection::Previous)
                == Some(si)
        }),
{
    let views = tracks[t as int]@;
    lemma_roots_distinct(spans, views, views.len() as int, true);
    lemma_position_distinct(displayed_roots(spans, views, views.len() as int, true), p);
}

/// Left and right on a span with a parent go to the previous and next
/// sibling shown on its track (children of the same parent), and leave the
/// selection where it is at either end.
pub proof fn law_sibling_neighbours(
    spans: Seq<Span>,
    tracks: Seq<Vec<SpanView>>,
    root_tracks: Seq<Option<usize>>,
    si: usize,
    t: usize,
    parent: usize,
    p: int,
)
    requires
        nav_ready(spans, tracks, root_tracks),
        si < spans.len(),
        spans[si as int].parent_index == Some(parent),
        track_of(spans, root_tracks, si as int) == Some(t),
        0 <= p < displayed_children(spans, tracks[t as int]@, parent as int, tracks[t as int]@.len() as int).len(),
        displayed_children(spans, tracks[t as int]@, parent as int, tracks[t as int]@.len() as int)[p] == si,
    ensures
        ({
            let sib = displayed_children(spans, tracks[t as int]@, parent as int, tracks[t as int]@.len() as int);
            &&& p + 1 < sib.len() ==> moved_selection(spans, tracks, root_tracks, Some(si), FollowingSpanDirection::Next)
                == Some(sib[p + 1])
            &&& p + 1 == sib.len() ==> moved_selection(spans, tracks, root_tracks, Some(si), FollowingSpanDirection::Next)
                == Some(si)
            &&& p >= 1 ==> moved_selection(spans, tracks, root_tracks, Some(si), FollowingSpanDirection::Previous)
                == Some(sib[p - 1])
            &&& p == 0 ==> moved_selection(spans, tracks, root_tracks, Some(si), FollowingSpanDirection::Previous)
                == Some(si)
        }),
{
    let views = tracks[t as int]@;
    assert(parent < si);
    lemma_children_distinct(spans, views, parent as int, views.len() as int);
    lemma_position_distinct(displayed_children(spans, views, parent as int, views.len() as int), p);
}

/// Up goes to the parent, and stays on a root.
pub proof fn law_move_up(spans: Seq<Span>, tracks: Seq<Vec<SpanView>>, root_tracks: Seq<Option<usize>>, si: usize)
    requires
        si < spans.len(),
    ensures
        moved_selection(spans, tracks, root_tracks, Some(si), FollowingSpanDirection::Parent) == match spans[si as int].parent_index {
            Some(q) => Some(q),
            None => Some(si),
        },
{
}

// ---------------------------------------------------------------------------
// Collapsing template arguments
// ---------------------------------------------------------------------------

/// The nesting of `s`: its `<` less its `>`.
pub open spec fn nesting(s: Seq<char>) -> int
    decreases s.len(),
{
    if s.len() == 0 {
        0
    } else {
        nesting(s.drop_last()) + if s.last() == '<' {
            1int
        } else if s.last() == '>' {
            -1int
        } else {
            0int
        }
    }
}

/// `s` is a balanced argument list: no prefix closes more brackets than it
/// opens, and the whole closes all it opens.
pub open spec fn balanced(s: Seq<char>) -> bool {
    &&& forall|k: int| 0 <= k <= s.len() ==> nesting(#[trigger] s.take(k)) >= 0
    &&& nesting(s) == 0
}

proof fn lemma_collapse_plain(s: Seq<char>)
    requires
        !s.contains('<'),
        !s.contains('>'),
    ensures
        collapse_state(s) == (s, 0nat),
    decreases s.len(),
{
    if s.len() > 0 {
        let d = s.drop_last();
        assert(!d.contains('<') && !d.contains('>')) by {
            if d.contains('<') || d.contains('>') {
                let w = choose|w: int| 0 <= w < d.len() && (d[w] == '<' || d[w] == '>');
                assert(s[w] == d[w]);
            }
        }
        lemma_collapse_plain(d);
        assert(s[s.len() - 1] != '<' && s[s.len() - 1] != '>');
        assert(d.push(s.last()) =~= s);
    }
}

proof fn lemma_collapse_inside(x: Seq<char>, out: Seq<char>, a: Seq<char>, k: int)
    requires
        collapse_state(x) == (out, 1nat),
        0 <= k <= a.len(),
        forall|j: int| 0 <= j <= a.len() ==> nesting(#[trigger] a.take(j)) >= 0,
    ensures
        collapse_state(x + a.take(k)) == (out, (1 + nesting(a.take(k))) as nat),
    decreases k,
{
    if k == 0 {
        assert(x + a.take(0) =~= x);
        assert(a.take(0) =~= Seq::<char>::empty());
    } else {
        lemma_collapse_inside(x, out, a, k - 1);
        let s = x + a.take(k);
        assert(s.drop_last() =~= x + a.take(k - 1));
        assert(s.last() == a[k - 1]);
        assert(a.take(k).drop_last() =~= a.take(k - 1));
        assert(a.take(k).last() == a[k - 1]);
        assert(nesting(a.take(k)) >= 0);
        assert(nesting(a.take(k - 1)) >= 0);
    }
}

/// A name followed by one balanced argument list collapses to the name and
/// `<…>`: nothing inside the outer brackets, nested lists included, is
/// kept.
pub proof fn law_collapse_outer_group(name: Seq<char>, args: Seq<char>)
    requires
        !name.contains('<'),
        !name.contains('>'),
        balanced(args),
    ensures
        collapsed(name + seq!['<'] + args + seq!['>']) == name + seq!['<', ELLIPSIS, '>'],
{
    lemma_collapse_plain(name);
    let x = name + seq!['<'];
    assert(x.drop_last() =~= name);
    assert(collapse_state(x) == (name + seq!['<', ELLIPSIS, '>'], 1nat));
    lemma_collapse_inside(x, name + seq!['<', ELLIPSIS, '>'], args, args.len() as int);
    assert(args.take(args.len() as int) =~= args);
    let full = name + seq!['<'] + args + seq!['>'];
    assert(full.drop_last() =~= x + args);
    assert(full.last() == '>');
}

} // verus!
