//! Unix paths as strings.
//!
//! A path is read the way `std::path::Path::components` reads it on Unix:
//! its text is cut at every `/` into segments; a leading `/` is the root
//! component, empty segments and `.` segments are skipped except for a `.`
//! that starts a relative path. A list of components is written back the way
//! `PathBuf::push` writes it: separated by single `/`.
use vstd::prelude::*;
use crate::text::{append_chars, chars_of, chars_view, copy_range, split_chars, split_on};

verus! {

broadcast use vstd::seq_lib::group_seq_properties;

/// `s` cut at every `/` (always at least one segment).
pub open spec fn split_slash(s: Seq<char>) -> Seq<Seq<char>> {
    split_on(s, '/')
}

proof fn lemma_split_len(s: Seq<char>)
    ensures
        split_slash(s).len() >= 1,
        s.len() > 0 && s[0] == '/' ==> split_slash(s).len() >= 2 && split_slash(s)[0].len() == 0,
        s.len() > 0 && s[0] != '/' ==> split_slash(s)[0].len() > 0 && split_slash(s)[0][0]
            == s[0],
    decreases s.len(),
{
    if s.len() > 0 {
        lemma_split_len(s.drop_last());
        if s.len() > 1 {
            assert(s.drop_last()[0] == s[0]);
        }
    }
}

/// Segments joined with `/` (the inverse of [`split_slash`]).
pub open spec fn join_slash(segs: Seq<Seq<char>>) -> Seq<char>
    decreases segs.len(),
{
    if segs.len() == 0 {
        Seq::empty()
    } else if segs.len() == 1 {
        segs[0]
    } else {
        join_slash(segs.drop_last()) + seq!['/'] + segs.last()
    }
}

/// The path starts at the root.
pub open spec fn is_absolute(s: Seq<char>) -> bool {
    s.len() > 0 && s[0] == '/'
}

/// Segment `j` is a component: it is not empty, and it is not `.` unless it
/// opens the path.
pub open spec fn kept_segment(segs: Seq<Seq<char>>, j: int) -> bool {
    segs[j].len() > 0 && (segs[j] != seq!['.'] || j == 0)
}

/// Indices of the kept segments among the first `n`.
pub open spec fn kept_upto(segs: Seq<Seq<char>>, n: int) -> Seq<int>
    decreases n,
{
    if n <= 0 {
        Seq::empty()
    } else if kept_segment(segs, n - 1) {
        kept_upto(segs, n - 1).push(n - 1)
    } else {
        kept_upto(segs, n - 1)
    }
}

/// For each component of `s`, the segment it comes from (the root comes
/// from the empty segment before the leading `/`).
pub open spec fn component_segments(s: Seq<char>) -> Seq<int> {
    let segs = split_slash(s);
    if is_absolute(s) {
        seq![0int] + kept_upto(segs, segs.len() as int)
    } else {
        kept_upto(segs, segs.len() as int)
    }
}

/// The root component is written `/`.
pub open spec fn root_component() -> Seq<char> {
    seq!['/']
}

/// The components of `s`: `/` for the root, then the kept segments.
pub open spec fn components(s: Seq<char>) -> Seq<Seq<char>> {
    let segs = split_slash(s);
    let idx = component_segments(s);
    Seq::new(
        idx.len(),
        |k: int|
            if is_absolute(s) && k == 0 {
                root_component()
            } else {
                segs[idx[k]]
            },
    )
}

/// `PathBuf::push` of one component onto `buf`.
pub open spec fn push_component(buf: Seq<char>, c: Seq<char>) -> Seq<char> {
    if c.len() > 0 && c[0] == '/' {
        c
    } else if buf.len() == 0 || buf.last() == '/' {
        buf + c
    } else {
        buf + seq!['/'] + c
    }
}

/// The path built by pushing the components `cs` onto an empty `PathBuf`.
pub open spec fn join_components(cs: Seq<Seq<char>>) -> Seq<char>
    decreases cs.len(),
{
    if cs.len() == 0 {
        Seq::empty()
    } else {
        push_component(join_components(cs.drop_last()), cs.last())
    }
}

/// The text that remains of `s` once its first `k` components are consumed,
/// as `Path::strip_prefix` returns it: from the next component to the end of
/// the last one, without leading or trailing separators.
pub open spec fn rest_after(s: Seq<char>, k: int) -> Seq<char> {
    let segs = split_slash(s);
    let idx = component_segments(s);
    let n = idx.len();
    if k >= n {
        Seq::empty()
    } else if k == 0 {
        if is_absolute(s) && n == 1 {
            root_component()
        } else {
            join_slash(segs.take(idx[n - 1] + 1))
        }
    } else {
        join_slash(segs.subrange(idx[k], idx[n - 1] + 1))
    }
}

/// `Path::strip_prefix`: when the components of `base` start the components
/// of `path`, the rest of `path`; otherwise `None`.
pub open spec fn strip_prefix_spec(path: Seq<char>, base: Seq<char>) -> Option<Seq<char>> {
    let pc = components(path);
    let bc = components(base);
    if bc.len() <= pc.len() && pc.take(bc.len() as int) == bc {
        Some(rest_after(path, bc.len() as int))
    } else {
        None
    }
}

// ---------------------------------------------------------------------------
// Executable parts
// ---------------------------------------------------------------------------

/// `s` cut at every `/`.
fn segments_of(cs: &Vec<char>) -> (r: Vec<Vec<char>>)
    ensures
        chars_view(r@) == split_slash(cs@),
{
    split_chars(cs, '/')
}

fn is_dot(v: &Vec<char>) -> (r: bool)
    ensures
        r == (v@ == seq!['.']),
{
    if v.len() == 1 && v[0] == '.' {
        assert(v@ =~= seq!['.']);
        true
    } else {
        false
    }
}

/// The segments of `s` and the segment index of each component.
fn component_index(cs: &Vec<char>) -> (r: (Vec<Vec<char>>, Vec<usize>))
    ensures
        chars_view(r.0@) == split_slash(cs@),
        r.1@.len() == component_segments(cs@).len(),
        forall|k: int| 0 <= k < r.1@.len() ==> r.1@[k] == component_segments(cs@)[k],
{
    let segs = segments_of(cs);
    let mut idx: Vec<usize> = Vec::new();
    let absolute = cs.len() > 0 && cs[0] == '/';
    if absolute {
        idx.push(0);
    }
    let ghost base: Seq<int> = if absolute {
        seq![0int]
    } else {
        Seq::empty()
    };
    let mut j: usize = 0;
    while j < segs.len()
        invariant
            chars_view(segs@) == split_slash(cs@),
            absolute == is_absolute(cs@),
            base == (if absolute {
                seq![0int]
            } else {
                Seq::<int>::empty()
            }),
            j <= segs@.len(),
            idx@.len() == (base + kept_upto(split_slash(cs@), j as int)).len(),
            forall|k: int|
                0 <= k < idx@.len() ==> idx@[k] == (base + kept_upto(split_slash(cs@), j as int))[k],
        decreases segs@.len() - j,
    {
        let ghost segv = split_slash(cs@);
        proof {
            assert(segv[j as int] == segs@[j as int]@);
        }
        if segs[j].len() > 0 && (!is_dot(&segs[j]) || j == 0) {
            idx.push(j);
            proof {
                assert(base + kept_upto(segv, j + 1) =~= (base + kept_upto(segv, j as int)).push(
                    j as int,
                ));
            }
        }
        j = j + 1;
    }
    (segs, idx)
}

/// The components of `s`.
pub fn path_components(s: &str) -> (r: Vec<Vec<char>>)
    ensures
        chars_view(r@) == components(s@),
{
    let cs = chars_of(s);
    let (segs, idx) = component_index(&cs);
    let mut r: Vec<Vec<char>> = Vec::new();
    let absolute = cs.len() > 0 && cs[0] == '/';
    let mut k: usize = 0;
    proof {
        lemma_kept_bounds(split_slash(cs@), split_slash(cs@).len() as int);
        lemma_split_len(cs@);
    }
    while k < idx.len()
        invariant
            cs@ == s@,
            absolute == is_absolute(cs@),
            chars_view(segs@) == split_slash(cs@),
            idx@.len() == component_segments(cs@).len(),
            forall|m: int| 0 <= m < idx@.len() ==> idx@[m] == component_segments(cs@)[m],
            forall|m: int|
                0 <= m < component_segments(cs@).len() ==> 0 <= #[trigger] component_segments(
                    cs@,
                )[m] < segs@.len(),
            k <= idx@.len(),
            chars_view(r@) == components(cs@).take(k as int),
        decreases idx@.len() - k,
    {
        let ghost old_r = r@;
        if absolute && k == 0 {
            let mut root: Vec<char> = Vec::new();
            root.push('/');
            r.push(root);
        } else {
            let seg = copy_range(&segs[idx[k]], 0, segs[idx[k]].len());
            r.push(seg);
        }
        proof {
            let ghost segv = split_slash(cs@);
            let ghost j = component_segments(cs@)[k as int];
            assert(segv[j] == segs@[j]@);
            assert(components(cs@)[k as int] == (if absolute && k == 0 {
                root_component()
            } else {
                segv[j]
            }));
            assert(r@.last()@ =~= components(cs@)[k as int]);
            assert(chars_view(r@) =~= chars_view(old_r).push(r@.last()@));
            assert(components(cs@).take(k + 1) =~= components(cs@).take(k as int).push(
                components(cs@)[k as int],
            ));
        }
        k = k + 1;
    }
    proof {
        assert(components(cs@).take(idx@.len() as int) =~= components(cs@));
    }
    r
}

proof fn lemma_kept_bounds(segs: Seq<Seq<char>>, n: int)
    requires
        0 <= n <= segs.len(),
    ensures
        forall|m: int| 0 <= m < kept_upto(segs, n).len() ==> 0 <= #[trigger] kept_upto(segs, n)[m] < n,
        forall|a: int, b: int|
            0 <= a < b < kept_upto(segs, n).len() ==> kept_upto(segs, n)[a] < kept_upto(segs, n)[b],
    decreases n,
{
    if n > 0 {
        lemma_kept_bounds(segs, n - 1);
        let prev = kept_upto(segs, n - 1);
        if kept_segment(segs, n - 1) {
            assert(kept_upto(segs, n) == prev.push(n - 1));
        } else {
            assert(kept_upto(segs, n) == prev);
        }
    }
}

/// Whether two character vectors are equal.
pub fn chars_eq(a: &Vec<char>, b: &Vec<char>) -> (r: bool)
    ensures
        r == (a@ == b@),
{
    if a.len() != b.len() {
        return false;
    }
    let mut i: usize = 0;
    while i < a.len()
        invariant
            a@.len() == b@.len(),
            i <= a@.len(),
            forall|k: int| 0 <= k < i ==> a@[k] == b@[k],
        decreases a@.len() - i,
    {
        if a[i] != b[i] {
            return false;
        }
        i = i + 1;
    }
    assert(a@ =~= b@);
    true
}

/// `segs[a..b]` joined with `/`.
fn join_slash_range(segs: &Vec<Vec<char>>, a: usize, b: usize) -> (v: Vec<char>)
    requires
        a < b <= segs@.len(),
    ensures
        v@ == join_slash(chars_view(segs@).subrange(a as int, b as int)),
{
    let ghost sv = chars_view(segs@);
    let mut v = copy_range(&segs[a], 0, segs[a].len());
    proof {
        assert(sv.subrange(a as int, a + 1) =~= seq![sv[a as int]]);
        assert(v@ =~= sv[a as int]);
    }
    let mut j = a + 1;
    while j < b
        invariant
            a < j <= b <= segs@.len(),
            sv == chars_view(segs@),
            v@ == join_slash(sv.subrange(a as int, j as int)),
        decreases b - j,
    {
        let ghost v0 = v@;
        v.push('/');
        append_chars(&mut v, &segs[j]);
        proof {
            let sub = sv.subrange(a as int, j + 1);
            assert(sub.drop_last() =~= sv.subrange(a as int, j as int));
            assert(sub.last() == sv[j as int]);
            assert(v@ =~= v0 + seq!['/'] + sv[j as int]);
        }
        j = j + 1;
    }
    v
}

/// The path written by pushing `cs` onto an empty `PathBuf`.
pub fn join_path(cs: &Vec<Vec<char>>) -> (v: Vec<char>)
    ensures
        v@ == join_components(chars_view(cs@)),
{
    let ghost cv = chars_view(cs@);
    let mut v: Vec<char> = Vec::new();
    let mut k: usize = 0;
    while k < cs.len()
        invariant
            k <= cs@.len(),
            cv == chars_view(cs@),
            v@ == join_components(cv.take(k as int)),
        decreases cs@.len() - k,
    {
        let c = &cs[k];
        proof {
            assert(cv.take(k + 1).drop_last() =~= cv.take(k as int));
            assert(cv.take(k + 1).last() == c@);
        }
        if c.len() > 0 && c[0] == '/' {
            v = copy_range(c, 0, c.len());
            proof {
                assert(v@ =~= c@);
            }
        } else if v.len() == 0 || v[v.len() - 1] == '/' {
            append_chars(&mut v, c);
        } else {
            v.push('/');
            append_chars(&mut v, c);
        }
        k = k + 1;
    }
    proof {
        assert(cv.take(cs@.len() as int) =~= cv);
    }
    v
}

/// The rest of `path` once its first `k` components are consumed (see
/// [`rest_after`]).
fn rest_of(cs: &Vec<char>, k: usize) -> (v: Vec<char>)
    ensures
        v@ == rest_after(cs@, k as int),
{
    let (segs, idx) = component_index(cs);
    let ghost segv = split_slash(cs@);
    let n = idx.len();
    proof {
        lemma_kept_bounds(segv, segv.len() as int);
        lemma_split_len(cs@);
        assert(chars_view(segs@) == segv);
    }
    if k >= n {
        return Vec::new();
    }
    let last = idx[n - 1];
    let seg_count = segs.len();
    proof {
        let csg = component_segments(cs@);
        if is_absolute(cs@) {
            assert(csg[n - 1] == 0 || csg[n - 1] == kept_upto(segv, segv.len() as int)[n - 2]);
        } else {
            assert(csg[n - 1] == kept_upto(segv, segv.len() as int)[n - 1]);
        }
        assert(0 <= last < segs@.len());
        assert(last < seg_count);
    }
    if k == 0 {
        let absolute = cs.len() > 0 && cs[0] == '/';
        if absolute && n == 1 {
            let mut v: Vec<char> = Vec::new();
            v.push('/');
            proof {
                assert(v@ =~= root_component());
            }
            return v;
        }
        let v = join_slash_range(&segs, 0, last + 1);
        proof {
            assert(segv.subrange(0, last + 1) =~= segv.take(last + 1));
        }
        return v;
    }
    let first = idx[k];
    proof {
        let csg = component_segments(cs@);
        let kept = kept_upto(segv, segv.len() as int);
        if is_absolute(cs@) {
            assert(csg[k as int] == kept[k - 1]);
            assert(csg[n - 1] == kept[n - 2]);
            if k < n - 1 {
                assert(kept[k - 1] < kept[n - 2]);
            }
        } else {
            assert(csg[k as int] == kept[k as int]);
            assert(csg[n - 1] == kept[n - 1]);
            if k < n - 1 {
                assert(kept[k as int] < kept[n - 1]);
            }
        }
        assert(first <= last);
        assert(last < seg_count);
    }
    join_slash_range(&segs, first, last + 1)
}

/// `Option<String>` as an optional character sequence.
pub open spec fn opt_view(o: Option<String>) -> Option<Seq<char>> {
    match o {
        Some(s) => Some(s@),
        None => None,
    }
}

/// `Path::strip_prefix`: the part of `path` below `base`, if `base` is a
/// prefix of `path` component by component.
pub fn strip_prefix(path: &str, base: &str) -> (r: Option<String>)
    ensures
        opt_view(r) == strip_prefix_spec(path@, base@),
{
    let pc = path_components(path);
    let bc = path_components(base);
    if bc.len() > pc.len() {
        return None;
    }
    let mut k: usize = 0;
    while k < bc.len()
        invariant
            bc@.len() <= pc@.len(),
            chars_view(pc@) == components(path@),
            chars_view(bc@) == components(base@),
            k <= bc@.len(),
            forall|m: int| 0 <= m < k ==> components(path@)[m] == components(base@)[m],
        decreases bc@.len() - k,
    {
        if !chars_eq(&pc[k], &bc[k]) {
            proof {
                assert(components(path@).take(bc@.len() as int)[k as int] != components(
                    base@,
                )[k as int]);
            }
            return None;
        }
        k = k + 1;
    }
    proof {
        assert(components(path@).take(bc@.len() as int) =~= components(base@));
    }
    let cs = chars_of(path);
    let rest = rest_of(&cs, bc.len());
    Some(crate::text::string_from(&rest))
}

/// The last `n` components of `p` (all of them when there are fewer),
/// written as a path.
pub open spec fn last_components(p: Seq<char>, n: int) -> Seq<char> {
    let cs = components(p);
    let start = if cs.len() >= n {
        cs.len() - n
    } else {
        0
    };
    join_components(cs.skip(start))
}

/// The last `n` components of `p`, written as a path.
pub fn last_n_components(p: &str, n: usize) -> (r: String)
    ensures
        r@ == last_components(p@, n as int),
{
    let cs = path_components(p);
    let start = cs.len().saturating_sub(n);
    let mut tail: Vec<Vec<char>> = Vec::new();
    let mut k = start;
    while k < cs.len()
        invariant
            start <= k <= cs@.len(),
            chars_view(tail@) == chars_view(cs@).subrange(start as int, k as int),
        decreases cs@.len() - k,
    {
        let c = copy_range(&cs[k], 0, cs[k].len());
        let ghost old_tail = tail@;
        tail.push(c);
        proof {
            assert(chars_view(tail@) =~= chars_view(old_tail).push(c@));
            assert(c@ =~= cs@[k as int]@);
        }
        k = k + 1;
    }
    proof {
        assert(chars_view(cs@).subrange(start as int, cs@.len() as int) =~= components(p@).skip(
            start as int,
        ));
    }
    let v = join_path(&tail);
    crate::text::string_from(&v)
}

/// Labels longer than this are shortened.
pub const MAX_LABEL_LEN: usize = 30;

/// The label of a path: its part below `build_dir` when it lies there (or,
/// when that is longer than [`MAX_LABEL_LEN`] characters, its last four
/// components), otherwise the last four components of the path.
pub open spec fn path_label(path: Seq<char>, build_dir: Seq<char>) -> Seq<char> {
    match strip_prefix_spec(path, build_dir) {
        Some(rel) => if rel.len() <= MAX_LABEL_LEN {
            rel
        } else {
            last_components(rel, 4)
        },
        None => last_components(path, 4),
    }
}

/// A short label for a path.
pub fn clean_path_label(path: &str, build_dir: &str) -> (r: String)
    ensures
        r@ == path_label(path@, build_dir@),
{
    match strip_prefix(path, build_dir) {
        Some(rel) => {
            if crate::text::char_count(rel.as_str()) <= MAX_LABEL_LEN {
                rel
            } else {
                last_n_components(rel.as_str(), 4)
            }
        },
        None => last_n_components(path, 4),
    }
}

/// The label of an identifier: a path label for an absolute path, the
/// identifier itself when it is short, else the identifier with its template
/// arguments collapsed.
pub open spec fn identifier_label(identifier: Seq<char>, build_dir: Seq<char>) -> Seq<char> {
    if identifier.len() > 0 && identifier[0] == '/' {
        path_label(identifier, build_dir)
    } else if identifier.len() <= MAX_LABEL_LEN {
        identifier
    } else {
        crate::text::collapsed(identifier)
    }
}

/// A short label for a span identifier.
pub fn clean_identifier(identifier: &str, build_dir: &str) -> (r: String)
    ensures
        r@ == identifier_label(identifier@, build_dir@),
{
    let cs = chars_of(identifier);
    if cs.len() > 0 && cs[0] == '/' {
        return clean_path_label(identifier, build_dir);
    }
    if cs.len() <= MAX_LABEL_LEN {
        return crate::text::copy_str(identifier);
    }
    crate::text::collapse_template_args(identifier)
}

/// The component that build systems insert for their own files.
pub open spec fn cmake_dir() -> Seq<char> {
    seq!['C', 'M', 'a', 'k', 'e', 'F', 'i', 'l', 'e', 's']
}

/// `cs` without every `CMakeFiles` component and the component after it.
pub open spec fn drop_cmake_dirs(cs: Seq<Seq<char>>) -> Seq<Seq<char>>
    decreases cs.len(),
{
    if cs.len() == 0 {
        Seq::empty()
    } else if cs[0] == cmake_dir() {
        if cs.len() >= 2 {
            drop_cmake_dirs(cs.skip(2))
        } else {
            Seq::empty()
        }
    } else {
        seq![cs[0]] + drop_cmake_dirs(cs.drop_first())
    }
}

/// Index of the last `.` in `name`, or -1.
pub open spec fn last_dot(name: Seq<char>) -> int
    decreases name.len(),
{
    if name.len() == 0 {
        -1
    } else if name.last() == '.' {
        name.len() - 1
    } else {
        last_dot(name.drop_last())
    }
}

/// `Path::file_stem` of a file name: the name without its last `.` and what
/// follows, unless that `.` is the first character.
pub open spec fn file_stem(name: Seq<char>) -> Seq<char> {
    let d = last_dot(name);
    if d <= 0 {
        name
    } else {
        name.take(d)
    }
}

/// A component that names a file (neither the root, `.` nor `..`).
pub open spec fn is_file_name(c: Seq<char>) -> bool {
    c != root_component() && c != seq!['.'] && c != seq!['.', '.']
}

/// `PathBuf::set_extension("")` on the path made of `cs`: the last component
/// loses its extension when it names a file.
pub open spec fn without_extension(cs: Seq<Seq<char>>) -> Seq<Seq<char>> {
    if cs.len() > 0 && is_file_name(cs.last()) {
        cs.drop_last().push(file_stem(cs.last()))
    } else {
        cs
    }
}

/// The display name of a trace file: its path below `build_dir` without the
/// build system's `CMakeFiles/<target>` directories and without its
/// extension; `None` when the file is not below `build_dir`.
pub open spec fn cleaned_trace_path(full_path: Seq<char>, build_dir: Seq<char>) -> Option<Seq<char>> {
    match strip_prefix_spec(full_path, build_dir) {
        Some(rel) => Some(join_components(without_extension(drop_cmake_dirs(components(rel))))),
        None => None,
    }
}

fn is_cmake_dir(c: &Vec<char>) -> (r: bool)
    ensures
        r == (c@ == cmake_dir()),
{
    if c.len() == 10 && c[0] == 'C' && c[1] == 'M' && c[2] == 'a' && c[3] == 'k' && c[4] == 'e'
        && c[5] == 'F' && c[6] == 'i' && c[7] == 'l' && c[8] == 'e' && c[9] == 's' {
        assert(c@ =~= cmake_dir());
        true
    } else {
        false
    }
}

fn stem_of(name: &Vec<char>) -> (r: Vec<char>)
    ensures
        r@ == file_stem(name@),
{
    let mut i = name.len();
    while i > 0
        invariant
            i <= name@.len(),
            forall|k: int| i <= k < name@.len() ==> name@[k] != '.',
            last_dot(name@) == last_dot(name@.take(i as int)),
        ensures
            i <= name@.len(),
            last_dot(name@) == last_dot(name@.take(i as int)),
            i == 0 || name@[i - 1] == '.',
        decreases i,
    {
        proof {
            assert(name@.take(i as int).drop_last() =~= name@.take(i - 1));
        }
        if name[i - 1] == '.' {
            break;
        }
        i = i - 1;
    }
    proof {
        if i == 0 {
            assert(name@.take(0) =~= Seq::<char>::empty());
        } else {
            assert(name@.take(i as int).last() == name@[i - 1]);
        }
    }
    if i <= 1 {
        copy_range(name, 0, name.len())
    } else {
        copy_range(name, 0, i - 1)
    }
}

/// The display name of a trace file (see [`cleaned_trace_path`]).
pub fn clean_trace_file_path(full_path: &str, build_dir: &str) -> (r: Option<String>)
    ensures
        opt_view(r) == cleaned_trace_path(full_path@, build_dir@),
{
    let rel = match strip_prefix(full_path, build_dir) {
        Some(rel) => rel,
        None => return None,
    };
    let comps = path_components(rel.as_str());
    let ghost cv = chars_view(comps@);
    let mut kept: Vec<Vec<char>> = Vec::new();
    let mut k: usize = 0;
    while k < comps.len()
        invariant
            cv == chars_view(comps@),
            k <= comps@.len(),
            chars_view(kept@) + drop_cmake_dirs(cv.skip(k as int)) == drop_cmake_dirs(cv),
        decreases comps@.len() - k,
    {
        let ghost rest = cv.skip(k as int);
        proof {
            assert(rest[0] == comps@[k as int]@);
        }
        if is_cmake_dir(&comps[k]) {
            if k + 1 < comps.len() {
                proof {
                    assert(rest.skip(2) =~= cv.skip(k + 2));
                }
                k = k + 2;
            } else {
                proof {
                    assert(cv.skip(k + 1) =~= Seq::<Seq<char>>::empty());
                    assert(chars_view(kept@) + Seq::<Seq<char>>::empty() =~= chars_view(kept@));
                }
                k = k + 1;
            }
        } else {
            let c = copy_range(&comps[k], 0, comps[k].len());
            let ghost old_kept = chars_view(kept@);
            kept.push(c);
            proof {
                assert(c@ =~= rest[0]);
                assert(rest.drop_first() =~= cv.skip(k + 1));
                assert(chars_view(kept@) =~= old_kept.push(c@));
                assert(old_kept.push(c@) + drop_cmake_dirs(cv.skip(k + 1)) =~= old_kept + (seq![
                    c@,
                ] + drop_cmake_dirs(cv.skip(k + 1))));
            }
            k = k + 1;
        }
    }
    proof {
        assert(cv.skip(comps@.len() as int) =~= Seq::<Seq<char>>::empty());
        assert(chars_view(kept@) + Seq::<Seq<char>>::empty() =~= chars_view(kept@));
    }
    let n = kept.len();
    if n > 0 {
        let last = &kept[n - 1];
        let is_root = last.len() == 1 && last[0] == '/';
        let is_cur = last.len() == 1 && last[0] == '.';
        let is_parent = last.len() == 2 && last[0] == '.' && last[1] == '.';
        proof {
            let lv = chars_view(kept@).last();
            assert(lv == last@);
            if !is_root {
                assert(lv != root_component());
            }
            if !is_cur {
                assert(lv != seq!['.']);
            }
            if !is_parent {
                assert(lv != seq!['.', '.']);
            }
            if is_root {
                assert(lv =~= root_component());
            }
            if is_cur {
                assert(lv =~= seq!['.']);
            }
            if is_parent {
                assert(lv =~= seq!['.', '.']);
            }
        }
        if !is_root && !is_cur && !is_parent {
            let stem = stem_of(last);
            let ghost before = chars_view(kept@);
            kept.pop();
            kept.push(stem);
            proof {
                assert(chars_view(kept@) =~= before.drop_last().push(stem@));
            }
        }
    }
    let v = join_path(&kept);
    Some(crate::text::string_from(&v))
}

} // verus!
