//! The Templates view: template and class instantiations summed over all
//! translation units, arranged by template name and argument prefix.
use vstd::prelude::*;
use crate::link::opt_chars;
use crate::sources::{layout_of, lemma_no_children, lemma_sibling_push, packed_start, sibling_sum};
use crate::view::sat_add;
use crate::span::{Span, SpanType};
use crate::text::{chars_of, chars_view, copy_str, is_space, is_space_char, push_char, push_str, split_chars, split_on, string_from, string_of};

verus! {

broadcast use vstd::seq_lib::group_seq_properties;

// ---------------------------------------------------------------------------
// Identifier parsing
// ---------------------------------------------------------------------------

/// The first position of `c` in `s`.
pub open spec fn first_index(s: Seq<char>, c: char) -> Option<int>
    decreases s.len(),
{
    if s.len() == 0 {
        None
    } else {
        match first_index(s.drop_last(), c) {
            Some(i) => Some(i),
            None => if s.last() == c {
                Some(s.len() - 1)
            } else {
                None
            },
        }
    }
}

/// The last position of `c` in `s`.
pub open spec fn last_index(s: Seq<char>, c: char) -> Option<int>
    decreases s.len(),
{
    if s.len() == 0 {
        None
    } else if s.last() == c {
        Some(s.len() - 1)
    } else {
        last_index(s.drop_last(), c)
    }
}

/// `s` without its leading whitespace.
pub open spec fn trim_start(s: Seq<char>) -> Seq<char>
    decreases s.len(),
{
    if s.len() > 0 && is_space(s[0]) {
        trim_start(s.drop_first())
    } else {
        s
    }
}

/// `s` without its trailing whitespace.
pub open spec fn trim_end(s: Seq<char>) -> Seq<char>
    decreases s.len(),
{
    if s.len() > 0 && is_space(s.last()) {
        trim_end(s.drop_last())
    } else {
        s
    }
}

/// `str::trim`: `s` without whitespace at either end.
pub open spec fn trimmed(s: Seq<char>) -> Seq<char> {
    trim_end(trim_start(s))
}

/// The template name and arguments of an identifier `name<a, b, ...>`: the
/// text before the first `<`, and the text between it and the last `>`
/// cut at every comma, each part trimmed. An identifier without such a
/// pair has no arguments.
pub open spec fn template_parts(id: Seq<char>) -> (Seq<char>, Seq<Seq<char>>) {
    match (first_index(id, '<'), last_index(id, '>')) {
        (Some(o), Some(c)) => if c > o {
            (
                id.take(o),
                split_on(id.subrange(o + 1, c), ',').map_values(|a: Seq<char>| trimmed(a)),
            )
        } else {
            (id, Seq::empty())
        },
        _ => (id, Seq::empty()),
    }
}

/// Parts joined with `", "`.
pub open spec fn join_args(args: Seq<Seq<char>>) -> Seq<char>
    decreases args.len(),
{
    if args.len() == 0 {
        Seq::empty()
    } else if args.len() == 1 {
        args[0]
    } else {
        join_args(args.drop_last()) + ", "@ + args.last()
    }
}

/// The identifier of a concrete instantiation: `name<a, b>`, or `name`
/// without arguments.
pub open spec fn concrete_id(name: Seq<char>, args: Seq<Seq<char>>) -> Seq<char> {
    if args.len() == 0 {
        name
    } else {
        name + "<"@ + join_args(args) + ">"@
    }
}

/// The identifier of a group of instantiations that share the arguments
/// `prefix`: the remaining ones (up to `total`) are `*`.
pub open spec fn wildcard_id(name: Seq<char>, prefix: Seq<Seq<char>>, total: int) -> Seq<char> {
    if total == 0 {
        name
    } else {
        let stars = if total > prefix.len() {
            Seq::new((total - prefix.len()) as nat, |i: int| "*"@)
        } else {
            Seq::empty()
        };
        name + "<"@ + join_args(prefix + stars) + ">"@
    }
}

proof fn lemma_index_bounds(s: Seq<char>, c: char)
    ensures
        first_index(s, c) matches Some(i) ==> 0 <= i < s.len() && s[i] == c,
        last_index(s, c) matches Some(i) ==> 0 <= i < s.len() && s[i] == c,
    decreases s.len(),
{
    if s.len() > 0 {
        lemma_index_bounds(s.drop_last(), c);
    }
}

/// The first position of `c` in `cs`.
fn find_first(cs: &Vec<char>, c: char) -> (r: Option<usize>)
    ensures
        match r {
            Some(i) => first_index(cs@, c) == Some(i as int),
            None => first_index(cs@, c) is None,
        },
{
    let mut i: usize = 0;
    while i < cs.len()
        invariant
            i <= cs@.len(),
            first_index(cs@.take(i as int), c) is None,
        decreases cs@.len() - i,
    {
        proof {
            assert(cs@.take(i + 1).drop_last() =~= cs@.take(i as int));
        }
        if cs[i] == c {
            proof {
                lemma_first_index_prefix(cs@, c, i + 1);
            }
            return Some(i);
        }
        i = i + 1;
    }
    proof {
        assert(cs@.take(cs@.len() as int) =~= cs@);
    }
    None
}

proof fn lemma_first_index_prefix(s: Seq<char>, c: char, k: int)
    requires
        0 <= k <= s.len(),
        first_index(s.take(k), c) is Some,
    ensures
        first_index(s, c) == first_index(s.take(k), c),
    decreases s.len() - k,
{
    if k < s.len() {
        assert(s.take(k + 1).drop_last() =~= s.take(k));
        lemma_first_index_prefix(s, c, k + 1);
    } else {
        assert(s.take(k) =~= s);
    }
}

/// The last position of `c` in `cs`.
fn find_last(cs: &Vec<char>, c: char) -> (r: Option<usize>)
    ensures
        match r {
            Some(i) => last_index(cs@, c) == Some(i as int),
            None => last_index(cs@, c) is None,
        },
{
    let mut i: usize = cs.len();
    proof {
        assert(cs@.take(i as int) =~= cs@);
    }
    while i > 0
        invariant
            i <= cs@.len(),
            last_index(cs@, c) == last_index(cs@.take(i as int), c),
        decreases i,
    {
        proof {
            assert(cs@.take(i as int).drop_last() =~= cs@.take(i - 1));
        }
        if cs[i - 1] == c {
            return Some(i - 1);
        }
        i = i - 1;
    }
    None
}

/// `str::trim`.
fn trim_chars(cs: &Vec<char>) -> (r: Vec<char>)
    ensures
        r@ == trimmed(cs@),
{
    let mut a: usize = 0;
    while a < cs.len() && is_space_char(cs[a])
        invariant
            a <= cs@.len(),
            trim_start(cs@) == trim_start(cs@.skip(a as int)),
        decreases cs@.len() - a,
    {
        proof {
            assert(cs@.skip(a as int).drop_first() =~= cs@.skip(a + 1));
        }
        a = a + 1;
    }
    let ghost st = cs@.skip(a as int);
    proof {
        assert(trim_start(cs@) == st);
    }
    let mut b: usize = cs.len();
    proof {
        assert(cs@.subrange(a as int, b as int) =~= st);
    }
    while b > a && is_space_char(cs[b - 1])
        invariant
            a <= b <= cs@.len(),
            st == cs@.skip(a as int),
            trim_end(st) == trim_end(cs@.subrange(a as int, b as int)),
        decreases b - a,
    {
        proof {
            assert(cs@.subrange(a as int, b as int).drop_last() =~= cs@.subrange(a as int, b - 1));
        }
        b = b - 1;
    }
    crate::text::copy_range(cs, a, b)
}

/// Splits a template identifier into its name and trimmed arguments.
pub fn parse_template_identifier(identifier: &str) -> (r: (String, Vec<String>))
    ensures
        r.0@ == template_parts(identifier@).0,
        r.1@.len() == template_parts(identifier@).1.len(),
        forall|k: int| 0 <= k < r.1@.len() ==> #[trigger] r.1@[k]@ == template_parts(identifier@).1[k],
{
    let cs = chars_of(identifier);
    let open = find_first(&cs, '<');
    let close = find_last(&cs, '>');
    proof {
        lemma_index_bounds(cs@, '<');
        lemma_index_bounds(cs@, '>');
    }
    match (open, close) {
        (Some(o), Some(c)) => {
            if c > o {
                let name = string_of(cs.as_slice(), 0, o);
                let inner = crate::text::copy_range(&cs, o + 1, c);
                let parts = split_chars(&inner, ',');
                let mut args: Vec<String> = Vec::new();
                let mut k: usize = 0;
                while k < parts.len()
                    invariant
                        k <= parts@.len(),
                        args@.len() == k,
                        forall|j: int| 0 <= j < k ==> #[trigger] args@[j]@ == trimmed(parts@[j]@),
                    decreases parts@.len() - k,
                {
                    let t = trim_chars(&parts[k]);
                    args.push(string_from(&t));
                    k = k + 1;
                }
                proof {
                    assert(cs@.subrange(0, o as int) =~= cs@.take(o as int));
                    let want = split_on(cs@.subrange(o + 1, c as int), ',').map_values(
                        |a: Seq<char>| trimmed(a),
                    );
                    assert forall|j: int| 0 <= j < args@.len() implies #[trigger] args@[j]@
                        == want[j] by {
                        assert(parts@[j]@ == chars_view(parts@)[j]);
                    }
                }
                return (name, args);
            }
        },
        _ => {},
    }
    (copy_str(identifier), Vec::new())
}

/// Parts joined with `", "`.
fn join_strings(parts: &Vec<String>) -> (r: String)
    ensures
        r@ == join_args(parts@.map_values(|s: String| s@)),
{
    let ghost pv = parts@.map_values(|s: String| s@);
    let mut r = String::new();
    let mut k: usize = 0;
    proof {
        reveal_strlit(", ");
    }
    while k < parts.len()
        invariant
            k <= parts@.len(),
            pv == parts@.map_values(|s: String| s@),
            r@ == join_args(pv.take(k as int)),
        decreases parts@.len() - k,
    {
        let ghost before = r@;
        if k > 0 {
            push_str(&mut r, ", ");
        }
        push_str(&mut r, parts[k].as_str());
        proof {
            let t = pv.take(k + 1);
            assert(t.drop_last() =~= pv.take(k as int));
            assert(t.last() == parts@[k as int]@);
            if k > 0 {
                assert(r@ =~= before + ", "@ + parts@[k as int]@);
            } else {
                assert(r@ =~= parts@[k as int]@);
            }
        }
        k = k + 1;
    }
    proof {
        assert(pv.take(parts@.len() as int) =~= pv);
    }
    r
}

/// The identifier of a concrete instantiation: `name<a, b>`, or `name`
/// without arguments.
pub fn concrete_identifier(name: &str, args: &Vec<String>) -> (r: String)
    ensures
        r@ == concrete_id(name@, args@.map_values(|s: String| s@)),
{
    if args.len() == 0 {
        return copy_str(name);
    }
    proof {
        reveal_strlit("<");
        reveal_strlit(">");
    }
    let mut r = copy_str(name);
    push_str(&mut r, "<");
    let j = join_strings(args);
    push_str(&mut r, j.as_str());
    push_str(&mut r, ">");
    proof {
        assert(r@ =~= name@ + "<"@ + join_args(args@.map_values(|s: String| s@)) + ">"@);
    }
    r
}

/// The identifier of the instantiations of `name` whose first arguments
/// are `prefix`: the remaining arguments, up to `total_args`, are `*`.
pub fn build_wildcard_identifier(name: &str, prefix: &Vec<String>, total_args: usize) -> (r: String)
    ensures
        r@ == wildcard_id(name@, prefix@.map_values(|s: String| s@), total_args as int),
{
    if total_args == 0 {
        return copy_str(name);
    }
    let mut items: Vec<String> = Vec::new();
    let mut k: usize = 0;
    while k < prefix.len()
        invariant
            k <= prefix@.len(),
            items@.map_values(|s: String| s@) =~= prefix@.map_values(|s: String| s@).take(k as int),
        decreases prefix@.len() - k,
    {
        let ghost before = items@;
        items.push(copy_str(prefix[k].as_str()));
        proof {
            assert(items@.map_values(|s: String| s@) =~= before.map_values(|s: String| s@).push(
                prefix@[k as int]@,
            ));
            assert(prefix@.map_values(|s: String| s@).take(k + 1) =~= prefix@.map_values(
                |s: String| s@,
            ).take(k as int).push(prefix@[k as int]@));
        }
        k = k + 1;
    }
    let ghost pv = prefix@.map_values(|s: String| s@);
    proof {
        reveal_strlit("*");
        assert(pv.take(prefix@.len() as int) =~= pv);
    }
    let mut i: usize = prefix.len();
    while i < total_args
        invariant
            prefix@.len() <= i <= total_args || (i == prefix@.len() && i >= total_args),
            items@.map_values(|s: String| s@) =~= pv + Seq::new(
                (i - prefix@.len()) as nat,
                |j: int| "*"@,
            ),
        decreases total_args - i,
    {
        let ghost before = items@;
        items.push(copy_str("*"));
        proof {
            assert(items@.map_values(|s: String| s@) =~= before.map_values(|s: String| s@).push(
                "*"@,
            ));
            assert(Seq::new((i + 1 - prefix@.len()) as nat, |j: int| "*"@) =~= Seq::new(
                (i - prefix@.len()) as nat,
                |j: int| "*"@,
            ).push("*"@));
        }
        i = i + 1;
    }
    let ghost stars = if total_args > pv.len() {
        Seq::new((total_args - pv.len()) as nat, |j: int| "*"@)
    } else {
        Seq::<Seq<char>>::empty()
    };
    proof {
        assert(items@.map_values(|s: String| s@) =~= pv + stars);
        reveal_strlit("<");
        reveal_strlit(">");
    }
    let mut r = copy_str(name);
    push_str(&mut r, "<");
    let j = join_strings(&items);
    push_str(&mut r, j.as_str());
    push_str(&mut r, ">");
    proof {
        assert(r@ =~= name@ + "<"@ + join_args(pv + stars) + ">"@);
    }
    r
}

// ---------------------------------------------------------------------------
// Which spans are aggregated
// ---------------------------------------------------------------------------

/// The span is an instantiation (not a parse).
pub open spec fn is_instantiation_spec(s: Span) -> bool {
    opt_chars(s.sublabel) == Some("Instantiation"@)
}

/// The kind is a template or a class.
pub open spec fn template_or_class(st: SpanType) -> bool {
    st == SpanType::Template || st == SpanType::Class
}

/// A root instantiation: a template or class instantiation whose parent,
/// if any, is neither a template nor a class.
pub open spec fn root_instantiation(spans: Seq<Span>, i: int) -> bool {
    &&& is_instantiation_spec(spans[i])
    &&& template_or_class(spans[i].type_)
    &&& match spans[i].parent_index {
        Some(p) => !template_or_class(spans[p as int].type_),
        None => true,
    }
}

/// Whether the span is an instantiation.
pub fn is_instantiation(span: &Span) -> (r: bool)
    ensures
        r == is_instantiation_spec(*span),
{
    match &span.sublabel {
        Some(s) => crate::link::str_eq(s.as_str(), "Instantiation"),
        None => false,
    }
}

/// Whether the kind is a template or a class.
pub fn is_template_or_class(st: SpanType) -> (r: bool)
    ensures
        r == template_or_class(st),
{
    st == SpanType::Template || st == SpanType::Class
}

/// Whether span `idx` is the top of a chain of instantiations.
pub fn is_root_instantiation(raw_spans: &[Span], idx: usize) -> (r: bool)
    requires
        idx < raw_spans@.len(),
        raw_spans@[idx as int].parent_index matches Some(p) ==> p < raw_spans@.len(),
    ensures
        r == root_instantiation(raw_spans@, idx as int),
{
    let span = &raw_spans[idx];
    if !is_instantiation(span) || !is_template_or_class(span.type_) {
        return false;
    }
    match span.parent_index {
        Some(pi) => !is_template_or_class(raw_spans[pi].type_),
        None => true,
    }
}


// ---------------------------------------------------------------------------
// Aggregation entries
// ---------------------------------------------------------------------------

/// Every parent index names a span.
pub open spec fn parents_in_range(spans: Seq<Span>) -> bool {
    forall|j: int|
        0 <= j < spans.len() ==> ((#[trigger] spans[j]).parent_index matches Some(p) ==> p < spans.len())
}

/// The template name and arguments of span `i`.
pub open spec fn span_key(spans: Seq<Span>, i: int) -> (Seq<char>, Seq<Seq<char>>) {
    template_parts(spans[i].identifier@)
}

/// The distinct (name, arguments) of the root instantiations among the
/// first `m` spans, in order of first appearance.
pub open spec fn entry_keys(spans: Seq<Span>, m: int) -> Seq<(Seq<char>, Seq<Seq<char>>)>
    decreases m,
{
    if m <= 0 {
        Seq::empty()
    } else {
        let prev = entry_keys(spans, m - 1);
        if root_instantiation(spans, m - 1) && !prev.contains(span_key(spans, m - 1)) {
            prev.push(span_key(spans, m - 1))
        } else {
            prev
        }
    }
}

/// The summed (saturating) duration of the root instantiations of `key`
/// among the first `m` spans.
pub open spec fn entry_duration(spans: Seq<Span>, key: (Seq<char>, Seq<Seq<char>>), m: int) -> u64
    decreases m,
{
    if m <= 0 {
        0
    } else {
        let d = entry_duration(spans, key, m - 1);
        if root_instantiation(spans, m - 1) && span_key(spans, m - 1) == key {
            crate::view::sat_add(d, spans[m - 1].duration)
        } else {
            d
        }
    }
}

/// The distinct units (root spans) of the root instantiations of `key`
/// among the first `m` spans, in order of first appearance.
pub open spec fn entry_units(spans: Seq<Span>, key: (Seq<char>, Seq<Seq<char>>), m: int) -> Seq<usize>
    decreases m,
{
    if m <= 0 {
        Seq::empty()
    } else {
        let u = entry_units(spans, key, m - 1);
        if root_instantiation(spans, m - 1) && span_key(spans, m - 1) == key && !u.contains(
            spans[m - 1].root_span_index,
        ) {
            u.push(spans[m - 1].root_span_index)
        } else {
            u
        }
    }
}

/// The first root instantiation of `key` among the first `m` spans (-1 if
/// none).
pub open spec fn entry_first(spans: Seq<Span>, key: (Seq<char>, Seq<Seq<char>>), m: int) -> int
    decreases m,
{
    if m <= 0 {
        -1
    } else {
        let f = entry_first(spans, key, m - 1);
        if f >= 0 {
            f
        } else if root_instantiation(spans, m - 1) && span_key(spans, m - 1) == key {
            m - 1
        } else {
            -1
        }
    }
}

/// What is summed for one (name, arguments) pair.
pub struct TemplateEntry {
    pub name: String,
    pub args: Vec<String>,
    /// Summed duration, in microseconds.
    pub duration: u64,
    /// The distinct units it was instantiated in.
    pub units: Vec<usize>,
    /// Kind and sublabel of its first instantiation.
    pub span_type: SpanType,
    pub sublabel: String,
}

/// The (name, arguments) of an entry.
pub open spec fn entry_key(e: TemplateEntry) -> (Seq<char>, Seq<Seq<char>>) {
    (e.name@, e.args@.map_values(|s: String| s@))
}

/// The sublabel text of a span (empty when absent).
pub open spec fn sublabel_text(s: Span) -> Seq<char> {
    match s.sublabel {
        Some(t) => t@,
        None => Seq::empty(),
    }
}

/// `e` sums the root instantiations of `key` among the first `m` spans.
pub open spec fn entry_of(spans: Seq<Span>, e: TemplateEntry, key: (Seq<char>, Seq<Seq<char>>), m: int) -> bool {
    let f = entry_first(spans, key, m);
    &&& entry_key(e) == key
    &&& e.duration == entry_duration(spans, key, m)
    &&& e.units@ == entry_units(spans, key, m)
    &&& 0 <= f < m
    &&& e.span_type == spans[f].type_
    &&& e.sublabel@ == sublabel_text(spans[f])
}

/// The entries of the first `m` spans.
pub open spec fn entries_upto(spans: Seq<Span>, m: int, es: Seq<TemplateEntry>) -> bool {
    let keys = entry_keys(spans, m);
    &&& es.len() == keys.len()
    &&& forall|k: int| 0 <= k < keys.len() ==> entry_of(spans, #[trigger] es[k], keys[k], m)
}

proof fn lemma_entry_keys_distinct(spans: Seq<Span>, m: int)
    requires
        0 <= m <= spans.len(),
    ensures
        entry_keys(spans, m).no_duplicates(),
    decreases m,
{
    if m > 0 {
        lemma_entry_keys_distinct(spans, m - 1);
    }
}

proof fn lemma_entry_absent(spans: Seq<Span>, key: (Seq<char>, Seq<Seq<char>>), m: int)
    requires
        0 <= m <= spans.len(),
        !entry_keys(spans, m).contains(key),
    ensures
        entry_duration(spans, key, m) == 0,
        entry_units(spans, key, m) == Seq::<usize>::empty(),
        entry_first(spans, key, m) == -1,
    decreases m,
{
    if m > 0 {
        let g = entry_keys(spans, m - 1);
        if g.contains(key) {
            let k = choose|k: int| 0 <= k < g.len() && g[k] == key;
            assert(entry_keys(spans, m)[k] == key);
        }
        lemma_entry_absent(spans, key, m - 1);
    }
}

proof fn lemma_entry_first_stays(spans: Seq<Span>, key: (Seq<char>, Seq<Seq<char>>), m: int)
    requires
        0 <= m,
        entry_first(spans, key, m) >= 0,
    ensures
        entry_first(spans, key, m + 1) == entry_first(spans, key, m),
{
}

/// Whether two argument lists are equal.
fn args_eq(a: &Vec<String>, b: &Vec<String>) -> (r: bool)
    ensures
        r == (a@.map_values(|s: String| s@) == b@.map_values(|s: String| s@)),
{
    if a.len() != b.len() {
        proof {
            assert(a@.map_values(|s: String| s@).len() != b@.map_values(|s: String| s@).len());
        }
        return false;
    }
    let mut k: usize = 0;
    while k < a.len()
        invariant
            a@.len() == b@.len(),
            k <= a@.len(),
            forall|j: int| 0 <= j < k ==> a@[j]@ == b@[j]@,
        decreases a@.len() - k,
    {
        if !crate::link::str_eq(a[k].as_str(), b[k].as_str()) {
            proof {
                assert(a@.map_values(|s: String| s@)[k as int] != b@.map_values(|s: String| s@)[k as int]);
            }
            return false;
        }
        k = k + 1;
    }
    proof {
        assert(a@.map_values(|s: String| s@) =~= b@.map_values(|s: String| s@));
    }
    true
}

/// Where the entry of (`name`, `args`) stands among `es`.
fn find_entry(es: &Vec<TemplateEntry>, name: &String, args: &Vec<String>) -> (r: Option<usize>)
    ensures
        match r {
            Some(k) => k < es@.len() && entry_key(es@[k as int]) == (name@, args@.map_values(|s: String| s@)),
            None => forall|j: int| 0 <= j < es@.len() ==> entry_key(#[trigger] es@[j]) != (name@, args@.map_values(|s: String| s@)),
        },
{
    let mut k: usize = 0;
    while k < es.len()
        invariant
            k <= es@.len(),
            forall|j: int| 0 <= j < k ==> entry_key(#[trigger] es@[j]) != (name@, args@.map_values(|s: String| s@)),
        decreases es@.len() - k,
    {
        if crate::link::str_eq(es[k].name.as_str(), name.as_str()) && args_eq(&es[k].args, args) {
            return Some(k);
        }
        k = k + 1;
    }
    None
}

/// Copies an argument list.
fn copy_args(a: &Vec<String>) -> (r: Vec<String>)
    ensures
        r@.map_values(|s: String| s@) == a@.map_values(|s: String| s@),
        r@.len() == a@.len(),
{
    let mut r: Vec<String> = Vec::new();
    let mut k: usize = 0;
    while k < a.len()
        invariant
            k <= a@.len(),
            r@.map_values(|s: String| s@) =~= a@.map_values(|s: String| s@).take(k as int),
        decreases a@.len() - k,
    {
        let ghost before = r@;
        r.push(copy_str(a[k].as_str()));
        proof {
            assert(r@.map_values(|s: String| s@) =~= before.map_values(|s: String| s@).push(a@[k as int]@));
            assert(a@.map_values(|s: String| s@).take(k + 1) =~= a@.map_values(|s: String| s@).take(
                k as int,
            ).push(a@[k as int]@));
        }
        k = k + 1;
    }
    r
}

/// Adds span `i` to the entries.
#[verifier::spinoff_prover]
fn entry_step(raw_spans: &[Span], i: usize, es: &mut Vec<TemplateEntry>)
    requires
        i < raw_spans@.len(),
        parents_in_range(raw_spans@),
        entries_upto(raw_spans@, i as int, old(es)@),
    ensures
        entries_upto(raw_spans@, i + 1, final(es)@),
{
    let ghost sv = raw_spans@;
    let ghost n1 = i + 1;
    let ghost ki = entry_keys(sv, i as int);
    let ghost oe = es@;
    proof {
        lemma_entry_keys_distinct(sv, i as int);
        assert(sv[i as int] == raw_spans@[i as int]);
    }
    if !is_root_instantiation(raw_spans, i) {
        proof {
            assert(entry_keys(sv, n1) == ki);
            assert forall|k: int| 0 <= k < ki.len() implies entry_of(sv, #[trigger] es@[k], ki[k], n1) by {
                assert(entry_of(sv, oe[k], ki[k], i as int));
            }
        }
        return;
    }
    let span = &raw_spans[i];
    let (name, args) = parse_template_identifier(span.identifier.as_str());
    let ghost key = span_key(sv, i as int);
    proof {
        assert(args@.map_values(|s: String| s@) =~= template_parts(span.identifier@).1);
        assert((name@, args@.map_values(|s: String| s@)) == key);
    }
    match find_entry(es, &name, &args) {
        Some(k) => {
            proof {
                assert(entry_of(sv, oe[k as int], ki[k as int], i as int));
                assert(ki[k as int] == key);
                assert(ki.contains(key));
                assert(entry_keys(sv, n1) == ki);
                lemma_entry_first_stays(sv, key, i as int);
            }
            let old_e = &es[k];
            let mut units = old_e.units.clone();
            if !vec_contains_usize(&units, span.root_span_index) {
                units.push(span.root_span_index);
            }
            let e = TemplateEntry {
                name: copy_str(old_e.name.as_str()),
                args: copy_args(&old_e.args),
                duration: old_e.duration.saturating_add(span.duration),
                units,
                span_type: old_e.span_type,
                sublabel: copy_str(old_e.sublabel.as_str()),
            };
            es.set(k, e);
            proof {
                assert forall|j: int| 0 <= j < ki.len() implies entry_of(sv, #[trigger] es@[j], ki[j], n1) by {
                    assert(entry_of(sv, oe[j], ki[j], i as int));
                    if j != k {
                        assert(ki[j] != ki[k as int]);
                        assert(es@[j] == oe[j]);
                    }
                }
            }
        },
        None => {
            proof {
                assert forall|j: int| 0 <= j < ki.len() implies ki[j] != key by {
                    assert(entry_of(sv, oe[j], ki[j], i as int));
                }
                assert(!ki.contains(key));
                assert(entry_keys(sv, n1) == ki.push(key));
                lemma_entry_absent(sv, key, i as int);
            }
            let sub = match &span.sublabel {
                Some(t) => copy_str(t.as_str()),
                None => String::new(),
            };
            let mut units: Vec<usize> = Vec::new();
            units.push(span.root_span_index);
            let e = TemplateEntry {
                name,
                args,
                duration: span.duration,
                units,
                span_type: span.type_,
                sublabel: sub,
            };
            es.push(e);
            proof {
                assert forall|j: int| 0 <= j < ki.len() + 1 implies entry_of(sv, #[trigger] es@[j], entry_keys(sv, n1)[j], n1) by {
                    if j < ki.len() {
                        assert(entry_of(sv, oe[j], ki[j], i as int));
                        assert(ki[j] != key);
                    } else {
                        assert(entry_units(sv, key, n1) =~= seq![sv[i as int].root_span_index]);
                    }
                }
            }
        },
    }
}

/// Whether `v` contains `x`.
fn vec_contains_usize(v: &Vec<usize>, x: usize) -> (r: bool)
    ensures
        r == v@.contains(x),
{
    crate::view::vec_contains(v, x)
}

/// The entries of the root instantiations: one per distinct template name
/// and arguments, in order of first appearance, with the summed duration,
/// the distinct units, and the kind and sublabel of the first one.
pub fn template_entries(raw_spans: &[Span]) -> (r: Vec<TemplateEntry>)
    requires
        parents_in_range(raw_spans@),
    ensures
        entries_upto(raw_spans@, raw_spans@.len() as int, r@),
{
    let mut es: Vec<TemplateEntry> = Vec::new();
    let mut i: usize = 0;
    while i < raw_spans.len()
        invariant
            i <= raw_spans@.len(),
            parents_in_range(raw_spans@),
            entries_upto(raw_spans@, i as int, es@),
        decreases raw_spans@.len() - i,
    {
        entry_step(raw_spans, i, &mut es);
        i = i + 1;
    }
    es
}


// ---------------------------------------------------------------------------
// The tree of one template name and argument count
// ---------------------------------------------------------------------------

/// The arguments of an entry.
pub open spec fn args_of(e: TemplateEntry) -> Seq<Seq<char>> {
    e.args@.map_values(|s: String| s@)
}

/// The arguments of `e` start with `p`.
pub open spec fn has_prefix_spec(e: TemplateEntry, p: Seq<Seq<char>>) -> bool {
    args_of(e).len() >= p.len() && args_of(e).take(p.len() as int) == p
}

/// The entry is an instantiation of `name` with `total` arguments that
/// start with `p`.
pub open spec fn member(e: TemplateEntry, name: Seq<char>, total: int, p: Seq<Seq<char>>) -> bool {
    e.name@ == name && args_of(e).len() == total && has_prefix_spec(e, p)
}

/// The positions of the entries among the first `m` that instantiate
/// `name` with `total` arguments starting with `p`.
pub open spec fn matching(es: Seq<TemplateEntry>, name: Seq<char>, total: int, p: Seq<Seq<char>>, m: int) -> Seq<
    usize,
>
    decreases m,
{
    if m <= 0 {
        Seq::empty()
    } else if member(es[m - 1], name, total, p) {
        matching(es, name, total, p, m - 1).push((m - 1) as usize)
    } else {
        matching(es, name, total, p, m - 1)
    }
}

/// The distinct arguments at `pos` of the entries `ms[..m]`, in order.
pub open spec fn next_values(es: Seq<TemplateEntry>, ms: Seq<usize>, pos: int, m: int) -> Seq<Seq<char>>
    decreases m,
{
    if m <= 0 {
        Seq::empty()
    } else {
        let prev = next_values(es, ms, pos, m - 1);
        let v = args_of(es[ms[m - 1] as int])[pos];
        if prev.contains(v) {
            prev
        } else {
            prev.push(v)
        }
    }
}

/// The summed (saturating) duration of the entries `ms[..m]` whose
/// argument at `pos` is `v`.
pub open spec fn value_duration(es: Seq<TemplateEntry>, ms: Seq<usize>, pos: int, v: Seq<char>, m: int) -> u64
    decreases m,
{
    if m <= 0 {
        0
    } else {
        let d = value_duration(es, ms, pos, v, m - 1);
        if args_of(es[ms[m - 1] as int])[pos] == v {
            crate::view::sat_add(d, es[ms[m - 1] as int].duration)
        } else {
            d
        }
    }
}

/// The summed (saturating) duration of the entries `ms[..m]`.
pub open spec fn entries_duration(es: Seq<TemplateEntry>, ms: Seq<usize>, m: int) -> u64
    decreases m,
{
    if m <= 0 {
        0
    } else {
        crate::view::sat_add(entries_duration(es, ms, m - 1), es[ms[m - 1] as int].duration)
    }
}

/// `a + b`, or the largest `usize` above it.
pub open spec fn sat_add_usize(a: usize, b: usize) -> usize {
    if a + b > usize::MAX {
        usize::MAX
    } else {
        (a + b) as usize
    }
}

/// The summed (saturating) unit counts of the entries `ms[..m]`.
pub open spec fn entries_units(es: Seq<TemplateEntry>, ms: Seq<usize>, m: int) -> usize
    decreases m,
{
    if m <= 0 {
        0
    } else {
        sat_add_usize(entries_units(es, ms, m - 1), es[ms[m - 1] as int].units@.len() as usize)
    }
}

/// The position in `ms[..m]` of the last entry of longest duration (-1
/// when empty).
pub open spec fn dominant_at(es: Seq<TemplateEntry>, ms: Seq<usize>, m: int) -> int
    decreases m,
{
    if m <= 0 {
        -1
    } else {
        let j = dominant_at(es, ms, m - 1);
        if j < 0 || es[ms[m - 1] as int].duration >= es[ms[j] as int].duration {
            m - 1
        } else {
            j
        }
    }
}

/// The order of the next argument values: longest summed duration first,
/// then first appearance.
pub open spec fn value_keys(es: Seq<TemplateEntry>, ms: Seq<usize>, pos: int) -> Seq<crate::sort::SortKey> {
    let vals = next_values(es, ms, pos, ms.len() as int);
    Seq::new(
        vals.len(),
        |k: int|
            (
                (u64::MAX - value_duration(es, ms, pos, vals[k], ms.len() as int)) as u128,
                0u128,
                k as usize,
            ),
    )
}

/// The next argument values in display order.
pub open spec fn value_order(es: Seq<TemplateEntry>, ms: Seq<usize>, pos: int) -> Seq<Seq<char>> {
    let vals = next_values(es, ms, pos, ms.len() as int);
    let sorted = crate::sort::sorted_of(value_keys(es, ms, pos));
    Seq::new(sorted.len(), |k: int| vals[sorted[k].2 as int])
}

/// A node of the aggregated tree.
pub struct TreeNode {
    pub identifier: Seq<char>,
    pub duration: u64,
    pub count: usize,
    pub depth: usize,
    pub parent: Option<usize>,
    pub span_type: SpanType,
    pub sublabel: Seq<char>,
    pub children: Seq<usize>,
}

/// The node of a single instantiation.
pub open spec fn leaf_node(name: Seq<char>, e: TemplateEntry, depth: usize, parent: Option<usize>) -> TreeNode {
    TreeNode {
        identifier: concrete_id(name, args_of(e)),
        duration: e.duration,
        count: e.units@.len() as usize,
        depth,
        parent,
        span_type: e.span_type,
        sublabel: e.sublabel@,
        children: Seq::empty(),
    }
}

/// The node of the instantiations `ms` that share the arguments `p`.
pub open spec fn group_node(
    name: Seq<char>,
    es: Seq<TemplateEntry>,
    p: Seq<Seq<char>>,
    total: int,
    ms: Seq<usize>,
    depth: usize,
    parent: Option<usize>,
    children: Seq<usize>,
) -> TreeNode {
    let d = dominant_at(es, ms, ms.len() as int);
    TreeNode {
        identifier: wildcard_id(name, p, total),
        duration: entries_duration(es, ms, ms.len() as int),
        count: entries_units(es, ms, ms.len() as int),
        depth,
        parent,
        span_type: if d >= 0 {
            es[ms[d] as int].span_type
        } else {
            SpanType::Template
        },
        sublabel: if d >= 0 {
            es[ms[d] as int].sublabel@
        } else {
            "Instantiation"@
        },
        children,
    }
}

/// The nodes, in the order they are laid out from position `base`, of the
/// instantiations of `name` whose arguments start with `p`: a single one
/// is a leaf; a prefix that all of them extend the same way is extended;
/// otherwise a group node is followed by one subtree per next argument
/// value, longest first.
pub open spec fn tree_nodes(
    name: Seq<char>,
    es: Seq<TemplateEntry>,
    total: int,
    p: Seq<Seq<char>>,
    depth: usize,
    parent: Option<usize>,
    base: int,
) -> Seq<TreeNode>
    decreases total - p.len(), 1int, 0int,
{
    let ms = matching(es, name, total, p, es.len() as int);
    if ms.len() == 1 {
        seq![leaf_node(name, es[ms[0] as int], depth, parent)]
    } else if p.len() >= total {
        seq![group_node(name, es, p, total, ms, depth, parent, Seq::empty())]
    } else {
        let vals = next_values(es, ms, p.len() as int, ms.len() as int);
        if vals.len() == 1 {
            tree_nodes(name, es, total, p.push(vals[0]), depth, parent, base)
        } else {
            let order = value_order(es, ms, p.len() as int);
            let d1 = sat_add_usize(depth, 1);
            let kids = forest_roots(name, es, total, p, order, 0, d1, base, base + 1);
            seq![group_node(name, es, p, total, ms, depth, parent, kids)] + forest(
                name,
                es,
                total,
                p,
                order,
                0,
                d1,
                base,
                base + 1,
            )
        }
    }
}

/// The subtrees of the values `order[k..]` after the prefix `p`, laid out
/// from `start`, under the node at `pb`.
pub open spec fn forest(
    name: Seq<char>,
    es: Seq<TemplateEntry>,
    total: int,
    p: Seq<Seq<char>>,
    order: Seq<Seq<char>>,
    k: int,
    depth: usize,
    pb: int,
    start: int,
) -> Seq<TreeNode>
    decreases total - p.len(), 0int, order.len() - k,
{
    if k < 0 || k >= order.len() || p.len() >= total {
        Seq::empty()
    } else {
        let t = tree_nodes(name, es, total, p.push(order[k]), depth, Some(pb as usize), start);
        t + forest(name, es, total, p, order, k + 1, depth, pb, start + t.len())
    }
}

/// Where the subtrees of [`forest`] start.
pub open spec fn forest_roots(
    name: Seq<char>,
    es: Seq<TemplateEntry>,
    total: int,
    p: Seq<Seq<char>>,
    order: Seq<Seq<char>>,
    k: int,
    depth: usize,
    pb: int,
    start: int,
) -> Seq<usize>
    decreases total - p.len(), 0int, order.len() - k,
{
    if k < 0 || k >= order.len() || p.len() >= total {
        Seq::empty()
    } else {
        let t = tree_nodes(name, es, total, p.push(order[k]), depth, Some(pb as usize), start);
        seq![start as usize] + forest_roots(name, es, total, p, order, k + 1, depth, pb, start + t.len())
    }
}


/// A node of the aggregated tree, without its children.
pub struct TemplateNode {
    pub identifier: String,
    pub duration: u64,
    pub count: usize,
    pub depth: usize,
    pub parent_index: Option<usize>,
    pub span_type: SpanType,
    pub sublabel: String,
}

/// A node with its children.
pub open spec fn node_view(n: TemplateNode, kids: Seq<usize>) -> TreeNode {
    TreeNode {
        identifier: n.identifier@,
        duration: n.duration,
        count: n.count,
        depth: n.depth,
        parent: n.parent_index,
        span_type: n.span_type,
        sublabel: n.sublabel@,
        children: kids,
    }
}

/// Nodes with their children.
pub open spec fn nodes_view(ns: Seq<TemplateNode>, kids: Seq<Vec<usize>>) -> Seq<TreeNode> {
    Seq::new(ns.len(), |i: int| node_view(ns[i], kids[i]@))
}

/// Whether the arguments of `e` start with `prefix`.
fn has_prefix(e: &TemplateEntry, prefix: &Vec<String>) -> (r: bool)
    ensures
        r == has_prefix_spec(*e, prefix@.map_values(|s: String| s@)),
{
    let ghost a = args_of(*e);
    let ghost pv = prefix@.map_values(|s: String| s@);
    if e.args.len() < prefix.len() {
        return false;
    }
    let mut k: usize = 0;
    while k < prefix.len()
        invariant
            k <= prefix@.len(),
            prefix@.len() <= e.args@.len(),
            a == args_of(*e),
            pv == prefix@.map_values(|s: String| s@),
            forall|j: int| 0 <= j < k ==> a[j] == pv[j],
        decreases prefix@.len() - k,
    {
        if !crate::link::str_eq(e.args[k].as_str(), prefix[k].as_str()) {
            proof {
                assert(a.take(pv.len() as int)[k as int] != pv[k as int]);
            }
            return false;
        }
        k = k + 1;
    }
    proof {
        assert(a.take(pv.len() as int) =~= pv);
    }
    true
}

/// The positions of the entries of `name` with `total` arguments that
/// start with `prefix`.
fn matching_of(es: &Vec<TemplateEntry>, name: &str, total: usize, prefix: &Vec<String>) -> (r: Vec<usize>)
    ensures
        r@ == matching(es@, name@, total as int, prefix@.map_values(|s: String| s@), es@.len() as int),
        forall|j: int| 0 <= j < r@.len() ==> #[trigger] r@[j] < es@.len() && args_of(es@[r@[j] as int]).len() == total,
{
    let ghost pv = prefix@.map_values(|s: String| s@);
    let mut r: Vec<usize> = Vec::new();
    let mut k: usize = 0;
    while k < es.len()
        invariant
            k <= es@.len(),
            pv == prefix@.map_values(|s: String| s@),
            r@ == matching(es@, name@, total as int, pv, k as int),
            forall|j: int| 0 <= j < r@.len() ==> #[trigger] r@[j] < k && args_of(es@[r@[j] as int]).len() == total,
        decreases es@.len() - k,
    {
        let e = &es[k];
        if crate::link::str_eq(e.name.as_str(), name) && e.args.len() == total && has_prefix(e, prefix) {
            proof {
                assert(args_of(*e).len() == e.args@.len());
            }
            r.push(k);
        } else {
            proof {
                assert(args_of(*e).len() == e.args@.len());
            }
        }
        k = k + 1;
    }
    r
}

/// The entries `ms` are positions of `es` with more than `pos` arguments.
pub open spec fn positions_ok(es: Seq<TemplateEntry>, ms: Seq<usize>, pos: int) -> bool {
    forall|j: int| 0 <= j < ms.len() ==> #[trigger] ms[j] < es.len() && args_of(es[ms[j] as int]).len() > pos
}

/// Where `v` stands among `vals`.
fn find_string(vals: &Vec<String>, v: &String) -> (r: Option<usize>)
    ensures
        match r {
            Some(k) => k < vals@.len() && vals@[k as int]@ == v@,
            None => forall|j: int| 0 <= j < vals@.len() ==> (#[trigger] vals@[j])@ != v@,
        },
{
    let mut k: usize = 0;
    while k < vals.len()
        invariant
            k <= vals@.len(),
            forall|j: int| 0 <= j < k ==> (#[trigger] vals@[j])@ != v@,
        decreases vals@.len() - k,
    {
        if crate::link::str_eq(vals[k].as_str(), v.as_str()) {
            return Some(k);
        }
        k = k + 1;
    }
    None
}

/// The distinct arguments at `pos` of the entries `ms`, in order.
fn next_values_of(es: &Vec<TemplateEntry>, ms: &Vec<usize>, pos: usize) -> (r: Vec<String>)
    requires
        positions_ok(es@, ms@, pos as int),
    ensures
        r@.map_values(|s: String| s@) == next_values(es@, ms@, pos as int, ms@.len() as int),
{
    let mut r: Vec<String> = Vec::new();
    let mut k: usize = 0;
    while k < ms.len()
        invariant
            k <= ms@.len(),
            positions_ok(es@, ms@, pos as int),
            r@.map_values(|s: String| s@) == next_values(es@, ms@, pos as int, k as int),
        decreases ms@.len() - k,
    {
        let e = &es[ms[k]];
        proof {
            assert(ms@[k as int] < es@.len());
            assert(args_of(es@[ms@[k as int] as int]).len() > pos);
        }
        let v = &e.args[pos];
        let ghost before = r@;
        match find_string(&r, v) {
            Some(j) => {
                proof {
                    assert(r@.map_values(|s: String| s@)[j as int] == v@);
                    assert(next_values(es@, ms@, pos as int, k as int).contains(v@));
                }
            },
            None => {
                r.push(copy_str(v.as_str()));
                proof {
                    assert(!next_values(es@, ms@, pos as int, k as int).contains(v@)) by {
                        if next_values(es@, ms@, pos as int, k as int).contains(v@) {
                            let j = choose|j: int|
                                0 <= j < before.len() && next_values(es@, ms@, pos as int, k as int)[j] == v@;
                            assert(before[j]@ == v@);
                        }
                    }
                    assert(r@.map_values(|s: String| s@) =~= before.map_values(|s: String| s@).push(v@));
                }
            },
        }
        k = k + 1;
    }
    r
}

/// The summed duration of the entries `ms` whose argument at `pos` is `v`.
fn value_duration_of(es: &Vec<TemplateEntry>, ms: &Vec<usize>, pos: usize, v: &String) -> (r: u64)
    requires
        positions_ok(es@, ms@, pos as int),
    ensures
        r == value_duration(es@, ms@, pos as int, v@, ms@.len() as int),
{
    let mut d: u64 = 0;
    let mut k: usize = 0;
    while k < ms.len()
        invariant
            k <= ms@.len(),
            positions_ok(es@, ms@, pos as int),
            d == value_duration(es@, ms@, pos as int, v@, k as int),
        decreases ms@.len() - k,
    {
        let e = &es[ms[k]];
        proof {
            assert(ms@[k as int] < es@.len());
            assert(args_of(es@[ms@[k as int] as int]).len() > pos);
        }
        if crate::link::str_eq(e.args[pos].as_str(), v.as_str()) {
            d = d.saturating_add(e.duration);
        }
        k = k + 1;
    }
    d
}

/// Duration, units and dominant position of the entries `ms`.
fn summarize(es: &Vec<TemplateEntry>, ms: &Vec<usize>) -> (r: (u64, usize, Option<usize>))
    requires
        forall|j: int| 0 <= j < ms@.len() ==> #[trigger] ms@[j] < es@.len(),
    ensures
        r.0 == entries_duration(es@, ms@, ms@.len() as int),
        r.1 == entries_units(es@, ms@, ms@.len() as int),
        match r.2 {
            Some(d) => d as int == dominant_at(es@, ms@, ms@.len() as int) && d < ms@.len(),
            None => dominant_at(es@, ms@, ms@.len() as int) == -1,
        },
{
    let mut d: u64 = 0;
    let mut u: usize = 0;
    let mut dom: Option<usize> = None;
    let mut k: usize = 0;
    while k < ms.len()
        invariant
            k <= ms@.len(),
            forall|j: int| 0 <= j < ms@.len() ==> #[trigger] ms@[j] < es@.len(),
            d == entries_duration(es@, ms@, k as int),
            u == entries_units(es@, ms@, k as int),
            match dom {
                Some(x) => x as int == dominant_at(es@, ms@, k as int) && x < k,
                None => dominant_at(es@, ms@, k as int) == -1,
            },
        decreases ms@.len() - k,
    {
        let e = &es[ms[k]];
        d = d.saturating_add(e.duration);
        u = u.saturating_add(e.units.len());
        dom = match dom {
            None => Some(k),
            Some(x) => if e.duration >= es[ms[x]].duration {
                Some(k)
            } else {
                Some(x)
            },
        };
        k = k + 1;
    }
    (d, u, dom)
}

/// The next argument values in display order: longest summed duration
/// first.
fn value_order_of(es: &Vec<TemplateEntry>, ms: &Vec<usize>, pos: usize, vals: &Vec<String>) -> (r: Vec<String>)
    requires
        positions_ok(es@, ms@, pos as int),
        vals@.map_values(|s: String| s@) == next_values(es@, ms@, pos as int, ms@.len() as int),
    ensures
        r@.map_values(|s: String| s@) == value_order(es@, ms@, pos as int),
{
    let ghost vv = vals@.map_values(|s: String| s@);
    let mut keys: Vec<crate::sort::SortKey> = Vec::new();
    let mut k: usize = 0;
    while k < vals.len()
        invariant
            k <= vals@.len(),
            positions_ok(es@, ms@, pos as int),
            vv == vals@.map_values(|s: String| s@),
            vv == next_values(es@, ms@, pos as int, ms@.len() as int),
            keys@ =~= value_keys(es@, ms@, pos as int).take(k as int),
        decreases vals@.len() - k,
    {
        let d = value_duration_of(es, ms, pos, &vals[k]);
        proof {
            assert(vals@[k as int]@ == vv[k as int]);
        }
        keys.push(((u64::MAX - d) as u128, 0u128, k));
        k = k + 1;
    }
    let ghost kv = keys@;
    proof {
        assert(kv =~= value_keys(es@, ms@, pos as int));
        assert(crate::sort::distinct_tags(kv));
    }
    let sorted = crate::sort::sort_keys(keys);
    proof {
        crate::sort::lemma_sorted_of(kv, sorted@);
        crate::sort::lemma_sort_keeps_tags(kv, sorted@);
        assert forall|a: int| 0 <= a < sorted@.len() implies (#[trigger] sorted@[a]).2 < vals@.len() by {
            assert(kv.contains(sorted@[a]));
        }
    }
    let mut r: Vec<String> = Vec::new();
    let mut j: usize = 0;
    while j < sorted.len()
        invariant
            j <= sorted@.len(),
            sorted@ == crate::sort::sorted_of(value_keys(es@, ms@, pos as int)),
            forall|a: int| 0 <= a < sorted@.len() ==> (#[trigger] sorted@[a]).2 < vals@.len(),
            vv == vals@.map_values(|s: String| s@),
            vv == next_values(es@, ms@, pos as int, ms@.len() as int),
            r@.map_values(|s: String| s@) =~= Seq::new(j as nat, |a: int| vv[sorted@[a].2 as int]),
        decreases sorted@.len() - j,
    {
        let t = sorted[j].2;
        let ghost before = r@;
        r.push(copy_str(vals[t].as_str()));
        proof {
            assert(vals@[t as int]@ == vv[t as int]);
            assert(r@.map_values(|s: String| s@) =~= before.map_values(|s: String| s@).push(vv[t as int]));
        }
        j = j + 1;
    }
    r
}


/// `prefix` followed by `v`.
fn extend_prefix(prefix: &Vec<String>, v: &String) -> (r: Vec<String>)
    ensures
        r@.map_values(|s: String| s@) == prefix@.map_values(|s: String| s@).push(v@),
        r@.len() == prefix@.len() + 1,
{
    let mut r = copy_args(prefix);
    let ghost before = r@;
    r.push(copy_str(v.as_str()));
    proof {
        assert(r@.map_values(|s: String| s@) =~= before.map_values(|s: String| s@).push(v@));
    }
    r
}

/// The node of a group of entries.
fn group_node_of(
    name: &str,
    entries: &Vec<TemplateEntry>,
    prefix: &Vec<String>,
    total: usize,
    ms: &Vec<usize>,
    depth: usize,
    parent_index: Option<usize>,
) -> (r: TemplateNode)
    requires
        forall|j: int| 0 <= j < ms@.len() ==> #[trigger] ms@[j] < entries@.len(),
    ensures
        node_view(r, Seq::empty()) == group_node(
            name@,
            entries@,
            prefix@.map_values(|s: String| s@),
            total as int,
            ms@,
            depth,
            parent_index,
            Seq::empty(),
        ),
{
    let (d, u, dom) = summarize(entries, ms);
    let (span_type, sublabel) = match dom {
        Some(x) => (entries[ms[x]].span_type, copy_str(entries[ms[x]].sublabel.as_str())),
        None => {
            proof {
                reveal_strlit("Instantiation");
            }
            (SpanType::Template, copy_str("Instantiation"))
        },
    };
    let r = TemplateNode {
        identifier: build_wildcard_identifier(name, prefix, total),
        duration: d,
        count: u,
        depth,
        parent_index,
        span_type,
        sublabel,
    };
    proof {
        assert(node_view(r, Seq::empty()).children =~= Seq::<usize>::empty());
    }
    r
}

/// Lays out the tree of the instantiations of `name` whose arguments start
/// with `prefix` (see [`tree_nodes`]), appending its nodes to `nodes` and
/// their children lists to `kids`; returns the position of its top node.
pub fn build_template_tree(
    name: &str,
    entries: &Vec<TemplateEntry>,
    total: usize,
    prefix: &Vec<String>,
    visual_depth: usize,
    parent_index: Option<usize>,
    nodes: &mut Vec<TemplateNode>,
    kids: &mut Vec<Vec<usize>>,
) -> (r: usize)
    requires
        prefix@.len() <= total,
        old(nodes)@.len() == old(kids)@.len(),
    ensures
        final(nodes)@.len() == final(kids)@.len(),
        nodes_view(final(nodes)@, final(kids)@) == nodes_view(old(nodes)@, old(kids)@) + tree_nodes(
            name@,
            entries@,
            total as int,
            prefix@.map_values(|s: String| s@),
            visual_depth,
            parent_index,
            old(nodes)@.len() as int,
        ),
        r == old(nodes)@.len(),
    decreases total - prefix@.len(),
{
    let ghost pv = prefix@.map_values(|s: String| s@);
    let ghost on = nodes_view(nodes@, kids@);
    let base = nodes.len();
    let ms = matching_of(entries, name, total, prefix);
    if ms.len() == 1 {
        let e = &entries[ms[0]];
        let n = TemplateNode {
            identifier: concrete_identifier(name, &e.args),
            duration: e.duration,
            count: e.units.len(),
            depth: visual_depth,
            parent_index,
            span_type: e.span_type,
            sublabel: copy_str(e.sublabel.as_str()),
        };
        nodes.push(n);
        kids.push(Vec::new());
        proof {
            assert(nodes_view(nodes@, kids@) =~= on + seq![
                leaf_node(name@, entries@[ms@[0] as int], visual_depth, parent_index),
            ]);
        }
        return base;
    }
    if prefix.len() >= total {
        let n = group_node_of(name, entries, prefix, total, &ms, visual_depth, parent_index);
        nodes.push(n);
        kids.push(Vec::new());
        proof {
            assert(nodes_view(nodes@, kids@) =~= on + seq![
                group_node(name@, entries@, pv, total as int, ms@, visual_depth, parent_index, Seq::empty()),
            ]);
        }
        return base;
    }
    let pos = prefix.len();
    proof {
        assert(positions_ok(entries@, ms@, pos as int)) by {
            assert forall|j: int| 0 <= j < ms@.len() implies #[trigger] ms@[j] < entries@.len()
                && args_of(entries@[ms@[j] as int]).len() > pos by {
            }
        }
    }
    let vals = next_values_of(entries, &ms, pos);
    if vals.len() == 1 {
        let np = extend_prefix(prefix, &vals[0]);
        proof {
            assert(vals@.map_values(|s: String| s@)[0] == vals@[0]@);
        }
        return build_template_tree(name, entries, total, &np, visual_depth, parent_index, nodes, kids);
    }
    let order = value_order_of(entries, &ms, pos, &vals);
    let ghost ov = order@.map_values(|s: String| s@);
    let gn = group_node_of(name, entries, prefix, total, &ms, visual_depth, parent_index);
    let ghost gnv = node_view(gn, Seq::empty());
    nodes.push(gn);
    kids.push(Vec::new());
    let d1 = visual_depth.saturating_add(1);
    let ghost full = forest(name@, entries@, total as int, pv, ov, 0, d1, base as int, base + 1);
    let ghost full_roots = forest_roots(name@, entries@, total as int, pv, ov, 0, d1, base as int, base + 1);
    proof {
        assert(nodes_view(nodes@, kids@) =~= on + seq![gnv]);
    }
    let mut collected: Vec<usize> = Vec::new();
    let mut k: usize = 0;
    while k < order.len()
        invariant
            k <= order@.len(),
            pos == prefix@.len(),
            pos < total,
            pv == prefix@.map_values(|s: String| s@),
            ov == order@.map_values(|s: String| s@),
            nodes@.len() == kids@.len(),
            nodes@.len() > base,
            nodes_view(nodes@, kids@) + forest(name@, entries@, total as int, pv, ov, k as int, d1, base as int, nodes@.len() as int)
                == on + seq![gnv] + full,
            collected@ + forest_roots(name@, entries@, total as int, pv, ov, k as int, d1, base as int, nodes@.len() as int)
                == full_roots,
            full == forest(name@, entries@, total as int, pv, ov, 0, d1, base as int, base + 1),
            full_roots == forest_roots(name@, entries@, total as int, pv, ov, 0, d1, base as int, base + 1),
            nodes_view(nodes@, kids@)[base as int] == gnv,
            on.len() == base,
        decreases order@.len() - k,
    {
        let np = extend_prefix(prefix, &order[k]);
        let ghost start = nodes@.len() as int;
        let ghost before = nodes_view(nodes@, kids@);
        proof {
            assert(ov[k as int] == order@[k as int]@);
        }
        let c = build_template_tree(name, entries, total, &np, d1, Some(base), nodes, kids);
        proof {
            let t = tree_nodes(name@, entries@, total as int, pv.push(ov[k as int]), d1, Some(base), start);
            assert(nodes_view(nodes@, kids@) == before + t);
            assert(forest(name@, entries@, total as int, pv, ov, k as int, d1, base as int, start) == t + forest(
                name@,
                entries@,
                total as int,
                pv,
                ov,
                k + 1,
                d1,
                base as int,
                start + t.len(),
            ));
            assert(forest_roots(name@, entries@, total as int, pv, ov, k as int, d1, base as int, start) == seq![
                start as usize,
            ] + forest_roots(name@, entries@, total as int, pv, ov, k + 1, d1, base as int, start + t.len()));
            assert(nodes@.len() == start + t.len());
            assert(before + t + forest(name@, entries@, total as int, pv, ov, k + 1, d1, base as int, start + t.len())
                =~= before + (t + forest(name@, entries@, total as int, pv, ov, k + 1, d1, base as int, start + t.len())));
            assert(nodes_view(nodes@, kids@)[base as int] == before[base as int]);
        }
        let ghost cb = collected@;
        collected.push(c);
        proof {
            assert(collected@ =~= cb.push(c));
            assert(cb.push(c) + forest_roots(name@, entries@, total as int, pv, ov, k + 1, d1, base as int, nodes@.len() as int)
                =~= cb + (seq![c] + forest_roots(name@, entries@, total as int, pv, ov, k + 1, d1, base as int, nodes@.len() as int)));
        }
        k = k + 1;
    }
    let ghost before = nodes_view(nodes@, kids@);
    proof {
        assert(before =~= on + seq![gnv] + full);
        assert(collected@ =~= full_roots);
    }
    kids.set(base, collected);
    proof {
        let tn = tree_nodes(name@, entries@, total as int, pv, visual_depth, parent_index, base as int);
        assert(tn == seq![group_node(name@, entries@, pv, total as int, ms@, visual_depth, parent_index, full_roots)] + full);
        assert(nodes_view(nodes@, kids@) =~= before.update(base as int, group_node(name@, entries@, pv, total as int, ms@, visual_depth, parent_index, full_roots)));
        assert(nodes_view(nodes@, kids@) =~= on + tn);
    }
    base
}


/// The nodes `t`, laid out from `base`, point to parents before them (the
/// first one to `parent`) and to children after them and inside them.
pub open spec fn shaped(t: Seq<TreeNode>, base: int, parent: Option<usize>) -> bool {
    &&& t.len() >= 1
    &&& t[0].parent == parent
    &&& forall|i: int| 1 <= i < t.len() ==> ((#[trigger] t[i]).parent matches Some(q) && base <= q < base + i)
    &&& forall|i: int, c: int|
        0 <= i < t.len() && 0 <= c < t[i].children.len() ==> base + i < #[trigger] t[i].children[c] < base
            + t.len()
}

/// The nodes `f`, laid out from `start`, point to parents before them (or
/// to `pb`) and to children after them and inside them; `roots` are their
/// tops, in order.
pub open spec fn forest_shaped(f: Seq<TreeNode>, roots: Seq<usize>, start: int, pb: int) -> bool {
    &&& forall|i: int|
        0 <= i < f.len() ==> ((#[trigger] f[i]).parent matches Some(q) && (q == pb || start <= q < start + i))
    &&& forall|i: int, c: int|
        0 <= i < f.len() && 0 <= c < f[i].children.len() ==> start + i < #[trigger] f[i].children[c] < start
            + f.len()
    &&& forall|j: int| 0 <= j < roots.len() ==> start <= #[trigger] roots[j] < start + f.len()
}

proof fn lemma_tree_shape(
    name: Seq<char>,
    es: Seq<TemplateEntry>,
    total: int,
    p: Seq<Seq<char>>,
    depth: usize,
    parent: Option<usize>,
    base: int,
)
    requires
        base >= 0,
        base + tree_nodes(name, es, total, p, depth, parent, base).len() <= usize::MAX + 1,
    ensures
        shaped(tree_nodes(name, es, total, p, depth, parent, base), base, parent),
    decreases total - p.len(), 1int, 0int,
{
    let ms = matching(es, name, total, p, es.len() as int);
    if ms.len() == 1 {
    } else if p.len() >= total {
    } else {
        let vals = next_values(es, ms, p.len() as int, ms.len() as int);
        if vals.len() == 1 {
            lemma_tree_shape(name, es, total, p.push(vals[0]), depth, parent, base);
        } else {
            let order = value_order(es, ms, p.len() as int);
            let d1 = sat_add_usize(depth, 1);
            let f = forest(name, es, total, p, order, 0, d1, base, base + 1);
            let kids = forest_roots(name, es, total, p, order, 0, d1, base, base + 1);
            lemma_forest_shape(name, es, total, p, order, 0, d1, base, base + 1);
            let t = tree_nodes(name, es, total, p, depth, parent, base);
            assert(t == seq![group_node(name, es, p, total, ms, depth, parent, kids)] + f);
            assert(t.len() == 1 + f.len());
            assert forall|i: int| 1 <= i < t.len() implies ((#[trigger] t[i]).parent matches Some(q) && base <= q
                < base + i) by {
                assert(t[i] == f[i - 1]);
            }
            assert forall|i: int, c: int|
                0 <= i < t.len() && 0 <= c < t[i].children.len() implies base + i < #[trigger] t[i].children[c]
                < base + t.len() by {
                if i > 0 {
                    assert(t[i] == f[i - 1]);
                } else {
                    assert(t[0].children == kids);
                    assert(kids[c] == t[i].children[c]);
                }
            }
        }
    }
}

proof fn lemma_forest_shape(
    name: Seq<char>,
    es: Seq<TemplateEntry>,
    total: int,
    p: Seq<Seq<char>>,
    order: Seq<Seq<char>>,
    k: int,
    depth: usize,
    pb: int,
    start: int,
)
    requires
        0 <= pb < start,
        pb <= usize::MAX,
        start + forest(name, es, total, p, order, k, depth, pb, start).len() <= usize::MAX + 1,
    ensures
        forest_shaped(
            forest(name, es, total, p, order, k, depth, pb, start),
            forest_roots(name, es, total, p, order, k, depth, pb, start),
            start,
            pb,
        ),
    decreases total - p.len(), 0int, order.len() - k,
{
    if k < 0 || k >= order.len() || p.len() >= total {
    } else {
        let t = tree_nodes(name, es, total, p.push(order[k]), depth, Some(pb as usize), start);
        let rest = forest(name, es, total, p, order, k + 1, depth, pb, start + t.len());
        assert(forest(name, es, total, p, order, k, depth, pb, start) == t + rest);
        lemma_tree_shape(name, es, total, p.push(order[k]), depth, Some(pb as usize), start);
        lemma_forest_shape(name, es, total, p, order, k + 1, depth, pb, start + t.len());
        let rr = forest_roots(name, es, total, p, order, k + 1, depth, pb, start + t.len());
        let f = forest(name, es, total, p, order, k, depth, pb, start);
        let roots = forest_roots(name, es, total, p, order, k, depth, pb, start);
        assert(f == t + rest);
        assert(roots == seq![start as usize] + rr);
        assert forall|i: int| 0 <= i < f.len() implies ((#[trigger] f[i]).parent matches Some(q) && (q == pb
            || start <= q < start + i)) by {
            if i < t.len() {
                assert(f[i] == t[i]);
            } else {
                assert(f[i] == rest[i - t.len()]);
            }
        }
        assert forall|i: int, c: int|
            0 <= i < f.len() && 0 <= c < f[i].children.len() implies start + i < #[trigger] f[i].children[c]
            < start + f.len() by {
            if i < t.len() {
                assert(f[i] == t[i]);
            } else {
                assert(f[i] == rest[i - t.len()]);
            }
        }
        assert forall|j: int| 0 <= j < roots.len() implies start <= #[trigger] roots[j] < start + f.len() by {
            if j > 0 {
                assert(roots[j] == rr[j - 1]);
            }
        }
    }
}


// ---------------------------------------------------------------------------
// The trees of all template names
// ---------------------------------------------------------------------------

/// The distinct template names of the entries `es[..m]`, in order.
pub open spec fn base_names(es: Seq<TemplateEntry>, m: int) -> Seq<Seq<char>>
    decreases m,
{
    if m <= 0 {
        Seq::empty()
    } else {
        let prev = base_names(es, m - 1);
        if prev.contains(es[m - 1].name@) {
            prev
        } else {
            prev.push(es[m - 1].name@)
        }
    }
}

/// The positions of the entries of `name` among `es[..m]`.
pub open spec fn name_positions(es: Seq<TemplateEntry>, name: Seq<char>, m: int) -> Seq<usize>
    decreases m,
{
    if m <= 0 {
        Seq::empty()
    } else if es[m - 1].name@ == name {
        name_positions(es, name, m - 1).push((m - 1) as usize)
    } else {
        name_positions(es, name, m - 1)
    }
}

/// The distinct argument counts of the entries of `name` among `es[..m]`,
/// in order.
pub open spec fn name_arities(es: Seq<TemplateEntry>, name: Seq<char>, m: int) -> Seq<usize>
    decreases m,
{
    if m <= 0 {
        Seq::empty()
    } else {
        let prev = name_arities(es, name, m - 1);
        let l = args_of(es[m - 1]).len() as usize;
        if es[m - 1].name@ == name && !prev.contains(l) {
            prev.push(l)
        } else {
            prev
        }
    }
}

/// The positions of the entries of `name` with `total` arguments.
pub open spec fn arity_positions(es: Seq<TemplateEntry>, name: Seq<char>, total: int) -> Seq<usize> {
    matching(es, name, total, Seq::empty(), es.len() as int)
}

/// The order of the template names: longest summed duration first, then
/// first appearance.
pub open spec fn base_keys(es: Seq<TemplateEntry>) -> Seq<crate::sort::SortKey> {
    let names = base_names(es, es.len() as int);
    Seq::new(
        names.len(),
        |b: int|
            (
                (u64::MAX - entries_duration(
                    es,
                    name_positions(es, names[b], es.len() as int),
                    name_positions(es, names[b], es.len() as int).len() as int,
                )) as u128,
                0u128,
                b as usize,
            ),
    )
}

/// The template names in display order.
pub open spec fn base_order(es: Seq<TemplateEntry>) -> Seq<Seq<char>> {
    let names = base_names(es, es.len() as int);
    let sorted = crate::sort::sorted_of(base_keys(es));
    Seq::new(sorted.len(), |k: int| names[sorted[k].2 as int])
}

/// The order of the argument counts of `name`: longest summed duration
/// first, then first appearance.
pub open spec fn arity_keys(es: Seq<TemplateEntry>, name: Seq<char>) -> Seq<crate::sort::SortKey> {
    let ar = name_arities(es, name, es.len() as int);
    Seq::new(
        ar.len(),
        |c: int|
            (
                (u64::MAX - entries_duration(
                    es,
                    arity_positions(es, name, ar[c] as int),
                    arity_positions(es, name, ar[c] as int).len() as int,
                )) as u128,
                0u128,
                c as usize,
            ),
    )
}

/// The argument counts of `name` in display order.
pub open spec fn arity_order(es: Seq<TemplateEntry>, name: Seq<char>) -> Seq<usize> {
    let ar = name_arities(es, name, es.len() as int);
    let sorted = crate::sort::sorted_of(arity_keys(es, name));
    Seq::new(sorted.len(), |k: int| ar[sorted[k].2 as int])
}

/// The node of a template name instantiated with several argument counts.
pub open spec fn top_node(es: Seq<TemplateEntry>, name: Seq<char>, children: Seq<usize>) -> TreeNode {
    let ms = name_positions(es, name, es.len() as int);
    let d = dominant_at(es, ms, ms.len() as int);
    TreeNode {
        identifier: name,
        duration: entries_duration(es, ms, ms.len() as int),
        count: entries_units(es, ms, ms.len() as int),
        depth: 0,
        parent: None,
        span_type: if d >= 0 {
            es[ms[d] as int].span_type
        } else {
            SpanType::Template
        },
        sublabel: if d >= 0 {
            es[ms[d] as int].sublabel@
        } else {
            "Instantiation"@
        },
        children,
    }
}

/// The trees of the argument counts `order[k..]` of `name`, laid out from
/// `start` under the node at `top`.
pub open spec fn arity_forest(
    es: Seq<TemplateEntry>,
    name: Seq<char>,
    order: Seq<usize>,
    k: int,
    top: int,
    start: int,
) -> Seq<TreeNode>
    decreases order.len() - k,
{
    if k < 0 || k >= order.len() {
        Seq::empty()
    } else {
        let t = tree_nodes(name, es, order[k] as int, Seq::empty(), 1, Some(top as usize), start);
        t + arity_forest(es, name, order, k + 1, top, start + t.len())
    }
}

/// Where the trees of [`arity_forest`] start.
pub open spec fn arity_roots(
    es: Seq<TemplateEntry>,
    name: Seq<char>,
    order: Seq<usize>,
    k: int,
    top: int,
    start: int,
) -> Seq<usize>
    decreases order.len() - k,
{
    if k < 0 || k >= order.len() {
        Seq::empty()
    } else {
        let t = tree_nodes(name, es, order[k] as int, Seq::empty(), 1, Some(top as usize), start);
        seq![start as usize] + arity_roots(es, name, order, k + 1, top, start + t.len())
    }
}

/// The nodes of template `name`, laid out from `base`: the tree of its
/// only argument count, or a node for the name above the trees of its
/// argument counts, longest first.
pub open spec fn base_nodes(es: Seq<TemplateEntry>, name: Seq<char>, base: int) -> Seq<TreeNode> {
    let ar = name_arities(es, name, es.len() as int);
    if ar.len() == 1 {
        tree_nodes(name, es, ar[0] as int, Seq::empty(), 0, None, base)
    } else {
        let order = arity_order(es, name);
        seq![top_node(es, name, arity_roots(es, name, order, 0, base, base + 1))] + arity_forest(
            es,
            name,
            order,
            0,
            base,
            base + 1,
        )
    }
}

/// The nodes of the template names `order[k..]`, laid out from `start`.
pub open spec fn all_nodes(es: Seq<TemplateEntry>, order: Seq<Seq<char>>, k: int, start: int) -> Seq<TreeNode>
    decreases order.len() - k,
{
    if k < 0 || k >= order.len() {
        Seq::empty()
    } else {
        let b = base_nodes(es, order[k], start);
        b + all_nodes(es, order, k + 1, start + b.len())
    }
}

/// The nodes of all template names, in display order.
pub open spec fn template_nodes(es: Seq<TemplateEntry>) -> Seq<TreeNode> {
    all_nodes(es, base_order(es), 0, 0)
}


/// The distinct template names of the entries, in order.
fn base_names_of(es: &Vec<TemplateEntry>) -> (r: Vec<String>)
    ensures
        r@.map_values(|s: String| s@) == base_names(es@, es@.len() as int),
{
    let mut r: Vec<String> = Vec::new();
    let mut k: usize = 0;
    while k < es.len()
        invariant
            k <= es@.len(),
            r@.map_values(|s: String| s@) == base_names(es@, k as int),
        decreases es@.len() - k,
    {
        let n = &es[k].name;
        let ghost before = r@;
        match find_string(&r, n) {
            Some(j) => {
                proof {
                    assert(r@.map_values(|s: String| s@)[j as int] == n@);
                }
            },
            None => {
                r.push(copy_str(n.as_str()));
                proof {
                    assert(!base_names(es@, k as int).contains(n@)) by {
                        if base_names(es@, k as int).contains(n@) {
                            let j = choose|j: int| 0 <= j < before.len() && base_names(es@, k as int)[j] == n@;
                            assert(before[j]@ == n@);
                        }
                    }
                    assert(r@.map_values(|s: String| s@) =~= before.map_values(|s: String| s@).push(n@));
                }
            },
        }
        k = k + 1;
    }
    r
}

/// The positions of the entries of `name`.
fn name_positions_of(es: &Vec<TemplateEntry>, name: &str) -> (r: Vec<usize>)
    ensures
        r@ == name_positions(es@, name@, es@.len() as int),
        forall|j: int| 0 <= j < r@.len() ==> #[trigger] r@[j] < es@.len(),
{
    let mut r: Vec<usize> = Vec::new();
    let mut k: usize = 0;
    while k < es.len()
        invariant
            k <= es@.len(),
            r@ == name_positions(es@, name@, k as int),
            forall|j: int| 0 <= j < r@.len() ==> #[trigger] r@[j] < k,
        decreases es@.len() - k,
    {
        if crate::link::str_eq(es[k].name.as_str(), name) {
            r.push(k);
        }
        k = k + 1;
    }
    r
}

/// The distinct argument counts of the entries of `name`, in order.
fn name_arities_of(es: &Vec<TemplateEntry>, name: &str) -> (r: Vec<usize>)
    ensures
        r@ == name_arities(es@, name@, es@.len() as int),
{
    let mut r: Vec<usize> = Vec::new();
    let mut k: usize = 0;
    while k < es.len()
        invariant
            k <= es@.len(),
            r@ == name_arities(es@, name@, k as int),
        decreases es@.len() - k,
    {
        let l = es[k].args.len();
        proof {
            assert(args_of(es@[k as int]).len() == l);
        }
        if crate::link::str_eq(es[k].name.as_str(), name) && !crate::view::vec_contains(&r, l) {
            r.push(l);
        }
        k = k + 1;
    }
    r
}

/// Sorts `n` keys `(u64::MAX - d, 0, k)` and returns the tags in order.
fn order_by_duration(durs: &Vec<u64>) -> (r: Vec<usize>)
    ensures
        r@ == crate::sort::sorted_of(
            Seq::new(durs@.len(), |k: int| ((u64::MAX - durs@[k]) as u128, 0u128, k as usize)),
        ).map_values(|x: crate::sort::SortKey| x.2),
        forall|j: int| 0 <= j < r@.len() ==> #[trigger] r@[j] < durs@.len(),
        r@.len() == durs@.len(),
{
    let ghost want = Seq::new(durs@.len(), |k: int| ((u64::MAX - durs@[k]) as u128, 0u128, k as usize));
    let mut keys: Vec<crate::sort::SortKey> = Vec::new();
    let mut k: usize = 0;
    while k < durs.len()
        invariant
            k <= durs@.len(),
            want == Seq::new(durs@.len(), |k: int| ((u64::MAX - durs@[k]) as u128, 0u128, k as usize)),
            keys@ =~= want.take(k as int),
        decreases durs@.len() - k,
    {
        keys.push(((u64::MAX - durs[k]) as u128, 0u128, k));
        k = k + 1;
    }
    let ghost kv = keys@;
    proof {
        assert(kv =~= want);
        assert(crate::sort::distinct_tags(kv));
    }
    let sorted = crate::sort::sort_keys(keys);
    proof {
        crate::sort::lemma_sorted_of(kv, sorted@);
        crate::sort::lemma_sort_keeps_tags(kv, sorted@);
        assert forall|a: int| 0 <= a < sorted@.len() implies (#[trigger] sorted@[a]).2 < durs@.len() by {
            assert(kv.contains(sorted@[a]));
        }
    }
    let mut r: Vec<usize> = Vec::new();
    let mut j: usize = 0;
    while j < sorted.len()
        invariant
            j <= sorted@.len(),
            forall|a: int| 0 <= a < sorted@.len() ==> (#[trigger] sorted@[a]).2 < durs@.len(),
            r@ =~= sorted@.take(j as int).map_values(|x: crate::sort::SortKey| x.2),
        decreases sorted@.len() - j,
    {
        r.push(sorted[j].2);
        j = j + 1;
    }
    proof {
        assert(sorted@.take(sorted@.len() as int) =~= sorted@);
    }
    r
}

/// Lays out the nodes of template `name` (see [`base_nodes`]).
fn build_base(
    es: &Vec<TemplateEntry>,
    name: &String,
    nodes: &mut Vec<TemplateNode>,
    kids: &mut Vec<Vec<usize>>,
)
    requires
        old(nodes)@.len() == old(kids)@.len(),
    ensures
        final(nodes)@.len() == final(kids)@.len(),
        nodes_view(final(nodes)@, final(kids)@) == nodes_view(old(nodes)@, old(kids)@) + base_nodes(
            es@,
            name@,
            old(nodes)@.len() as int,
        ),
{
    let ghost on = nodes_view(nodes@, kids@);
    let ar = name_arities_of(es, name.as_str());
    let empty: Vec<String> = Vec::new();
    proof {
        assert(empty@.map_values(|s: String| s@) =~= Seq::<Seq<char>>::empty());
    }
    if ar.len() == 1 {
        build_template_tree(name.as_str(), es, ar[0], &empty, 0, None, nodes, kids);
        return;
    }
    let mut adurs: Vec<u64> = Vec::new();
    let mut c: usize = 0;
    while c < ar.len()
        invariant
            c <= ar@.len(),
            ar@ == name_arities(es@, name@, es@.len() as int),
            empty@.map_values(|s: String| s@) == Seq::<Seq<char>>::empty(),
            adurs@.len() == c,
            forall|j: int| 0 <= j < c ==> #[trigger] adurs@[j] == entries_duration(
                es@,
                arity_positions(es@, name@, ar@[j] as int),
                arity_positions(es@, name@, ar@[j] as int).len() as int,
            ),
        decreases ar@.len() - c,
    {
        let ms = matching_of(es, name.as_str(), ar[c], &empty);
        let (d, _u, _dom) = summarize(es, &ms);
        adurs.push(d);
        c = c + 1;
    }
    let ord = order_by_duration(&adurs);
    let ghost want = Seq::new(adurs@.len(), |k: int| ((u64::MAX - adurs@[k]) as u128, 0u128, k as usize));
    proof {
        assert(want =~= arity_keys(es@, name@));
    }
    let mut order: Vec<usize> = Vec::new();
    let mut j: usize = 0;
    while j < ord.len()
        invariant
            j <= ord@.len(),
            ord@.len() == ar@.len(),
            forall|a: int| 0 <= a < ord@.len() ==> #[trigger] ord@[a] < ar@.len(),
            order@ =~= Seq::new(j as nat, |a: int| ar@[ord@[a] as int]),
        decreases ord@.len() - j,
    {
        order.push(ar[ord[j]]);
        j = j + 1;
    }
    let ghost ov = order@;
    proof {
        let sorted = crate::sort::sorted_of(arity_keys(es@, name@));
        assert(ord@ == sorted.map_values(|x: crate::sort::SortKey| x.2));
        assert(ov =~= arity_order(es@, name@));
    }
    let ms = name_positions_of(es, name.as_str());
    let (d, u, dom) = summarize(es, &ms);
    let (span_type, sublabel) = match dom {
        Some(x) => (es[ms[x]].span_type, copy_str(es[ms[x]].sublabel.as_str())),
        None => {
            proof {
                reveal_strlit("Instantiation");
            }
            (SpanType::Template, copy_str("Instantiation"))
        },
    };
    let base = nodes.len();
    let top = TemplateNode {
        identifier: copy_str(name.as_str()),
        duration: d,
        count: u,
        depth: 0,
        parent_index: None,
        span_type,
        sublabel,
    };
    let ghost topv = node_view(top, Seq::empty());
    nodes.push(top);
    kids.push(Vec::new());
    let ghost full = arity_forest(es@, name@, ov, 0, base as int, base + 1);
    let ghost full_roots = arity_roots(es@, name@, ov, 0, base as int, base + 1);
    proof {
        assert(nodes_view(nodes@, kids@) =~= on + seq![topv]);
    }
    let mut collected: Vec<usize> = Vec::new();
    let mut k: usize = 0;
    while k < order.len()
        invariant
            k <= order@.len(),
            ov == order@,
            empty@.map_values(|s: String| s@) == Seq::<Seq<char>>::empty(),
            nodes@.len() == kids@.len(),
            nodes@.len() > base,
            on.len() == base,
            nodes_view(nodes@, kids@) + arity_forest(es@, name@, ov, k as int, base as int, nodes@.len() as int)
                == on + seq![topv] + full,
            collected@ + arity_roots(es@, name@, ov, k as int, base as int, nodes@.len() as int) == full_roots,
            full == arity_forest(es@, name@, ov, 0, base as int, base + 1),
            full_roots == arity_roots(es@, name@, ov, 0, base as int, base + 1),
            nodes_view(nodes@, kids@)[base as int] == topv,
        decreases order@.len() - k,
    {
        let ghost start = nodes@.len() as int;
        let ghost before = nodes_view(nodes@, kids@);
        let cidx = build_template_tree(name.as_str(), es, order[k], &empty, 1, Some(base), nodes, kids);
        proof {
            let t = tree_nodes(name@, es@, ov[k as int] as int, Seq::empty(), 1, Some(base), start);
            assert(nodes_view(nodes@, kids@) == before + t);
            assert(arity_forest(es@, name@, ov, k as int, base as int, start) == t + arity_forest(
                es@,
                name@,
                ov,
                k + 1,
                base as int,
                start + t.len(),
            ));
            assert(arity_roots(es@, name@, ov, k as int, base as int, start) == seq![start as usize]
                + arity_roots(es@, name@, ov, k + 1, base as int, start + t.len()));
            assert(before + t + arity_forest(es@, name@, ov, k + 1, base as int, start + t.len()) =~= before + (t
                + arity_forest(es@, name@, ov, k + 1, base as int, start + t.len())));
            assert(nodes_view(nodes@, kids@)[base as int] == before[base as int]);
        }
        let ghost cb = collected@;
        collected.push(cidx);
        proof {
            assert(cb.push(cidx) + arity_roots(es@, name@, ov, k + 1, base as int, nodes@.len() as int) =~= cb + (
            seq![cidx] + arity_roots(es@, name@, ov, k + 1, base as int, nodes@.len() as int)));
        }
        k = k + 1;
    }
    let ghost before = nodes_view(nodes@, kids@);
    proof {
        assert(before =~= on + seq![topv] + full);
        assert(collected@ =~= full_roots);
    }
    kids.set(base, collected);
    proof {
        let bn = base_nodes(es@, name@, base as int);
        assert(bn == seq![top_node(es@, name@, full_roots)] + full);
        assert(top_node(es@, name@, full_roots) == TreeNode { children: full_roots, ..topv });
        assert(nodes_view(nodes@, kids@) =~= before.update(base as int, top_node(es@, name@, full_roots)));
        assert(nodes_view(nodes@, kids@) =~= on + bn);
    }
}


/// Nodes laid out from `start` that point to parents before them (or to
/// none) and to children after them and inside them.
pub open spec fn nodes_shaped(f: Seq<TreeNode>, start: int) -> bool {
    &&& forall|i: int|
        0 <= i < f.len() ==> ((#[trigger] f[i]).parent matches Some(q) ==> start <= q < start + i)
    &&& forall|i: int, c: int|
        0 <= i < f.len() && 0 <= c < f[i].children.len() ==> start + i < #[trigger] f[i].children[c] < start
            + f.len()
}

proof fn lemma_arity_shape(
    es: Seq<TemplateEntry>,
    name: Seq<char>,
    order: Seq<usize>,
    k: int,
    top: int,
    start: int,
)
    requires
        0 <= top < start,
        top <= usize::MAX,
        start + arity_forest(es, name, order, k, top, start).len() <= usize::MAX + 1,
    ensures
        forest_shaped(arity_forest(es, name, order, k, top, start), arity_roots(es, name, order, k, top, start), start, top),
    decreases order.len() - k,
{
    if 0 <= k < order.len() {
        let t = tree_nodes(name, es, order[k] as int, Seq::empty(), 1, Some(top as usize), start);
        let rest = arity_forest(es, name, order, k + 1, top, start + t.len());
        let rr = arity_roots(es, name, order, k + 1, top, start + t.len());
        let f = arity_forest(es, name, order, k, top, start);
        let roots = arity_roots(es, name, order, k, top, start);
        assert(f == t + rest);
        assert(roots == seq![start as usize] + rr);
        lemma_tree_shape(name, es, order[k] as int, Seq::empty(), 1, Some(top as usize), start);
        lemma_arity_shape(es, name, order, k + 1, top, start + t.len());
        assert forall|i: int| 0 <= i < f.len() implies ((#[trigger] f[i]).parent matches Some(q) && (q == top
            || start <= q < start + i)) by {
            if i < t.len() {
                assert(f[i] == t[i]);
            } else {
                assert(f[i] == rest[i - t.len()]);
            }
        }
        assert forall|i: int, c: int|
            0 <= i < f.len() && 0 <= c < f[i].children.len() implies start + i < #[trigger] f[i].children[c]
            < start + f.len() by {
            if i < t.len() {
                assert(f[i] == t[i]);
            } else {
                assert(f[i] == rest[i - t.len()]);
            }
        }
        assert forall|j: int| 0 <= j < roots.len() implies start <= #[trigger] roots[j] < start + f.len() by {
            if j > 0 {
                assert(roots[j] == rr[j - 1]);
            }
        }
    }
}

proof fn lemma_base_shape(es: Seq<TemplateEntry>, name: Seq<char>, base: int)
    requires
        base >= 0,
        base + base_nodes(es, name, base).len() <= usize::MAX + 1,
    ensures
        nodes_shaped(base_nodes(es, name, base), base),
        base_nodes(es, name, base).len() >= 1,
        base_nodes(es, name, base)[0].parent is None,
{
    let ar = name_arities(es, name, es.len() as int);
    if ar.len() == 1 {
        lemma_tree_shape(name, es, ar[0] as int, Seq::empty(), 0, None, base);
    } else {
        let order = arity_order(es, name);
        let f = arity_forest(es, name, order, 0, base, base + 1);
        let kids = arity_roots(es, name, order, 0, base, base + 1);
        let t = base_nodes(es, name, base);
        assert(t == seq![top_node(es, name, kids)] + f);
        lemma_arity_shape(es, name, order, 0, base, base + 1);
        assert forall|i: int| 0 <= i < t.len() implies ((#[trigger] t[i]).parent matches Some(q) ==> base <= q
            < base + i) by {
            if i > 0 {
                assert(t[i] == f[i - 1]);
            }
        }
        assert forall|i: int, c: int|
            0 <= i < t.len() && 0 <= c < t[i].children.len() implies base + i < #[trigger] t[i].children[c]
            < base + t.len() by {
            if i > 0 {
                assert(t[i] == f[i - 1]);
            } else {
                assert(t[0].children == kids);
                assert(kids[c] == t[i].children[c]);
            }
        }
    }
}

proof fn lemma_all_shape(es: Seq<TemplateEntry>, order: Seq<Seq<char>>, k: int, start: int)
    requires
        start >= 0,
        start + all_nodes(es, order, k, start).len() <= usize::MAX + 1,
    ensures
        nodes_shaped(all_nodes(es, order, k, start), start),
    decreases order.len() - k,
{
    if 0 <= k < order.len() {
        let b = base_nodes(es, order[k], start);
        let rest = all_nodes(es, order, k + 1, start + b.len());
        let f = all_nodes(es, order, k, start);
        assert(f == b + rest);
        lemma_base_shape(es, order[k], start);
        lemma_all_shape(es, order, k + 1, start + b.len());
        assert forall|i: int| 0 <= i < f.len() implies ((#[trigger] f[i]).parent matches Some(q) ==> start <= q
            < start + i) by {
            if i < b.len() {
                assert(f[i] == b[i]);
            } else {
                assert(f[i] == rest[i - b.len()]);
            }
        }
        assert forall|i: int, c: int|
            0 <= i < f.len() && 0 <= c < f[i].children.len() implies start + i < #[trigger] f[i].children[c]
            < start + f.len() by {
            if i < b.len() {
                assert(f[i] == b[i]);
            } else {
                assert(f[i] == rest[i - b.len()]);
            }
        }
    }
}


// ---------------------------------------------------------------------------
// Aggregation
// ---------------------------------------------------------------------------

/// The root of the chain of parents from `k` in `lay`.
pub open spec fn root_in(lay: Seq<(Option<usize>, u64)>, k: int) -> int
    decreases k,
{
    if k < 0 || k >= lay.len() {
        k
    } else {
        match lay[k].0 {
            Some(p) => if p < k {
                root_in(lay, p as int)
            } else {
                k
            },
            None => k,
        }
    }
}

proof fn lemma_root_push(lay: Seq<(Option<usize>, u64)>, x: (Option<usize>, u64), k: int)
    requires
        0 <= k < lay.len(),
    ensures
        root_in(lay.push(x), k) == root_in(lay, k),
    decreases k,
{
    let l1 = lay.push(x);
    assert(l1[k] == lay[k]);
    match lay[k].0 {
        Some(p) => {
            if p < k {
                lemma_root_push(lay, x, p as int);
            }
        },
        None => {},
    }
}

/// `out[k]` is the span of `nodes[k]`, placed after its earlier siblings
/// and pointing to the root of its chain of parents.
pub open spec fn template_span(out: Seq<Span>, counts: Seq<usize>, nodes: Seq<TreeNode>, k: int) -> bool {
    let nd = nodes[k];
    &&& out[k].type_ == nd.span_type
    &&& out[k].identifier@ == nd.identifier
    &&& out[k].label@ == nd.identifier
    &&& opt_chars(out[k].sublabel) == Some(nd.sublabel)
    &&& out[k].duration == nd.duration
    &&& out[k].depth == nd.depth
    &&& out[k].parent_index == nd.parent
    &&& out[k].children_indices@ == nd.children
    &&& counts[k] == nd.count
    &&& packed_start(out, k)
    &&& out[k].root_span_index == root_in(layout_of(out), k)
}

/// What the placement loop has computed for the first `k` nodes.
pub open spec fn placed_upto(
    lay: Seq<(Option<usize>, u64)>,
    k: int,
    starts: Seq<u64>,
    offs: Seq<u64>,
    roots: Seq<usize>,
    root_off: u64,
) -> bool {
    &&& lay.len() == k
    &&& starts.len() == k
    &&& offs.len() == k
    &&& roots.len() == k
    &&& root_off == sibling_sum(lay, None)
    &&& forall|j: int|
        0 <= j < k ==> {
            &&& ((#[trigger] lay[j]).0 matches Some(q) ==> q < j)
            &&& starts[j] == match lay[j].0 {
                None => sibling_sum(lay.take(j), None),
                Some(q) => sat_add(starts[q as int], sibling_sum(lay.take(j), Some(q))),
            }
            &&& offs[j] == sibling_sum(lay, Some(j as usize))
            &&& roots[j] == root_in(lay, j)
        }
}

proof fn lemma_placed_push(
    lay: Seq<(Option<usize>, u64)>,
    k: int,
    s0: Seq<u64>,
    o0: Seq<u64>,
    r0: Seq<usize>,
    ro0: u64,
    x: (Option<usize>, u64),
    s1: Seq<u64>,
    o1: Seq<u64>,
    r1: Seq<usize>,
    ro1: u64,
)
    requires
        0 <= k < usize::MAX,
        placed_upto(lay, k, s0, o0, r0, ro0),
        x.0 matches Some(q) ==> q < k,
        s1.len() == k + 1,
        o1.len() == k + 1,
        r1.len() == k + 1,
        forall|j: int| 0 <= j < k ==> s1[j] == s0[j],
        forall|j: int| 0 <= j < k && x.0 != Some(j as usize) ==> o1[j] == o0[j],
        forall|j: int| 0 <= j < k ==> r1[j] == r0[j],
        o1[k] == 0,
        match x.0 {
            None => s1[k] == ro0 && ro1 == sat_add(ro0, x.1) && r1[k] == k,
            Some(q) => s1[k] == sat_add(s0[q as int], o0[q as int]) && o1[q as int] == sat_add(
                o0[q as int],
                x.1,
            ) && ro1 == ro0 && r1[k] == r0[q as int],
        },
    ensures
        placed_upto(lay.push(x), k + 1, s1, o1, r1, ro1),
{
    let l1 = lay.push(x);
    lemma_sibling_push(lay, x, None);
    assert(l1.take(k) =~= lay);
    assert(forall|j: int| 0 <= j < lay.len() ==> ((#[trigger] lay[j]).0 matches Some(q) ==> q < j));
    lemma_no_children(lay, k);
    assert forall|j: int| 0 <= j < k + 1 implies {
        &&& ((#[trigger] l1[j]).0 matches Some(q) ==> q < j)
        &&& s1[j] == match l1[j].0 {
            None => sibling_sum(l1.take(j), None),
            Some(q) => sat_add(s1[q as int], sibling_sum(l1.take(j), Some(q))),
        }
        &&& o1[j] == sibling_sum(l1, Some(j as usize))
        &&& r1[j] == root_in(l1, j)
    } by {
        lemma_sibling_push(lay, x, Some(j as usize));
        if j < k {
            assert(l1[j] == lay[j]);
            assert(l1.take(j) =~= lay.take(j));
            lemma_root_push(lay, x, j);
            let e = lay[j];
            match e.0 {
                Some(q) => {
                    assert(s1[q as int] == s0[q as int]);
                },
                None => {},
            }
            if x.0 == Some(j as usize) {
                assert(o1[j] == sat_add(o0[j], x.1));
            } else {
                assert(o1[j] == o0[j]);
            }
        } else {
            assert(l1[j] == x);
            match x.0 {
                Some(q) => {
                    let e = lay[q as int];
                    lemma_root_push(lay, x, q as int);
                    assert(o0[q as int] == sibling_sum(lay, Some(q)));
                },
                None => {},
            }
        }
    }
}

/// Aggregates the template and class instantiations of all units.
///
/// The root instantiations (those not inside another template or class)
/// are summed per template name and arguments (see [`template_entries`]).
/// Each template name gives a tree (see [`base_nodes`]); the names come
/// longest summed duration first. The spans of a parent follow each other
/// from its start, and the roots from 0. The counts are the numbers of
/// distinct units.
pub fn aggregate_templates(raw_spans: &[Span]) -> (r: (Vec<Span>, Vec<usize>))
    requires
        parents_in_range(raw_spans@),
    ensures
        exists|es: Seq<TemplateEntry>|
            entries_upto(raw_spans@, raw_spans@.len() as int, es) && r.0@.len() == template_nodes(es).len()
                && r.1@.len() == r.0@.len() && forall|k: int|
                0 <= k < r.0@.len() ==> template_span(r.0@, r.1@, template_nodes(es), k),
        crate::view::parents_before(r.0@),
        crate::view::children_after(r.0@),
{
    let es = template_entries(raw_spans);
    let names = base_names_of(&es);
    let ghost nv = base_names(es@, es@.len() as int);
    let mut durs: Vec<u64> = Vec::new();
    let mut b: usize = 0;
    while b < names.len()
        invariant
            b <= names@.len(),
            names@.map_values(|s: String| s@) == nv,
            durs@.len() == b,
            forall|j: int| 0 <= j < b ==> #[trigger] durs@[j] == entries_duration(
                es@,
                name_positions(es@, nv[j], es@.len() as int),
                name_positions(es@, nv[j], es@.len() as int).len() as int,
            ),
        decreases names@.len() - b,
    {
        let ms = name_positions_of(&es, names[b].as_str());
        let (d, _u, _dom) = summarize(&es, &ms);
        proof {
            assert(names@[b as int]@ == nv[b as int]);
        }
        durs.push(d);
        b = b + 1;
    }
    let ord = order_by_duration(&durs);
    let ghost bo = base_order(es@);
    proof {
        let want = Seq::new(durs@.len(), |k: int| ((u64::MAX - durs@[k]) as u128, 0u128, k as usize));
        assert(want =~= base_keys(es@));
        assert forall|j: int| 0 <= j < ord@.len() implies #[trigger] names@[ord@[j] as int]@ == bo[j] by {
            assert(names@.map_values(|s: String| s@)[ord@[j] as int] == names@[ord@[j] as int]@);
        }
    }
    let mut nodes: Vec<TemplateNode> = Vec::new();
    let mut kids: Vec<Vec<usize>> = Vec::new();
    let ghost full = all_nodes(es@, bo, 0, 0);
    proof {
        assert(nodes_view(nodes@, kids@) =~= Seq::<TreeNode>::empty());
    }
    let mut j: usize = 0;
    while j < ord.len()
        invariant
            j <= ord@.len(),
            ord@.len() == bo.len(),
            forall|a: int| 0 <= a < ord@.len() ==> #[trigger] ord@[a] < names@.len(),
            forall|a: int| 0 <= a < ord@.len() ==> #[trigger] names@[ord@[a] as int]@ == bo[a],
            nodes@.len() == kids@.len(),
            nodes_view(nodes@, kids@) + all_nodes(es@, bo, j as int, nodes@.len() as int) == full,
            full == all_nodes(es@, bo, 0, 0),
        decreases ord@.len() - j,
    {
        let ghost start = nodes@.len() as int;
        let ghost before = nodes_view(nodes@, kids@);
        let name = &names[ord[j]];
        build_base(&es, name, &mut nodes, &mut kids);
        proof {
            let bn = base_nodes(es@, bo[j as int], start);
            assert(name@ == bo[j as int]);
            assert(all_nodes(es@, bo, j as int, start) == bn + all_nodes(es@, bo, j + 1, start + bn.len()));
            assert(before + bn + all_nodes(es@, bo, j + 1, start + bn.len()) =~= before + (bn + all_nodes(
                es@,
                bo,
                j + 1,
                start + bn.len(),
            )));
        }
        j = j + 1;
    }
    let ghost tn = nodes_view(nodes@, kids@);
    let n = nodes.len();
    proof {
        assert(tn =~= full);
        assert(full == template_nodes(es@));
        assert(full.len() == n);
        lemma_all_shape(es@, bo, 0, 0);
    }
    let mut starts: Vec<u64> = Vec::new();
    let mut offs: Vec<u64> = Vec::new();
    let mut roots: Vec<usize> = Vec::new();
    let mut root_off: u64 = 0;
    let ghost mut lay: Seq<(Option<usize>, u64)> = Seq::empty();
    let mut k: usize = 0;
    while k < n
        invariant
            k <= n,
            n == nodes@.len(),
            n == kids@.len(),
            tn == nodes_view(nodes@, kids@),
            nodes_shaped(tn, 0),
            placed_upto(lay, k as int, starts@, offs@, roots@, root_off),
            forall|a: int| 0 <= a < k ==> #[trigger] lay[a] == (tn[a].parent, tn[a].duration),
        decreases n - k,
    {
        let nd = &nodes[k];
        let d = nd.duration;
        let ghost s0 = starts@;
        let ghost o0 = offs@;
        let ghost r0 = roots@;
        let ghost ro0 = root_off;
        proof {
            assert(tn[k as int].parent == nd.parent_index);
            assert(tn[k as int].duration == d);
        }
        match nd.parent_index {
            None => {
                starts.push(root_off);
                root_off = root_off.saturating_add(d);
                roots.push(k);
            },
            Some(q) => {
                proof {
                    assert(q < k);
                }
                let st = starts[q].saturating_add(offs[q]);
                let o = offs[q];
                offs.set(q, o.saturating_add(d));
                starts.push(st);
                let rq = roots[q];
                roots.push(rq);
            },
        }
        offs.push(0);
        let ghost x = (nd.parent_index, d);
        proof {
            lemma_placed_push(lay, k as int, s0, o0, r0, ro0, x, starts@, offs@, roots@, root_off);
            lay = lay.push(x);
        }
        k = k + 1;
    }
    let mut out: Vec<Span> = Vec::new();
    let mut counts: Vec<usize> = Vec::new();
    let mut k: usize = 0;
    while k < n
        invariant
            k <= n,
            n == nodes@.len(),
            n == kids@.len(),
            tn == nodes_view(nodes@, kids@),
            placed_upto(lay, n as int, starts@, offs@, roots@, root_off),
            forall|a: int| 0 <= a < n ==> #[trigger] lay[a] == (tn[a].parent, tn[a].duration),
            out@.len() == k,
            counts@.len() == k,
            forall|a: int|
                0 <= a < k ==> {
                    let nd = tn[a];
                    &&& (#[trigger] out@[a]).type_ == nd.span_type
                    &&& out@[a].identifier@ == nd.identifier
                    &&& out@[a].label@ == nd.identifier
                    &&& opt_chars(out@[a].sublabel) == Some(nd.sublabel)
                    &&& out@[a].duration == nd.duration
                    &&& out@[a].depth == nd.depth
                    &&& out@[a].parent_index == nd.parent
                    &&& out@[a].children_indices@ == nd.children
                    &&& counts@[a] == nd.count
                    &&& out@[a].start_time == starts@[a]
                    &&& out@[a].root_span_index == roots@[a]
                },
        decreases n - k,
    {
        let nd = &nodes[k];
        let span = Span {
            type_: nd.span_type,
            identifier: copy_str(nd.identifier.as_str()),
            label: copy_str(nd.identifier.as_str()),
            sublabel: Some(copy_str(nd.sublabel.as_str())),
            start_time: starts[k],
            duration: nd.duration,
            parent_index: nd.parent_index,
            children_indices: kids[k].clone(),
            root_span_index: roots[k],
            depth: nd.depth,
        };
        out.push(span);
        counts.push(nd.count);
        k = k + 1;
    }
    proof {
        assert(layout_of(out@) =~= lay) by {
            assert forall|a: int| 0 <= a < n implies #[trigger] layout_of(out@)[a] == lay[a] by {
                assert(lay[a] == (tn[a].parent, tn[a].duration));
            }
        }
        assert forall|i: int| 0 <= i < n implies ((#[trigger] out@[i]).parent_index matches Some(p) ==> p < i) by {
            assert(out@[i].parent_index == tn[i].parent);
        }
        assert forall|i: int, c: int|
            0 <= i < n && 0 <= c < out@[i].children_indices@.len() implies i < (
            #[trigger] out@[i].children_indices@[c]) < n by {
            assert(out@[i].children_indices@ == tn[i].children);
        }
        assert forall|a: int| 0 <= a < n implies template_span(out@, counts@, template_nodes(es@), a) by {
            let e = lay[a];
            assert(out@[a].start_time == starts@[a]);
            match e.0 {
                Some(q) => {
                    assert(out@[q as int].start_time == starts@[q as int]);
                },
                None => {},
            }
        }
    }
    (out, counts)
}

} // verus!
