//! Reading a `.ninja_log` build log: when each output was built.
use vstd::prelude::*;
use crate::sort::{SortKey, distinct_tags, lemma_sort_keeps_tags, sort_keys, sorted_of, lemma_sorted_of};
use crate::paths::chars_eq;
use crate::text::{chars_of, chars_view, copy_range, split_chars, split_on, string_from};
use crate::view::UnitTrace;

verus! {

broadcast use vstd::seq_lib::group_seq_properties;

/// `s` cut at every newline (always at least one part).
pub open spec fn split_newlines(s: Seq<char>) -> Seq<Seq<char>> {
    split_on(s, '\n')
}

/// A line without the carriage return of a `\r\n` ending.
pub open spec fn strip_cr(l: Seq<char>) -> Seq<char> {
    if l.len() > 0 && l.last() == '\r' {
        l.drop_last()
    } else {
        l
    }
}

/// The lines of `s` (`str::lines`): the parts between newlines, each
/// without a `\r` before its newline; no empty last line after a final
/// newline.
pub open spec fn text_lines(s: Seq<char>) -> Seq<Seq<char>> {
    let parts = split_newlines(s);
    let n = parts.len() - 1;
    let ended = Seq::new(n as nat, |i: int| strip_cr(parts[i]));
    if parts[n].len() > 0 {
        ended.push(parts[n])
    } else {
        ended
    }
}

/// `line` cut at every tab.
pub open spec fn tab_fields(line: Seq<char>) -> Seq<Seq<char>> {
    split_on(line, '\t')
}

/// The value of the decimal digits `d`.
pub open spec fn digits_value(d: Seq<char>) -> int
    decreases d.len(),
{
    if d.len() == 0 {
        0
    } else {
        digits_value(d.drop_last()) * 10 + (d.last() as int - '0' as int)
    }
}

/// All characters are decimal digits.
pub open spec fn all_digits(d: Seq<char>) -> bool {
    forall|i: int| 0 <= i < d.len() ==> '0' <= #[trigger] d[i] <= '9'
}

/// The text of a number after its optional `+`.
pub open spec fn unsigned_digits(s: Seq<char>) -> Seq<char> {
    if s.len() > 0 && s[0] == '+' {
        s.drop_first()
    } else {
        s
    }
}

/// `u64::from_str`: an optional `+`, then at least one digit, of a value
/// that fits in 64 bits.
pub open spec fn parse_u64_spec(s: Seq<char>) -> Option<u64> {
    let d = unsigned_digits(s);
    if d.len() > 0 && all_digits(d) && digits_value(d) <= u64::MAX {
        Some(digits_value(d) as u64)
    } else {
        None
    }
}

/// The record of a log line: start, end, and the output it built (the
/// fourth tab-separated field); `None` when a time does not parse or the
/// output is missing.
pub open spec fn line_record(line: Seq<char>) -> Option<(u64, u64, Seq<char>)> {
    let f = tab_fields(line);
    match (parse_u64_spec(f[0]), if f.len() > 1 {
        parse_u64_spec(f[1])
    } else {
        None
    }) {
        (Some(s), Some(e)) => if f.len() > 3 {
            Some((s, e, f[3]))
        } else {
            None
        },
        _ => None,
    }
}

/// A line without a record: empty or a comment.
pub open spec fn skipped_line(line: Seq<char>) -> bool {
    line.len() == 0 || line[0] == '#'
}

/// The records of `lines[1..k]`, in order; `None` when one of them is
/// malformed.
pub open spec fn log_records(lines: Seq<Seq<char>>, k: int) -> Option<Seq<(u64, u64, Seq<char>)>>
    decreases k,
{
    if k <= 1 {
        Some(Seq::empty())
    } else {
        match log_records(lines, k - 1) {
            None => None,
            Some(recs) => if skipped_line(lines[k - 1]) {
                Some(recs)
            } else {
                match line_record(lines[k - 1]) {
                    Some(r) => Some(recs.push(r)),
                    None => None,
                }
            },
        }
    }
}

/// Position of the record of output `id` among `recs`.
pub open spec fn record_position(recs: Seq<(u64, u64, Seq<char>)>, id: Seq<char>) -> Option<int>
    decreases recs.len(),
{
    if recs.len() == 0 {
        None
    } else if recs.last().2 == id {
        Some(recs.len() - 1)
    } else {
        record_position(recs.drop_last(), id)
    }
}

/// One record per output, the latest one, at the place its output first
/// appeared.
pub open spec fn latest_records(recs: Seq<(u64, u64, Seq<char>)>) -> Seq<(u64, u64, Seq<char>)>
    decreases recs.len(),
{
    if recs.len() == 0 {
        Seq::empty()
    } else {
        let prev = latest_records(recs.drop_last());
        let r = recs.last();
        match record_position(prev, r.2) {
            Some(p) => prev.update(p, r),
            None => prev.push(r),
        }
    }
}

/// Records ordered by start (then by place).
pub open spec fn by_start(recs: Seq<(u64, u64, Seq<char>)>) -> Seq<(u64, u64, Seq<char>)> {
    let keys = Seq::new(recs.len(), |i: int| (recs[i].0 as u128, 0u128, i as usize));
    let sorted = sorted_of(keys);
    Seq::new(sorted.len(), |k: int| recs[sorted[k].2 as int])
}

/// The header every ninja log starts with.
pub open spec fn ninja_header() -> Seq<char> {
    "# ninja log v"@
}

/// The records of a ninja log: `None` without the header line or with a
/// malformed record line; otherwise the latest record of each output,
/// ordered by start time.
pub open spec fn ninja_records(content: Seq<char>) -> Option<Seq<(u64, u64, Seq<char>)>> {
    let lines = text_lines(content);
    if lines.len() == 0 || !(lines[0].len() >= ninja_header().len() && lines[0].take(
        ninja_header().len() as int,
    ) == ninja_header()) {
        None
    } else {
        match log_records(lines, lines.len() as int) {
            None => None,
            Some(recs) => Some(by_start(latest_records(recs))),
        }
    }
}

/// A build record as a tuple.
pub open spec fn trace_view(t: UnitTrace) -> (u64, u64, Seq<char>) {
    (t.start_ms, t.end_ms, t.identifier@)
}


/// The view of a list of records.
pub open spec fn records_view(v: Seq<(u64, u64, Vec<char>)>) -> Seq<(u64, u64, Seq<char>)> {
    Seq::new(v.len(), |i: int| (v[i].0, v[i].1, v[i].2@))
}

/// The lines of `cs`, as [`text_lines`] reads them.
pub fn text_lines_of(cs: &Vec<char>) -> (r: Vec<Vec<char>>)
    ensures
        chars_view(r@) == text_lines(cs@),
{
    let parts = split_chars(cs, '\n');
    let ghost pv = chars_view(parts@);
    let n = parts.len() - 1;
    let mut r: Vec<Vec<char>> = Vec::new();
    let mut i: usize = 0;
    while i < n
        invariant
            i <= n,
            n + 1 == parts@.len(),
            pv == chars_view(parts@),
            pv == split_newlines(cs@),
            r@.len() == i,
            forall|k: int| 0 <= k < i ==> #[trigger] r@[k]@ == strip_cr(pv[k]),
        decreases n - i,
    {
        let p = &parts[i];
        proof {
            assert(p@ == pv[i as int]);
        }
        let l = if p.len() > 0 && p[p.len() - 1] == '\r' {
            copy_range(p, 0, p.len() - 1)
        } else {
            copy_range(p, 0, p.len())
        };
        proof {
            assert(p@.subrange(0, p@.len() as int) =~= p@);
            if p@.len() > 0 {
                assert(p@.subrange(0, p@.len() - 1) =~= p@.drop_last());
            }
        }
        r.push(l);
        i = i + 1;
    }
    let ghost ended = Seq::new(n as nat, |k: int| strip_cr(pv[k]));
    proof {
        assert(chars_view(r@) =~= ended);
    }
    if parts[n].len() > 0 {
        let last = copy_range(&parts[n], 0, parts[n].len());
        proof {
            assert(parts@[n as int]@ == pv[n as int]);
            assert(last@ =~= pv[n as int]);
        }
        r.push(last);
        proof {
            assert(chars_view(r@) =~= ended.push(pv[n as int]));
        }
    } else {
        proof {
            assert(parts@[n as int]@ == pv[n as int]);
        }
    }
    r
}

proof fn lemma_digits_nonneg(d: Seq<char>)
    requires
        all_digits(d),
    ensures
        digits_value(d) >= 0,
    decreases d.len(),
{
    if d.len() > 0 {
        assert(d.drop_last().len() < d.len());
        assert(all_digits(d.drop_last())) by {
            assert forall|i: int| 0 <= i < d.drop_last().len() implies '0' <= #[trigger] d.drop_last()[i] <= '9' by {
                assert(d.drop_last()[i] == d[i]);
            }
        }
        lemma_digits_nonneg(d.drop_last());
        assert('0' <= d[d.len() - 1] <= '9');
    }
}

/// The value of a prefix of digits is at most the value of all of them.
proof fn lemma_digits_prefix(d: Seq<char>, j: int)
    requires
        all_digits(d),
        0 <= j <= d.len(),
    ensures
        digits_value(d.take(j)) <= digits_value(d),
    decreases d.len(),
{
    if j == d.len() {
        assert(d.take(j) =~= d);
    } else {
        let e = d.drop_last();
        assert(all_digits(e)) by {
            assert forall|i: int| 0 <= i < e.len() implies '0' <= #[trigger] e[i] <= '9' by {
                assert(e[i] == d[i]);
            }
        }
        assert(e.take(j) =~= d.take(j));
        lemma_digits_prefix(e, j);
        lemma_digits_nonneg(e);
        assert('0' <= d[d.len() - 1] <= '9');
    }
}

/// Parses a `u64` the way `str::parse` does.
pub fn parse_u64(s: &Vec<char>) -> (r: Option<u64>)
    ensures
        r == parse_u64_spec(s@),
{
    let start: usize = if s.len() > 0 && s[0] == '+' {
        1
    } else {
        0
    };
    let ghost d = unsigned_digits(s@);
    proof {
        assert(d =~= s@.skip(start as int));
    }
    if start == s.len() {
        return None;
    }
    let mut v: u64 = 0;
    let mut j: usize = start;
    while j < s.len()
        invariant
            start <= j <= s@.len(),
            start < s@.len(),
            d == s@.skip(start as int),
            d == unsigned_digits(s@),
            all_digits(d.take(j - start)),
            v == digits_value(d.take(j - start)),
        decreases s@.len() - j,
    {
        let c = s[j];
        let ghost k: int = j - start;
        proof {
            assert(d[k] == c);
        }
        if !('0' <= c && c <= '9') {
            proof {
                lemma_not_all_digits(d, k);
                assert(parse_u64_spec(s@) is None);
            }
            return None;
        }
        let dig: u64 = (c as u32 - '0' as u32) as u64;
        proof {
            lemma_digits_step(d, k);
        }
        let m = v.checked_mul(10);
        let next = match m {
            Some(m) => m.checked_add(dig),
            None => None,
        };
        match next {
            Some(x) => {
                v = x;
            },
            None => {
                proof {
                    assert(v * 10 + dig > u64::MAX);
                    if all_digits(d) {
                        lemma_digits_prefix(d, k + 1);
                    }
                    assert(parse_u64_spec(s@) is None);
                }
                return None;
            },
        }
        j = j + 1;
    }
    proof {
        assert(d.take(d.len() as int) =~= d);
    }
    Some(v)
}

proof fn lemma_not_all_digits(d: Seq<char>, k: int)
    requires
        0 <= k < d.len(),
        !('0' <= d[k] <= '9'),
    ensures
        !all_digits(d),
{
}

proof fn lemma_digits_step(d: Seq<char>, k: int)
    requires
        0 <= k < d.len(),
        all_digits(d.take(k)),
        '0' <= d[k] <= '9',
    ensures
        all_digits(d.take(k + 1)),
        digits_value(d.take(k + 1)) == digits_value(d.take(k)) * 10 + (d[k] as int - '0' as int),
{
    let t = d.take(k + 1);
    assert(t.drop_last() =~= d.take(k));
    assert(t.last() == d[k]);
    assert forall|i: int| 0 <= i < k + 1 implies '0' <= #[trigger] t[i] <= '9' by {
        if i < k {
            assert(t[i] == d.take(k)[i]);
        }
    }
}

/// Parses one log line into a record.
fn parse_record(line: &Vec<char>) -> (r: Option<(u64, u64, Vec<char>)>)
    ensures
        match r {
            None => line_record(line@) is None,
            Some(t) => line_record(line@) == Some((t.0, t.1, t.2@)),
        },
{
    let f = split_chars(line, '\t');
    let ghost fv = chars_view(f@);
    proof {
        assert(fv == tab_fields(line@));
        assert(f@[0]@ == fv[0]);
    }
    let start = match parse_u64(&f[0]) {
        Some(x) => x,
        None => return None,
    };
    if f.len() < 2 {
        return None;
    }
    proof {
        assert(f@[1]@ == fv[1]);
    }
    let end = match parse_u64(&f[1]) {
        Some(x) => x,
        None => return None,
    };
    if f.len() < 4 {
        return None;
    }
    let id = copy_range(&f[3], 0, f[3].len());
    proof {
        assert(f@[3]@ == fv[3]);
        assert(id@ =~= fv[3]);
    }
    Some((start, end, id))
}

proof fn lemma_log_records_fail(lines: Seq<Seq<char>>, j: int, m: int)
    requires
        j <= m,
        log_records(lines, j) is None,
    ensures
        log_records(lines, m) is None,
    decreases m - j,
{
    if j < m {
        lemma_log_records_fail(lines, j, m - 1);
    }
}

/// The records of all lines after the first.
fn read_records(lines: &Vec<Vec<char>>) -> (r: Option<Vec<(u64, u64, Vec<char>)>>)
    requires
        lines@.len() >= 1,
    ensures
        match r {
            None => log_records(chars_view(lines@), lines@.len() as int) is None,
            Some(v) => log_records(chars_view(lines@), lines@.len() as int) == Some(
                records_view(v@),
            ),
        },
{
    let ghost lv = chars_view(lines@);
    let mut out: Vec<(u64, u64, Vec<char>)> = Vec::new();
    let mut k: usize = 1;
    proof {
        assert(records_view(out@) =~= Seq::<(u64, u64, Seq<char>)>::empty());
    }
    while k < lines.len()
        invariant
            1 <= k <= lines@.len(),
            lv == chars_view(lines@),
            log_records(lv, k as int) == Some(records_view(out@)),
        decreases lines@.len() - k,
    {
        let line = &lines[k];
        proof {
            assert(line@ == lv[k as int]);
        }
        if line.len() == 0 || line[0] == '#' {
            proof {
                assert(skipped_line(lv[k as int]));
            }
        } else {
            match parse_record(line) {
                None => {
                    proof {
                        lemma_log_records_fail(lv, k + 1, lines@.len() as int);
                    }
                    return None;
                },
                Some(rec) => {
                    let ghost old_out = out@;
                    out.push(rec);
                    proof {
                        assert(records_view(out@) =~= records_view(old_out).push(
                            (rec.0, rec.1, rec.2@),
                        ));
                    }
                },
            }
        }
        k = k + 1;
    }
    Some(out)
}

proof fn lemma_record_position(recs: Seq<(u64, u64, Seq<char>)>, id: Seq<char>)
    ensures
        match record_position(recs, id) {
            Some(p) => 0 <= p < recs.len() && recs[p].2 == id,
            None => true,
        },
    decreases recs.len(),
{
    if recs.len() > 0 {
        lemma_record_position(recs.drop_last(), id);
    }
}

/// Where the record of `id` stands in `recs`, searching from the back.
fn find_record(recs: &Vec<(u64, u64, Vec<char>)>, id: &Vec<char>) -> (r: Option<usize>)
    ensures
        match r {
            None => record_position(records_view(recs@), id@) is None,
            Some(p) => record_position(records_view(recs@), id@) == Some(p as int),
        },
{
    let ghost rv = records_view(recs@);
    let mut k: usize = recs.len();
    proof {
        assert(rv.take(k as int) =~= rv);
    }
    while k > 0
        invariant
            k <= recs@.len(),
            rv == records_view(recs@),
            record_position(rv.take(k as int), id@) == record_position(rv, id@),
        decreases k,
    {
        let ghost t = rv.take(k as int);
        proof {
            assert(t.drop_last() =~= rv.take(k - 1));
            assert(t.last() == rv[k - 1]);
        }
        if chars_eq(&recs[k - 1].2, id) {
            return Some(k - 1);
        }
        k = k - 1;
    }
    None
}

/// Copies a record.
fn copy_record(r: &(u64, u64, Vec<char>)) -> (c: (u64, u64, Vec<char>))
    ensures
        c.0 == r.0,
        c.1 == r.1,
        c.2@ == r.2@,
{
    (r.0, r.1, copy_range(&r.2, 0, r.2.len()))
}

/// Keeps the latest record of each output, at the place where the output
/// first appeared.
fn keep_latest(recs: &Vec<(u64, u64, Vec<char>)>) -> (out: Vec<(u64, u64, Vec<char>)>)
    ensures
        records_view(out@) == latest_records(records_view(recs@)),
        outputs_distinct(records_view(out@)),
{
    let ghost rv = records_view(recs@);
    let mut out: Vec<(u64, u64, Vec<char>)> = Vec::new();
    let mut i: usize = 0;
    proof {
        assert(rv.take(0) =~= Seq::<(u64, u64, Seq<char>)>::empty());
        assert(records_view(out@) =~= Seq::<(u64, u64, Seq<char>)>::empty());
    }
    while i < recs.len()
        invariant
            i <= recs@.len(),
            rv == records_view(recs@),
            records_view(out@) == latest_records(rv.take(i as int)),
        decreases recs@.len() - i,
    {
        let ghost t = rv.take(i + 1);
        proof {
            assert(t.drop_last() =~= rv.take(i as int));
            assert(t.last() == rv[i as int]);
        }
        let rec = copy_record(&recs[i]);
        let ghost old_out = out@;
        match find_record(&out, &recs[i].2) {
            Some(p) => {
                proof {
                    lemma_record_position(records_view(old_out), rv[i as int].2);
                }
                out.set(p, rec);
                proof {
                    assert(records_view(out@) =~= records_view(old_out).update(
                        p as int,
                        rv[i as int],
                    ));
                }
            },
            None => {
                out.push(rec);
                proof {
                    assert(records_view(out@) =~= records_view(old_out).push(rv[i as int]));
                }
            },
        }
        i = i + 1;
    }
    proof {
        assert(rv.take(recs@.len() as int) =~= rv);
        lemma_latest_distinct(rv);
    }
    out
}

/// Orders records by start time, keeping the order of equal starts.
fn order_by_start(recs: &Vec<(u64, u64, Vec<char>)>) -> (out: Vec<(u64, u64, Vec<char>)>)
    ensures
        records_view(out@) == by_start(records_view(recs@)),
        starts_ordered(records_view(out@)),
        outputs_distinct(records_view(recs@)) ==> outputs_distinct(records_view(out@)),
{
    let ghost rv = records_view(recs@);
    let ghost kv = Seq::new(rv.len(), |i: int| (rv[i].0 as u128, 0u128, i as usize));
    let mut keys: Vec<SortKey> = Vec::new();
    let mut i: usize = 0;
    while i < recs.len()
        invariant
            i <= recs@.len(),
            rv == records_view(recs@),
            kv.len() == rv.len(),
            keys@ =~= kv.take(i as int),
            kv == Seq::new(rv.len(), |i: int| (rv[i].0 as u128, 0u128, i as usize)),
        decreases recs@.len() - i,
    {
        keys.push((recs[i].0 as u128, 0u128, i));
        i = i + 1;
    }
    proof {
        assert(keys@ =~= kv);
    }
    let ghost keys_before = keys@;
    let sorted = sort_keys(keys);
    proof {
        lemma_sorted_of(keys_before, sorted@);
        assert(distinct_tags(keys_before));
        lemma_sort_keeps_tags(keys_before, sorted@);
        assert forall|a: int| 0 <= a < sorted@.len() implies (#[trigger] sorted@[a]).0 == rv[sorted@[a].2 as int].0 as u128
            && sorted@[a].2 < rv.len() by {
            assert(keys_before.contains(sorted@[a]));
            let p = choose|p: int| 0 <= p < keys_before.len() && keys_before[p] == sorted@[a];
            assert(keys_before[p] == sorted@[a]);
        }
    }
    let mut out: Vec<(u64, u64, Vec<char>)> = Vec::new();
    let mut k: usize = 0;
    while k < sorted.len()
        invariant
            k <= sorted@.len(),
            sorted@.len() == rv.len(),
            rv == records_view(recs@),
            forall|a: int| 0 <= a < sorted@.len() ==> #[trigger] sorted@[a].2 < rv.len(),
            records_view(out@) =~= Seq::new(k as nat, |a: int| rv[sorted@[a].2 as int]),
        decreases sorted@.len() - k,
    {
        let j = sorted[k].2;
        let rec = copy_record(&recs[j]);
        let ghost old_out = out@;
        out.push(rec);
        proof {
            assert(records_view(out@) =~= records_view(old_out).push(rv[j as int]));
        }
        k = k + 1;
    }
    proof {
        let ov = records_view(out@);
        assert forall|a: int, b: int| 0 <= a < b < ov.len() implies (#[trigger] ov[a]).0 <= (#[trigger] ov[b]).0 by {
            assert(crate::sort::keys_sorted(sorted@));
            assert(crate::sort::key_le(sorted@[a], sorted@[b]));
            assert(sorted@[a].0 == rv[sorted@[a].2 as int].0 as u128);
        }
        if outputs_distinct(rv) {
            assert forall|a: int, b: int| 0 <= a < ov.len() && 0 <= b < ov.len() && a != b implies (#[trigger] ov[a]).2
                != (#[trigger] ov[b]).2 by {
                assert(distinct_tags(sorted@));
                assert(sorted@[a].2 != sorted@[b].2);
            }
        }
    }
    out
}

/// Records ordered by start time.
pub open spec fn starts_ordered(recs: Seq<(u64, u64, Seq<char>)>) -> bool {
    forall|a: int, b: int| 0 <= a < b < recs.len() ==> (#[trigger] recs[a]).0 <= (#[trigger] recs[b]).0
}

/// No two records name the same output.
pub open spec fn outputs_distinct(recs: Seq<(u64, u64, Seq<char>)>) -> bool {
    forall|a: int, b: int| 0 <= a < recs.len() && 0 <= b < recs.len() && a != b ==> (#[trigger] recs[a]).2
        != (#[trigger] recs[b]).2
}

proof fn lemma_record_absent(recs: Seq<(u64, u64, Seq<char>)>, id: Seq<char>)
    requires
        record_position(recs, id) is None,
    ensures
        forall|j: int| 0 <= j < recs.len() ==> (#[trigger] recs[j]).2 != id,
    decreases recs.len(),
{
    if recs.len() > 0 {
        lemma_record_absent(recs.drop_last(), id);
        assert forall|j: int| 0 <= j < recs.len() implies (#[trigger] recs[j]).2 != id by {
            if j < recs.len() - 1 {
                assert(recs[j] == recs.drop_last()[j]);
            }
        }
    }
}

/// The latest records name each output once.
proof fn lemma_latest_distinct(recs: Seq<(u64, u64, Seq<char>)>)
    ensures
        outputs_distinct(latest_records(recs)),
    decreases recs.len(),
{
    if recs.len() > 0 {
        lemma_latest_distinct(recs.drop_last());
        let prev = latest_records(recs.drop_last());
        let r = recs.last();
        let cur = latest_records(recs);
        match record_position(prev, r.2) {
            Some(p) => {
                lemma_record_position(prev, r.2);
                assert forall|a: int, b: int| 0 <= a < cur.len() && 0 <= b < cur.len() && a != b implies (
                #[trigger] cur[a]).2 != (#[trigger] cur[b]).2 by {
                    assert(cur[a].2 == prev[a].2);
                    assert(cur[b].2 == prev[b].2);
                }
            },
            None => {
                lemma_record_absent(prev, r.2);
                assert forall|a: int, b: int| 0 <= a < cur.len() && 0 <= b < cur.len() && a != b implies (
                #[trigger] cur[a]).2 != (#[trigger] cur[b]).2 by {
                    if a < prev.len() {
                        assert(cur[a] == prev[a]);
                    }
                    if b < prev.len() {
                        assert(cur[b] == prev[b]);
                    }
                }
            },
        }
    }
}

/// Parses the text of a ninja log (`.ninja_log`).
///
/// `None` when the first line is not the `# ninja log v` header or when a
/// record line does not hold two times and an output; otherwise one build
/// record per output (its latest line), ordered by start time.
pub fn parse_ninja_log(content: &str) -> (r: Option<Vec<UnitTrace>>)
    ensures
        match r {
            None => ninja_records(content@) is None,
            Some(v) => ninja_records(content@) == Some(
                Seq::new(v@.len(), |i: int| trace_view(v@[i])),
            ),
        },
        r matches Some(v) ==> starts_ordered(Seq::new(v@.len(), |i: int| trace_view(v@[i])))
            && outputs_distinct(Seq::new(v@.len(), |i: int| trace_view(v@[i]))),
{
    let cs = chars_of(content);
    let lines = text_lines_of(&cs);
    let ghost lv = chars_view(lines@);
    if lines.len() == 0 {
        return None;
    }
    let header = chars_of("# ninja log v");
    proof {
        reveal_strlit("# ninja log v");
        assert(header@ == ninja_header());
        assert(lines@[0]@ == lv[0]);
    }
    if lines[0].len() < header.len() {
        return None;
    }
    let head = copy_range(&lines[0], 0, header.len());
    if !chars_eq(&head, &header) {
        return None;
    }
    let recs = match read_records(&lines) {
        Some(v) => v,
        None => return None,
    };
    let latest = keep_latest(&recs);
    let ordered = order_by_start(&latest);
    let mut out: Vec<UnitTrace> = Vec::new();
    let mut k: usize = 0;
    let ghost ov = records_view(ordered@);
    while k < ordered.len()
        invariant
            k <= ordered@.len(),
            ov == records_view(ordered@),
            out@.len() == k,
            forall|i: int| 0 <= i < k ==> #[trigger] trace_view(out@[i]) == ov[i],
        decreases ordered@.len() - k,
    {
        let id = string_from(&ordered[k].2);
        out.push(UnitTrace { identifier: id, start_ms: ordered[k].0, end_ms: ordered[k].1 });
        proof {
            assert(trace_view(out@[k as int]) == ov[k as int]);
        }
        k = k + 1;
    }
    proof {
        assert(Seq::new(out@.len(), |i: int| trace_view(out@[i])) =~= ov);
    }
    Some(out)
}

} // verus!
