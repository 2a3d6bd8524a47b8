//! The snapshot format: one line `<site> <count>` per record.
use crate::table::{lemma_map_of_dom, lemma_records_over_front, map_of, records_over, VisitTable};
use vstd::prelude::*;

verus! {

pub open spec fn is_digit(c: char) -> bool {
    '0' <= c && c <= '9'
}

/// The character of the decimal digit `d`.
pub open spec fn digit_char(d: nat) -> char {
    ((d + 48) as u8) as char
}

/// The value of a decimal digit character.
pub open spec fn digit_value(c: char) -> nat {
    (c as u32 - '0' as u32) as nat
}

/// The decimal notation of `n`, without leading zeros.
pub open spec fn decimal(n: nat) -> Seq<char>
    decreases n,
{
    if n < 10 {
        seq![digit_char(n)]
    } else {
        decimal(n / 10).push(digit_char(n % 10))
    }
}

/// The number that a string of decimal digits denotes.
pub open spec fn value_of(s: Seq<char>) -> nat
    decreases s.len(),
{
    if s.len() == 0 {
        0
    } else {
        value_of(s.drop_last()) * 10 + digit_value(s.last())
    }
}

pub open spec fn all_digits(s: Seq<char>) -> bool {
    forall|i: int| 0 <= i < s.len() ==> is_digit(#[trigger] s[i])
}

/// `s` without one leading `+`.
pub open spec fn unsigned_part(s: Seq<char>) -> Seq<char> {
    if s.len() > 0 && s[0] == '+' {
        s.skip(1)
    } else {
        s
    }
}

/// A count as the snapshot spells it: an optional `+` and one or more
/// decimal digits whose value fits in 64 bits.
pub open spec fn parse_count(s: Seq<char>) -> Option<u64> {
    let d = unsigned_part(s);
    if d.len() > 0 && all_digits(d) && value_of(d) <= u64::MAX {
        Some(value_of(d) as u64)
    } else {
        None
    }
}

/// `i` is the first position of `c` in `s`, or `s.len()` where `c` is absent.
pub open spec fn is_first(s: Seq<char>, c: char, i: int) -> bool {
    &&& 0 <= i <= s.len()
    &&& (i == s.len() || s[i] == c)
    &&& forall|j: int| 0 <= j < i ==> s[j] != c
}

pub open spec fn first_at(s: Seq<char>, c: char) -> int {
    choose|i: int| is_first(s, c, i)
}

/// A line split at its first space into a site and a count.
pub open spec fn parse_record(line: Seq<char>) -> Option<(Seq<char>, u64)> {
    let p = first_at(line, ' ');
    if is_first(line, ' ', p) && p < line.len() {
        match parse_count(line.skip(p + 1)) {
            Some(v) => Some((line.take(p), v)),
            None => None,
        }
    } else {
        None
    }
}

/// The line of `text` that its line break at `n` ends, without a carriage
/// return before that break.
pub open spec fn line_text(text: Seq<char>, n: int) -> Seq<char> {
    if 0 < n < text.len() && text[n - 1] == '\r' {
        text.take(n - 1)
    } else {
        text.take(n)
    }
}

pub open spec fn apply_line(acc: Map<Seq<char>, u64>, line: Seq<char>) -> Map<Seq<char>, u64> {
    match parse_record(line) {
        Some(r) => acc.insert(r.0, r.1),
        None => acc,
    }
}

/// `acc` with the well-formed lines of `text` applied in order.
pub open spec fn decode_from(text: Seq<char>, acc: Map<Seq<char>, u64>) -> Map<
    Seq<char>,
    u64,
>
    decreases text.len(),
{
    if text.len() == 0 {
        acc
    } else {
        let n = first_at(text, '\n');
        if is_first(text, '\n', n) {
            let next = apply_line(acc, line_text(text, n));
            if n < text.len() {
                decode_from(text.skip(n + 1), next)
            } else {
                next
            }
        } else {
            acc
        }
    }
}

/// The table that a snapshot describes: malformed lines are skipped, and a
/// later line for a site overrides an earlier one.
pub open spec fn decoded(text: Seq<char>) -> Map<Seq<char>, u64> {
    decode_from(text, Map::empty())
}

/// The snapshot line of one record.
pub open spec fn record_line(r: (Seq<char>, u64)) -> Seq<char> {
    r.0 + seq![' '] + decimal(r.1 as nat) + seq!['\n']
}

/// The snapshot of a list of records, one line each, in order.
pub open spec fn rendered(records: Seq<(Seq<char>, u64)>) -> Seq<char>
    decreases records.len(),
{
    if records.len() == 0 {
        Seq::empty()
    } else {
        rendered(records.drop_last()) + record_line(records.last())
    }
}

/// A site that the snapshot format can hold: no space and no line break.
pub open spec fn plain_key(k: Seq<char>) -> bool {
    forall|j: int| 0 <= j < k.len() ==> #[trigger] k[j] != ' ' && k[j] != '\n'
}

proof fn lemma_first_at(s: Seq<char>, c: char, i: int)
    requires
        is_first(s, c, i),
    ensures
        first_at(s, c) == i,
{
    let f = first_at(s, c);
    assert(is_first(s, c, f));
    if f < i {
        assert(s[f] == c);
    } else if i < f {
        assert(s[i] == c);
    }
}

proof fn lemma_decimal(n: nat)
    ensures
        decimal(n).len() > 0,
        all_digits(decimal(n)),
        value_of(decimal(n)) == n,
    decreases n,
{
    if n < 10 {
        assert(decimal(n).drop_last() =~= Seq::<char>::empty());
        assert(value_of(Seq::<char>::empty()) == 0);
        assert(digit_value(digit_char(n)) == n);
    } else {
        lemma_decimal(n / 10);
        let d = decimal(n);
        assert(d.drop_last() =~= decimal(n / 10));
        assert(d.last() == digit_char(n % 10));
        assert(value_of(d) == value_of(decimal(n / 10)) * 10 + digit_value(digit_char(n % 10)));
        assert(all_digits(d)) by {
            assert forall|i: int| 0 <= i < d.len() implies is_digit(#[trigger] d[i]) by {
                if i < d.len() - 1 {
                    assert(d[i] == decimal(n / 10)[i]);
                }
            }
        }
    }
}

/// The value of a string of digits is at least that of each of its prefixes.
proof fn lemma_value_of_prefix(s: Seq<char>, i: int)
    requires
        all_digits(s),
        0 <= i <= s.len(),
    ensures
        value_of(s.take(i)) <= value_of(s),
    decreases s.len(),
{
    if i < s.len() {
        let init = s.drop_last();
        assert(all_digits(init)) by {
            assert forall|j: int| 0 <= j < init.len() implies is_digit(#[trigger] init[j]) by {
                assert(init[j] == s[j]);
            }
        }
        lemma_value_of_prefix(init, i);
        assert(init.take(i) =~= s.take(i));
    } else {
        assert(s.take(i) =~= s);
    }
}

proof fn lemma_rendered_front(records: Seq<(Seq<char>, u64)>)
    requires
        records.len() > 0,
    ensures
        rendered(records) == record_line(records[0]) + rendered(records.skip(1)),
    decreases records.len(),
{
    if records.len() == 1 {
        assert(records.drop_last() =~= Seq::<(Seq<char>, u64)>::empty());
        assert(records.skip(1) =~= Seq::<(Seq<char>, u64)>::empty());
        assert(rendered(records.drop_last()) == Seq::<char>::empty());
        assert(rendered(records) =~= record_line(records[0]));
        assert(rendered(records.skip(1)) =~= Seq::<char>::empty());
        assert(record_line(records[0]) + Seq::<char>::empty() =~= record_line(records[0]));
    } else {
        lemma_rendered_front(records.drop_last());
        assert(records.skip(1).drop_last() =~= records.drop_last().skip(1));
        assert(records.skip(1).last() == records.last());
        assert(rendered(records) =~= record_line(records[0]) + rendered(records.skip(1)));
    }
}

/// Decoding one snapshot line applies its record.
proof fn lemma_decode_line(r: (Seq<char>, u64), rest: Seq<char>, acc: Map<Seq<char>, u64>)
    requires
        plain_key(r.0),
    ensures
        decode_from(record_line(r) + rest, acc) == decode_from(rest, acc.insert(r.0, r.1)),
{
    let k = r.0;
    let d = decimal(r.1 as nat);
    lemma_decimal(r.1 as nat);
    let line = k + seq![' '] + d;
    let text = record_line(r) + rest;
    let n = line.len() as int;
    assert forall|j: int| 0 <= j < n implies text[j] != '\n' by {
        if j < k.len() {
            assert(text[j] == k[j]);
        } else if j > k.len() {
            assert(text[j] == d[j - k.len() - 1]);
            assert(is_digit(d[j - k.len() - 1]));
        }
    }
    assert(text[n] == '\n');
    lemma_first_at(text, '\n', n);
    assert(text[n - 1] == d[d.len() - 1]);
    assert(is_digit(d[d.len() - 1]));
    assert(line_text(text, n) =~= line);
    assert forall|j: int| 0 <= j < k.len() implies line[j] != ' ' by {
        assert(line[j] == k[j]);
    }
    assert(line[k.len() as int] == ' ');
    lemma_first_at(line, ' ', k.len() as int);
    assert(line.take(k.len() as int) =~= k);
    assert(line.skip(k.len() as int + 1) =~= d);
    assert(is_digit(d[0]));
    assert(unsigned_part(d) == d);
    assert(parse_count(d) == Some(r.1));
    assert(text.skip(n + 1) =~= rest);
}

proof fn lemma_decode_rendered(records: Seq<(Seq<char>, u64)>, acc: Map<Seq<char>, u64>)
    requires
        forall|i: int| 0 <= i < records.len() ==> plain_key(#[trigger] records[i].0),
    ensures
        decode_from(rendered(records), acc) == records_over(acc, records),
    decreases records.len(),
{
    if records.len() == 0 {
        assert(rendered(records) =~= Seq::<char>::empty());
    } else {
        lemma_rendered_front(records);
        lemma_decode_line(records[0], rendered(records.skip(1)), acc);
        let tail = records.skip(1);
        assert forall|i: int| 0 <= i < tail.len() implies plain_key(#[trigger] tail[i].0) by {
            assert(tail[i] == records[i + 1]);
        }
        lemma_decode_rendered(tail, acc.insert(records[0].0, records[0].1));
        lemma_records_over_front(acc, records);
    }
}

/// Round trip: decoding the snapshot of a list of records gives back the
/// table that the records describe, where no site holds a space or a line
/// break. The order of the records matters only as the table's own does.
pub proof fn lemma_round_trip(records: Seq<(Seq<char>, u64)>)
    requires
        forall|i: int| 0 <= i < records.len() ==> plain_key(#[trigger] records[i].0),
    ensures
        decoded(rendered(records)) == map_of(records),
{
    lemma_decode_rendered(records, Map::empty());
}

/// Round trip on a table: a table whose sites hold no space and no line
/// break is read back from its snapshot as it was.
pub proof fn lemma_table_round_trip(t: VisitTable)
    requires
        forall|k: Seq<char>| #[trigger] t@.contains_key(k) ==> plain_key(k),
    ensures
        decoded(rendered(t.records())) == t@,
{
    let records = t.records();
    assert forall|i: int| 0 <= i < records.len() implies plain_key(#[trigger] records[i].0) by {
        lemma_map_of_dom(records, records[i].0);
        assert(map_of(records).contains_key(records[i].0));
        assert(t@.contains_key(records[i].0));
    }
    lemma_round_trip(records);
}

} // verus!
verus! {

/// The characters of `s`, one by one.
pub(crate) fn chars_of(s: &str) -> (v: Vec<char>)
    ensures
        v@ == s@,
{
    let mut v: Vec<char> = Vec::new();
    for c in it: s.chars()
        invariant
            v@ == it.seq().take(it.index() as int),
    {
        v.push(c);
    }
    v
}

/// Relies on `String::push`: the character is appended at the end.
pub assume_specification[ String::push ](s: &mut String, ch: char)
    ensures
        final(s)@ == old(s)@.push(ch),
;

/// The characters of `cs` from `from` to `to`, as a string.
fn string_of(cs: &Vec<char>, from: usize, to: usize) -> (r: String)
    requires
        from <= to <= cs@.len(),
    ensures
        r@ == cs@.subrange(from as int, to as int),
{
    let mut r = String::new();
    let mut i: usize = from;
    while i < to
        invariant
            from <= i <= to <= cs@.len(),
            r@ == cs@.subrange(from as int, i as int),
        decreases to - i,
    {
        r.push(cs[i]);
        i = i + 1;
        assert(r@ =~= cs@.subrange(from as int, i as int));
    }
    r
}

/// Reads the count that `cs` holds from `from` to `to`.
fn read_count(cs: &Vec<char>, from: usize, to: usize) -> (r: Option<u64>)
    requires
        from <= to <= cs@.len(),
    ensures
        r == parse_count(cs@.subrange(from as int, to as int)),
{
    let ghost s = cs@.subrange(from as int, to as int);
    let mut start: usize = from;
    if start < to && cs[start] == '+' {
        start = start + 1;
    }
    let ghost d = cs@.subrange(start as int, to as int);
    assert(unsigned_part(s) =~= d);
    if start == to {
        return None;
    }
    let mut v: u64 = 0;
    let mut i: usize = start;
    while i < to
        invariant
            from <= start <= i <= to <= cs@.len(),
            s == cs@.subrange(from as int, to as int),
            d == cs@.subrange(start as int, to as int),
            unsigned_part(s) == d,
            d.len() > 0,
            all_digits(d.take(i - start)),
            v == value_of(d.take(i - start)),
        decreases to - i,
    {
        let c = cs[i];
        if !('0' <= c && c <= '9') {
            assert(d[i - start] == c);
            return None;
        }
        let digit: u64 = (c as u32 - '0' as u32) as u64;
        let ghost prefix = d.take(i - start + 1);
        assert(prefix.drop_last() =~= d.take(i - start));
        assert(prefix.last() == c);
        if v > (u64::MAX - digit) / 10 {
            proof {
                assert(v * 10 + digit > u64::MAX) by (nonlinear_arith)
                    requires
                        v > (u64::MAX - digit) / 10,
                        digit <= 9,
                ;
                assert(value_of(prefix) == v * 10 + digit);
                if all_digits(d) {
                    lemma_value_of_prefix(d, i - start + 1);
                }
            }
            return None;
        }
        v = v * 10 + digit;
        i = i + 1;
        assert(all_digits(d.take(i - start))) by {
            assert forall|j: int| 0 <= j < prefix.len() implies is_digit(#[trigger] prefix[j]) by {
                if j < prefix.len() - 1 {
                    assert(prefix[j] == d.take(i - start - 1)[j]);
                }
            }
        }
    }
    assert(d.take(i - start) =~= d);
    Some(v)
}

/// Reads the record on the line that `cs` holds from `from` to `to`.
fn read_record(cs: &Vec<char>, from: usize, to: usize) -> (r: Option<(String, u64)>)
    requires
        from <= to <= cs@.len(),
    ensures
        parse_record(cs@.subrange(from as int, to as int)) == match r {
            Some(p) => Some((p.0@, p.1)),
            None => None::<(Seq<char>, u64)>,
        },
{
    let ghost line = cs@.subrange(from as int, to as int);
    let mut p: usize = from;
    while p < to && cs[p] != ' '
        invariant
            from <= p <= to <= cs@.len(),
            forall|j: int| from <= j < p ==> cs@[j] != ' ',
        decreases to - p,
    {
        p = p + 1;
    }
    proof {
        assert(is_first(line, ' ', p - from));
        lemma_first_at(line, ' ', p - from);
    }
    if p == to {
        return None;
    }
    assert(line.skip(p - from + 1) =~= cs@.subrange(p + 1, to as int));
    match read_count(cs, p + 1, to) {
        Some(v) => {
            let key = string_of(cs, from, p);
            assert(line.take(p - from) =~= key@);
            Some((key, v))
        },
        None => None,
    }
}

/// Reads a snapshot: each line `<site> <count>` sets the count of its site,
/// and a line that does not have that form is skipped.
pub fn read_visits(text: &str) -> (t: VisitTable)
    ensures
        t.wf(),
        t@ == decoded(text@),
{
    let cs = chars_of(text);
    let n = cs.len();
    let mut table = VisitTable::new();
    let mut pos: usize = 0;
    assert(cs@.skip(0) =~= cs@);
    while pos < n
        invariant
            n == cs@.len(),
            pos <= n,
            table.wf(),
            decode_from(cs@.skip(pos as int), table@) == decoded(cs@),
        decreases n - pos,
    {
        let mut e: usize = pos;
        while e < n && cs[e] != '\n'
            invariant
                pos <= e <= n,
                n == cs@.len(),
                forall|j: int| pos <= j < e ==> cs@[j] != '\n',
            decreases n - e,
        {
            e = e + 1;
        }
        let ghost rest = cs@.skip(pos as int);
        let ghost before = table@;
        proof {
            assert(is_first(rest, '\n', e - pos));
            lemma_first_at(rest, '\n', e - pos);
        }
        let end = if e < n && e > pos && cs[e - 1] == '\r' {
            e - 1
        } else {
            e
        };
        assert(line_text(rest, e - pos) =~= cs@.subrange(pos as int, end as int));
        match read_record(&cs, pos, end) {
            Some(r) => table.insert(r.0, r.1),
            None => {},
        }
        assert(table@ == apply_line(before, line_text(rest, e - pos)));
        if e < n {
            assert(rest.skip(e - pos + 1) =~= cs@.skip(e + 1));
            pos = e + 1;
        } else {
            pos = n;
            assert(cs@.skip(n as int) =~= Seq::<char>::empty());
        }
    }
    table
}

/// Appends the decimal notation of `n` to `out`.
pub(crate) fn push_decimal(out: &mut String, n: u64)
    ensures
        final(out)@ == old(out)@ + decimal(n as nat),
    decreases n,
{
    if n < 10 {
        out.push(((n as u8) + 48u8) as char);
        assert(final(out)@ =~= old(out)@ + decimal(n as nat));
    } else {
        push_decimal(out, n / 10);
        out.push((((n % 10) as u8) + 48u8) as char);
        assert(final(out)@ =~= old(out)@ + decimal(n as nat));
    }
}

/// Writes the snapshot of a table: one line `<site> <count>` per record.
pub fn write_visits(visits: &VisitTable) -> (s: String)
    ensures
        s@ == rendered(visits.records()),
{
    let mut out = String::new();
    let len = visits.len();
    let ghost records = visits.records();
    for i in 0..len
        invariant
            len == records.len(),
            records == visits.records(),
            out@ == rendered(records.take(i as int)),
    {
        let (key, count) = visits.entry(i);
        out.append(key.as_str());
        out.push(' ');
        push_decimal(&mut out, count);
        out.push('\n');
        assert(records.take(i + 1).drop_last() =~= records.take(i as int));
        assert(out@ =~= rendered(records.take(i + 1)));
    }
    assert(records.take(len as int) =~= records);
    out
}

} // verus!
