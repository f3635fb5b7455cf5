//! The store's flat-file form: one line `original_url:short_code:hit_count`
//! per entry, each ended by a newline.

use vstd::prelude::*;
use crate::store::{Entry, EntryModel, models, codes_unique, has_code, index_of_code, loaded};
use crate::text::{chars_of, string_of, last_index, lacks, find_last, slice_of, push_all,
    lemma_last_index_append};

verus! {

/// The decimal digit for a value below 10.
pub open spec fn digit_char(d: nat) -> char {
    (48 + d) as char
}

/// `c` is one of `0` to `9`.
pub open spec fn is_digit(c: char) -> bool {
    '0' <= c && c <= '9'
}

/// The value of a decimal digit.
pub open spec fn digit_value(c: char) -> nat {
    (c as u32 - 48) as nat
}

/// `n` in decimal, without leading zeros.
pub open spec fn decimal(n: nat) -> Seq<char>
    decreases n,
{
    if n < 10 {
        seq![digit_char(n)]
    } else {
        decimal(n / 10).push(digit_char(n % 10))
    }
}

/// One or more decimal digits.
pub open spec fn is_decimal(s: Seq<char>) -> bool {
    s.len() > 0 && forall|i: int| 0 <= i < s.len() ==> is_digit(#[trigger] s[i])
}

/// The number that a string of decimal digits writes.
pub open spec fn decimal_value(s: Seq<char>) -> nat
    decreases s.len(),
{
    if s.len() == 0 {
        0
    } else {
        decimal_value(s.drop_last()) * 10 + digit_value(s.last())
    }
}

proof fn lemma_digit(d: nat)
    requires
        d < 10,
    ensures
        is_digit(digit_char(d)),
        digit_value(digit_char(d)) == d,
{
}

proof fn lemma_decimal(n: nat)
    ensures
        is_decimal(decimal(n)),
        decimal_value(decimal(n)) == n,
    decreases n,
{
    if n < 10 {
        lemma_digit(n);
        assert(decimal(n).drop_last() =~= Seq::<char>::empty());
        assert(decimal_value(Seq::<char>::empty()) == 0);
        assert(decimal_value(decimal(n)) == decimal_value(decimal(n).drop_last()) * 10 + digit_value(decimal(n).last()));
    } else {
        lemma_decimal(n / 10);
        lemma_digit(n % 10);
        let p = decimal(n / 10);
        assert(decimal(n).drop_last() =~= p);
        assert(decimal(n).last() == digit_char(n % 10));
        assert(decimal_value(decimal(n)) == decimal_value(p) * 10 + digit_value(digit_char(n % 10)));
        assert(n == (n / 10) * 10 + n % 10);
    }
}

/// A decimal that fits in a `u64`, parsed.
pub fn parse_decimal(s: &Vec<char>) -> (r: Option<u64>)
    ensures
        r is Some <==> is_decimal(s@) && decimal_value(s@) <= u64::MAX,
        r matches Some(n) ==> n == decimal_value(s@),
{
    if s.len() == 0 {
        return None;
    }
    let mut v: u64 = 0;
    let mut i: usize = 0;
    while i < s.len()
        invariant
            i <= s@.len(),
            forall|j: int| 0 <= j < i ==> is_digit(#[trigger] s@[j]),
            v == decimal_value(s@.take(i as int)),
        decreases s@.len() - i,
    {
        let c = s[i];
        assert(s@.take(i + 1).drop_last() =~= s@.take(i as int));
        if !('0' <= c && c <= '9') {
            return None;
        }
        let d = (c as u32 - 48) as u64;
        if v > (u64::MAX - d) / 10 {
            proof {
                lemma_prefix_value(s@, i + 1);
            }
            return None;
        }
        v = v * 10 + d;
        i = i + 1;
    }
    assert(s@.take(i as int) =~= s@);
    Some(v)
}

/// A longer prefix of digits never writes a smaller number.
proof fn lemma_prefix_value(s: Seq<char>, i: int)
    requires
        0 <= i <= s.len(),
        forall|j: int| 0 <= j < i ==> is_digit(#[trigger] s[j]),
    ensures
        is_decimal(s) ==> decimal_value(s.take(i)) <= decimal_value(s),
    decreases s.len() - i,
{
    if i < s.len() && is_decimal(s) {
        lemma_prefix_value(s, i + 1);
        assert(s.take(i + 1).drop_last() =~= s.take(i));
    } else if i == s.len() {
        assert(s.take(i) =~= s);
    }
}

/// Appends `n` in decimal to `out`.
fn push_decimal(out: &mut Vec<char>, n: u64)
    ensures
        final(out)@ == old(out)@ + decimal(n as nat),
    decreases n,
{
    if n >= 10 {
        push_decimal(out, n / 10);
    }
    let d = (n % 10) as u8;
    out.push((48 + d) as char);
    assert(decimal(n as nat) == if n < 10 { seq![digit_char(n as nat)] } else { decimal((n / 10) as nat).push(digit_char((n % 10) as nat)) });
    assert(final(out)@ =~= old(out)@ + decimal(n as nat));
}

/// The line that stands for one entry, without its newline.
pub open spec fn line_of(e: EntryModel) -> Seq<char> {
    e.url + seq![':'] + e.code + seq![':'] + decimal(e.hits as nat)
}

/// The file's text for `es`: each entry's line followed by a newline.
pub open spec fn encoded(es: Seq<EntryModel>) -> Seq<char>
    decreases es.len(),
{
    if es.len() == 0 {
        Seq::empty()
    } else {
        encoded(es.drop_last()) + line_of(es.last()) + seq!['\n']
    }
}

/// The pieces of `s` between newlines; a text with `k` newlines has `k + 1`.
pub open spec fn lines(s: Seq<char>) -> Seq<Seq<char>>
    decreases s.len(),
{
    if s.len() == 0 {
        seq![Seq::empty()]
    } else {
        let p = lines(s.drop_last());
        if s.last() == '\n' {
            p.push(Seq::empty())
        } else {
            p.update(p.len() - 1, p.last().push(s.last()))
        }
    }
}

/// The entry that a line stands for: it is split at its last two colons into
/// URL, code and count; a line without two colons, or whose count is not a
/// decimal that fits in a `u64`, stands for none.
pub open spec fn line_entry(l: Seq<char>) -> Option<EntryModel> {
    let k = last_index(l, ':');
    let digits = l.subrange(k + 1, l.len() as int);
    let rest = l.take(k);
    let j = last_index(rest, ':');
    if k < 0 || j < 0 || !is_decimal(digits) || decimal_value(digits) > u64::MAX {
        None
    } else {
        Some(EntryModel { url: rest.take(j), code: rest.subrange(j + 1, k), hits: decimal_value(digits) as u64 })
    }
}

/// The entries of the lines that stand for one, in order.
pub open spec fn entries_of_lines(ls: Seq<Seq<char>>) -> Seq<EntryModel>
    decreases ls.len(),
{
    if ls.len() == 0 {
        Seq::empty()
    } else {
        let p = entries_of_lines(ls.drop_last());
        match line_entry(ls.last()) {
            Some(e) => p.push(e),
            None => p,
        }
    }
}

/// The entries that a file's text holds.
pub open spec fn decoded(text: Seq<char>) -> Seq<EntryModel> {
    entries_of_lines(lines(text))
}

/// The entry that `line` stands for, if any.
pub fn parse_line(line: &Vec<char>) -> (r: Option<Entry>)
    ensures
        r is None <==> line_entry(line@) is None,
        r matches Some(e) ==> line_entry(line@) == Some(e@),
{
    let k = match find_last(line, ':') {
        Some(k) => k,
        None => return None,
    };
    let n = line.len();
    let digits = slice_of(line, k + 1, n);
    let rest = slice_of(line, 0, k);
    assert(rest@ == line@.take(k as int));
    let j = match find_last(&rest, ':') {
        Some(j) => j,
        None => return None,
    };
    let hits = match parse_decimal(&digits) {
        Some(n) => n,
        None => return None,
    };
    let url = slice_of(&rest, 0, j);
    let code = slice_of(&rest, j + 1, k);
    assert(url@ =~= rest@.take(j as int));
    Some(Entry { original_url: string_of(&url), short_code: string_of(&code), hit_count: hits })
}

/// The file's text for `entries`.
pub fn encode_entries(entries: &Vec<Entry>) -> (r: String)
    ensures
        r@ == encoded(models(entries@)),
{
    let mut out: Vec<char> = Vec::new();
    let mut i: usize = 0;
    while i < entries.len()
        invariant
            i <= entries@.len(),
            out@ == encoded(models(entries@).take(i as int)),
        decreases entries@.len() - i,
    {
        let e = &entries[i];
        push_all(&mut out, &chars_of(e.original_url.as_str()));
        out.push(':');
        push_all(&mut out, &chars_of(e.short_code.as_str()));
        out.push(':');
        push_decimal(&mut out, e.hit_count);
        out.push('\n');
        let ghost es = models(entries@).take(i + 1);
        assert(es.drop_last() =~= models(entries@).take(i as int));
        assert(es.last() == e@);
        assert(out@ =~= encoded(es));
        i = i + 1;
    }
    assert(models(entries@).take(i as int) =~= models(entries@));
    string_of(&out)
}

/// The entries that a file's text holds: one for each line that stands for
/// one, in order; other lines are passed over.
pub fn decode_entries(text: &str) -> (r: Vec<Entry>)
    ensures
        models(r@) == decoded(text@),
{
    let cs = chars_of(text);
    let mut out: Vec<Entry> = Vec::new();
    let mut cur: Vec<char> = Vec::new();
    let ghost mut done: Seq<Seq<char>> = Seq::empty();
    let mut i: usize = 0;
    assert(cs@.take(0) =~= Seq::<char>::empty());
    assert(done.push(cur@) =~= seq![Seq::<char>::empty()]);
    while i < cs.len()
        invariant
            i <= cs@.len(),
            lines(cs@.take(i as int)) == done.push(cur@),
            models(out@) == entries_of_lines(done),
        decreases cs@.len() - i,
    {
        let c = cs[i];
        assert(cs@.take(i + 1).drop_last() =~= cs@.take(i as int));
        if c == '\n' {
            let ghost prev = out@;
            match parse_line(&cur) {
                Some(e) => {
                    out.push(e);
                    assert(models(out@) =~= models(prev).push(e@));
                },
                None => {},
            }
            proof {
                assert(done.push(cur@).drop_last() =~= done);
                done = done.push(cur@);
            }
            cur = Vec::new();
            assert(lines(cs@.take(i + 1)) =~= done.push(cur@));
        } else {
            cur.push(c);
            assert(lines(cs@.take(i + 1)) =~= done.push(cur@));
        }
        i = i + 1;
    }
    assert(cs@.take(i as int) =~= cs@);
    let ghost prev = out@;
    match parse_line(&cur) {
        Some(e) => {
            out.push(e);
            assert(models(out@) =~= models(prev).push(e@));
        },
        None => {},
    }
    assert(done.push(cur@).drop_last() =~= done);
    out
}

} // verus!

verus! {

/// An entry whose line reads back as itself: its URL holds no newline, and
/// its code neither a colon nor a newline.
pub open spec fn storable(e: EntryModel) -> bool {
    lacks(e.url, '\n') && lacks(e.code, ':') && lacks(e.code, '\n')
}

proof fn lemma_lines_nonempty(s: Seq<char>)
    ensures
        lines(s).len() >= 1,
    decreases s.len(),
{
    if s.len() > 0 {
        lemma_lines_nonempty(s.drop_last());
    }
}

proof fn lemma_lines_extend(a: Seq<char>, l: Seq<char>)
    requires
        lacks(l, '\n'),
    ensures
        lines(a + l) == lines(a).update(lines(a).len() - 1, lines(a).last() + l),
        lines(a + l).len() == lines(a).len(),
    decreases l.len(),
{
    let p = lines(a);
    lemma_lines_nonempty(a);
    if l.len() == 0 {
        assert(a + l =~= a);
        assert(p.last() + l =~= p.last());
        assert(p.update(p.len() - 1, p.last() + l) =~= p);
    } else {
        let m = l.drop_last();
        lemma_lines_extend(a, m);
        assert((a + l).drop_last() =~= a + m);
        assert((a + l).last() == l.last());
        assert(l.last() != '\n') by {
            assert(l[l.len() - 1] != '\n');
        }
        let q = lines(a + m);
        lemma_lines_nonempty(a + m);
        assert(q.last() =~= p.last() + m);
        assert((p.last() + m).push(l.last()) =~= p.last() + l);
        assert(lines(a + l) =~= p.update(p.len() - 1, p.last() + l));
    }
}

proof fn lemma_decimal_digits(n: nat)
    ensures
        lacks(decimal(n), ':'),
        lacks(decimal(n), '\n'),
{
    lemma_decimal(n);
    assert forall|i: int| 0 <= i < decimal(n).len() implies #[trigger] decimal(n)[i] != ':' && decimal(n)[i] != '\n' by {
        assert(is_digit(decimal(n)[i]));
    }
}

proof fn lemma_line_of_lacks_newline(e: EntryModel)
    requires
        storable(e),
    ensures
        lacks(line_of(e), '\n'),
{
    lemma_decimal_digits(e.hits as nat);
    let l = line_of(e);
    assert forall|i: int| 0 <= i < l.len() implies #[trigger] l[i] != '\n' by {
        if i < e.url.len() {
            assert(l[i] == e.url[i]);
        } else if i == e.url.len() {
        } else if i < e.url.len() + 1 + e.code.len() {
            assert(l[i] == e.code[i - e.url.len() - 1]);
        } else if i == e.url.len() + 1 + e.code.len() {
        } else {
            assert(l[i] == decimal(e.hits as nat)[i - e.url.len() - 2 - e.code.len()]);
        }
    }
}

proof fn lemma_lines_encoded(es: Seq<EntryModel>)
    requires
        forall|i: int| 0 <= i < es.len() ==> storable(#[trigger] es[i]),
    ensures
        lines(encoded(es)) == es.map_values(|e: EntryModel| line_of(e)).push(Seq::empty()),
    decreases es.len(),
{
    if es.len() == 0 {
        assert(lines(encoded(es)) =~= es.map_values(|e: EntryModel| line_of(e)).push(Seq::empty()));
    } else {
        let p = es.drop_last();
        lemma_lines_encoded(p);
        let e = es.last();
        assert(storable(es[es.len() - 1]));
        lemma_line_of_lacks_newline(e);
        let a = encoded(p);
        lemma_lines_extend(a, line_of(e));
        let t = a + line_of(e) + seq!['\n'];
        assert(t.drop_last() =~= a + line_of(e));
        assert(Seq::<char>::empty() + line_of(e) =~= line_of(e));
        assert(lines(t) =~= es.map_values(|e: EntryModel| line_of(e)).push(Seq::empty()));
    }
}

proof fn lemma_line_entry(e: EntryModel)
    requires
        storable(e),
    ensures
        line_entry(line_of(e)) == Some(e),
{
    let d = decimal(e.hits as nat);
    lemma_decimal(e.hits as nat);
    lemma_decimal_digits(e.hits as nat);
    let rest = e.url + seq![':'] + e.code;
    let l = line_of(e);
    assert(l =~= rest.push(':') + d);
    lemma_last_index_append(rest.push(':'), d, ':');
    crate::text::lemma_last_index(rest.push(':'), ':', rest.len() as int);
    let k = rest.len() as int;
    assert(l.subrange(k + 1, l.len() as int) =~= d);
    assert(l.take(k) =~= rest);
    assert(rest =~= e.url.push(':') + e.code);
    lemma_last_index_append(e.url.push(':'), e.code, ':');
    crate::text::lemma_last_index(e.url.push(':'), ':', e.url.len() as int);
    let j = e.url.len() as int;
    assert(rest.take(j) =~= e.url);
    assert(rest.subrange(j + 1, k) =~= e.code);
}

/// Reading back the text written for entries whose lines are unambiguous
/// gives those entries, in order.
pub proof fn lemma_decode_encode(es: Seq<EntryModel>)
    requires
        forall|i: int| 0 <= i < es.len() ==> storable(#[trigger] es[i]),
    ensures
        decoded(encoded(es)) == es,
{
    lemma_lines_encoded(es);
    let ls = es.map_values(|e: EntryModel| line_of(e));
    assert(ls.push(Seq::empty()).drop_last() =~= ls);
    assert(line_entry(Seq::<char>::empty()) is None);
    lemma_entries_of_lines(es);
}

proof fn lemma_entries_of_lines(es: Seq<EntryModel>)
    requires
        forall|i: int| 0 <= i < es.len() ==> storable(#[trigger] es[i]),
    ensures
        entries_of_lines(es.map_values(|e: EntryModel| line_of(e))) == es,
    decreases es.len(),
{
    if es.len() == 0 {
        assert(entries_of_lines(es.map_values(|e: EntryModel| line_of(e))) =~= es);
    } else {
        let p = es.drop_last();
        lemma_entries_of_lines(p);
        assert(storable(es[es.len() - 1]));
        lemma_line_entry(es.last());
        let ls = es.map_values(|e: EntryModel| line_of(e));
        assert(ls.drop_last() =~= p.map_values(|e: EntryModel| line_of(e)));
        assert(p.push(es.last()) =~= es);
    }
}

} // verus!

verus! {

proof fn lemma_loaded_unique(s: Seq<EntryModel>)
    requires
        codes_unique(s),
    ensures
        loaded(s) == s,
    decreases s.len(),
{
    if s.len() > 0 {
        let p = s.drop_last();
        assert(codes_unique(p)) by {
            assert forall|a: int, b: int| 0 <= a < b < p.len() implies #[trigger] p[a].code != #[trigger] p[b].code by {
                assert(s[a].code != s[b].code);
            }
        }
        lemma_loaded_unique(p);
        assert(!has_code(p, s.last().code)) by {
            if has_code(p, s.last().code) {
                let i = index_of_code(p, s.last().code);
                assert(s[i].code != s[s.len() - 1].code);
            }
        }
        assert(p.push(s.last()) =~= s);
    }
}

/// Saving a store's entries and loading the file into a store reproduces the
/// same entries, each code with its URL and count, in the same order.
pub proof fn lemma_save_then_load(s: Seq<EntryModel>)
    requires
        codes_unique(s),
        forall|i: int| 0 <= i < s.len() ==> storable(#[trigger] s[i]),
    ensures
        loaded(decoded(encoded(s))) == s,
{
    lemma_decode_encode(s);
    lemma_loaded_unique(s);
}

} // verus!
