//! Lenient reading of a process listing with columns `owner_id pid`.
use vstd::prelude::*;

verus! {

/// One observation of the process table: the real user id owning a process
/// and the process id.
#[derive(Clone, Copy, Debug, PartialEq, Eq, Structural)]
pub struct ProcessRecord {
    pub uid: usize,
    pub pid: usize,
}

/// Bytes that separate the fields of a line (space, tab, CR, VT, FF).
pub open spec fn is_blank(b: u8) -> bool {
    b == 32 || b == 9 || b == 13 || b == 11 || b == 12
}

pub open spec fn is_digit(b: u8) -> bool {
    48 <= b <= 57
}

/// Length of the leading run of bytes that are not blanks.
pub open spec fn word_len(s: Seq<u8>) -> nat
    decreases s.len(),
{
    if s.len() == 0 || is_blank(s[0]) {
        0
    } else {
        1 + word_len(s.drop_first())
    }
}

/// The non-empty blank-separated fields of a line, in order.
pub open spec fn fields(s: Seq<u8>) -> Seq<Seq<u8>>
    decreases s.len() via fields_decreases
{
    if s.len() == 0 {
        Seq::empty()
    } else if is_blank(s[0]) {
        fields(s.drop_first())
    } else {
        let n = word_len(s);
        seq![s.take(n as int)] + fields(s.skip(n as int))
    }
}

/// A word is no longer than the text it starts, and a text that starts with
/// a byte other than a blank starts with a word of at least one byte.
pub proof fn lemma_word_len_bounds(s: Seq<u8>)
    ensures
        word_len(s) <= s.len(),
        s.len() > 0 && !is_blank(s[0]) ==> word_len(s) >= 1,
    decreases s.len(),
{
    if s.len() > 0 && !is_blank(s[0]) {
        lemma_word_len_bounds(s.drop_first());
    }
}

#[via_fn]
proof fn fields_decreases(s: Seq<u8>) {
    lemma_word_len_bounds(s);
}

/// Length of the leading run of bytes before the first newline.
pub open spec fn line_len(s: Seq<u8>) -> nat
    decreases s.len(),
{
    if s.len() == 0 || s[0] == 10 {
        0
    } else {
        1 + line_len(s.drop_first())
    }
}

/// The lines of a text: split at each newline, where a newline that ends the
/// text opens no further line.
pub open spec fn lines(s: Seq<u8>) -> Seq<Seq<u8>>
    decreases s.len(),
{
    if s.len() == 0 {
        Seq::empty()
    } else {
        let n = line_len(s);
        if n < s.len() {
            seq![s.take(n as int)] + lines(s.skip(n + 1 as int))
        } else {
            seq![s]
        }
    }
}

/// Numeric value of a sequence of decimal digits.
pub open spec fn decimal_value(d: Seq<u8>) -> nat
    decreases d.len(),
{
    if d.len() == 0 {
        0
    } else {
        decimal_value(d.drop_last()) * 10 + (d.last() - 48) as nat
    }
}

/// The digits of a field, once an optional leading `+` is taken off.
pub open spec fn unsigned_digits(t: Seq<u8>) -> Seq<u8> {
    if t.len() > 0 && t[0] == 43 {
        t.drop_first()
    } else {
        t
    }
}

/// The value of a field read as an unsigned machine integer: an optional `+`
/// followed by at least one decimal digit, with a value that fits `usize`.
pub open spec fn parse_unsigned(t: Seq<u8>) -> Option<usize> {
    let d = unsigned_digits(t);
    if d.len() > 0 && (forall|i: int| 0 <= i < d.len() ==> is_digit(#[trigger] d[i]))
        && decimal_value(d) <= usize::MAX {
        Some(decimal_value(d) as usize)
    } else {
        None
    }
}

/// A field's value, where a field that does not read as an unsigned integer
/// counts as `0`.
pub open spec fn field_value(t: Seq<u8>) -> usize {
    match parse_unsigned(t) {
        Some(v) => v,
        None => 0,
    }
}

/// The record a line stands for: none for a line without fields; a missing
/// second field reads as `0`, fields after the second are ignored.
pub open spec fn line_record(l: Seq<u8>) -> Option<ProcessRecord> {
    let f = fields(l);
    if f.len() == 0 {
        None
    } else {
        Some(
            ProcessRecord {
                uid: field_value(f[0]),
                pid: if f.len() > 1 {
                    field_value(f[1])
                } else {
                    0
                },
            },
        )
    }
}

/// The records of a sequence of lines, in order.
pub open spec fn records_of_lines(ls: Seq<Seq<u8>>) -> Seq<ProcessRecord>
    decreases ls.len(),
{
    if ls.len() == 0 {
        Seq::empty()
    } else {
        let rest = records_of_lines(ls.drop_first());
        match line_record(ls[0]) {
            Some(r) => seq![r] + rest,
            None => rest,
        }
    }
}

/// The records of a whole listing: every line but the first, which is a header.
pub open spec fn listing_records(s: Seq<u8>) -> Seq<ProcessRecord> {
    let ls = lines(s);
    if ls.len() == 0 {
        Seq::empty()
    } else {
        records_of_lines(ls.drop_first())
    }
}

/// Lines are read one by one: the records of two runs of lines are those of
/// the first run followed by those of the second, so a malformed line changes
/// no other line's record.
pub proof fn lemma_lines_independent(a: Seq<Seq<u8>>, b: Seq<Seq<u8>>)
    ensures
        records_of_lines(a + b) == records_of_lines(a) + records_of_lines(b),
    decreases a.len(),
{
    if a.len() == 0 {
        assert(a + b =~= b);
        assert(Seq::<ProcessRecord>::empty() + records_of_lines(b) =~= records_of_lines(b));
    } else {
        assert((a + b).drop_first() =~= a.drop_first() + b);
        lemma_lines_independent(a.drop_first(), b);
        assert((a + b)[0] == a[0]);
        match line_record(a[0]) {
            Some(r) => {
                assert(seq![r] + (records_of_lines(a.drop_first()) + records_of_lines(b)) =~= (seq![r]
                    + records_of_lines(a.drop_first())) + records_of_lines(b));
            },
            None => {},
        }
    }
}

proof fn lemma_decimal_prefix_le(d: Seq<u8>, i: int)
    requires
        0 <= i <= d.len(),
    ensures
        decimal_value(d.take(i)) <= decimal_value(d),
    decreases d.len() - i,
{
    if i < d.len() {
        lemma_decimal_prefix_le(d, i + 1);
        assert(d.take(i + 1).drop_last() =~= d.take(i));
    } else {
        assert(d.take(i) =~= d);
    }
}

/// The value of `s[lo..hi]` read as an unsigned integer.
fn parse_unsigned_range(s: &[u8], lo: usize, hi: usize) -> (r: Option<usize>)
    requires
        lo <= hi <= s@.len(),
    ensures
        r == parse_unsigned(s@.subrange(lo as int, hi as int)),
{
    let ghost t = s@.subrange(lo as int, hi as int);
    let mut start = lo;
    if lo < hi && s[lo] == 43 {
        start = lo + 1;
    }
    let ghost d = s@.subrange(start as int, hi as int);
    assert(d =~= unsigned_digits(t));
    if start == hi {
        return None;
    }
    let mut v: usize = 0;
    let mut i = start;
    while i < hi
        invariant
            start <= i <= hi <= s@.len(),
            d == s@.subrange(start as int, hi as int),
            d == unsigned_digits(s@.subrange(lo as int, hi as int)),
            forall|k: int| 0 <= k < i - start ==> is_digit(#[trigger] d[k]),
            v as nat == decimal_value(d.take(i - start)),
        decreases hi - i,
    {
        let b = s[i];
        if b < 48 || b > 57 {
            assert(!is_digit(d[i - start]));
            assert(!(forall|k: int| 0 <= k < d.len() ==> is_digit(#[trigger] d[k])));
            return None;
        }
        let digit = (b - 48) as usize;
        assert(d.take(i + 1 - start).drop_last() =~= d.take(i - start));
        if v > (usize::MAX - digit) / 10 {
            assert(v * 10 + digit > usize::MAX) by (nonlinear_arith)
                requires
                    v > (usize::MAX - digit) / 10,
                    digit <= 9,
            ;
            proof {
                lemma_decimal_prefix_le(d, i + 1 - start);
            }
            assert(decimal_value(d) > usize::MAX);
            return None;
        }
        assert(v * 10 + digit <= usize::MAX) by (nonlinear_arith)
            requires
                v <= (usize::MAX - digit) / 10,
                digit <= 9,
        ;
        v = v * 10 + digit;
        i = i + 1;
    }
    assert(d.take(hi - start) =~= d);
    Some(v)
}

/// The value of a field, `0` where it does not read as an unsigned integer.
pub fn parse_field(t: &[u8]) -> (r: usize)
    ensures
        r == field_value(t@),
{
    let len = t.len();
    assert(t@.subrange(0, len as int) =~= t@);
    match parse_unsigned_range(t, 0, len) {
        Some(v) => v,
        None => 0,
    }
}

/// End of the line that starts at `lo`: the index of the next newline, or the
/// end of the text.
fn line_end(s: &[u8], lo: usize) -> (e: usize)
    requires
        lo < s@.len(),
    ensures
        lo <= e <= s@.len(),
        lines(s@.subrange(lo as int, s@.len() as int)) == seq![s@.subrange(lo as int, e as int)] + (
        if e < s@.len() {
            lines(s@.subrange(e + 1, s@.len() as int))
        } else {
            Seq::empty()
        }),
{
    let len = s.len();
    let ghost t = s@.subrange(lo as int, len as int);
    let mut i = lo;
    while i < len && s[i] != 10
        invariant
            lo <= i <= len == s@.len(),
            t == s@.subrange(lo as int, len as int),
            line_len(t) == (i - lo) + line_len(s@.subrange(i as int, len as int)),
        decreases len - i,
    {
        assert(s@.subrange(i as int, len as int).drop_first() =~= s@.subrange(i + 1, len as int));
        i = i + 1;
    }
    assert(line_len(s@.subrange(i as int, len as int)) == 0);
    assert(t.take(i - lo) =~= s@.subrange(lo as int, i as int));
    if i < len {
        assert(t.skip(i - lo + 1) =~= s@.subrange(i + 1, len as int));
    } else {
        assert(t =~= s@.subrange(lo as int, i as int));
    }
    i
}

/// Bounds `(a, b)` of the first field of `s[lo..hi]`, with `a == hi` where
/// there is none.
fn next_field(s: &[u8], lo: usize, hi: usize) -> (r: (usize, usize))
    requires
        lo <= hi <= s@.len(),
    ensures
        lo <= r.0 <= r.1 <= hi,
        r.0 == hi ==> fields(s@.subrange(lo as int, hi as int)) == Seq::<Seq<u8>>::empty(),
        r.0 < hi ==> fields(s@.subrange(lo as int, hi as int)) == seq![
            s@.subrange(r.0 as int, r.1 as int),
        ] + fields(s@.subrange(r.1 as int, hi as int)),
{
    let mut a = lo;
    while a < hi && (s[a] == 32 || s[a] == 9 || s[a] == 13 || s[a] == 11 || s[a] == 12)
        invariant
            lo <= a <= hi <= s@.len(),
            fields(s@.subrange(lo as int, hi as int)) == fields(s@.subrange(a as int, hi as int)),
        decreases hi - a,
    {
        assert(s@.subrange(a as int, hi as int).drop_first() =~= s@.subrange(a + 1, hi as int));
        a = a + 1;
    }
    if a == hi {
        assert(s@.subrange(a as int, hi as int) =~= Seq::<u8>::empty());
        return (a, a);
    }
    let ghost t = s@.subrange(a as int, hi as int);
    let mut b = a;
    while b < hi && !(s[b] == 32 || s[b] == 9 || s[b] == 13 || s[b] == 11 || s[b] == 12)
        invariant
            a <= b <= hi <= s@.len(),
            t == s@.subrange(a as int, hi as int),
            word_len(t) == (b - a) + word_len(s@.subrange(b as int, hi as int)),
        decreases hi - b,
    {
        assert(s@.subrange(b as int, hi as int).drop_first() =~= s@.subrange(b + 1, hi as int));
        b = b + 1;
    }
    assert(word_len(s@.subrange(b as int, hi as int)) == 0);
    assert(t.take(b - a) =~= s@.subrange(a as int, b as int));
    assert(t.skip(b - a) =~= s@.subrange(b as int, hi as int));
    (a, b)
}

/// The record of the line `s[lo..hi]`.
fn record_in(s: &[u8], lo: usize, hi: usize) -> (r: Option<ProcessRecord>)
    requires
        lo <= hi <= s@.len(),
    ensures
        r == line_record(s@.subrange(lo as int, hi as int)),
{
    let (a, b) = next_field(s, lo, hi);
    if a == hi {
        return None;
    }
    let uid = match parse_unsigned_range(s, a, b) {
        Some(v) => v,
        None => 0,
    };
    let (c, d) = next_field(s, b, hi);
    let pid = if c == hi {
        0
    } else {
        match parse_unsigned_range(s, c, d) {
            Some(v) => v,
            None => 0,
        }
    };
    let ghost f = fields(s@.subrange(lo as int, hi as int));
    assert(f[0] == s@.subrange(a as int, b as int));
    assert(c < hi ==> f[1] == s@.subrange(c as int, d as int));
    Some(ProcessRecord { uid, pid })
}

/// The records of a process listing: one for each line after the header that
/// has a field, in order, with fields that do not read as unsigned integers
/// taken as `0`.
pub fn parse_ps_output(s: &[u8]) -> (out: Vec<ProcessRecord>)
    ensures
        out@ == listing_records(s@),
{
    let len = s.len();
    let mut out: Vec<ProcessRecord> = Vec::new();
    if len == 0 {
        return out;
    }
    assert(s@.subrange(0, len as int) =~= s@);
    let h = line_end(s, 0);
    if h == len {
        assert(lines(s@).drop_first() =~= Seq::<Seq<u8>>::empty());
        return out;
    }
    assert(lines(s@).drop_first() =~= lines(s@.subrange(h + 1, len as int)));
    let mut pos = h + 1;
    while pos < len
        invariant
            pos <= len == s@.len(),
            out@ + records_of_lines(lines(s@.subrange(pos as int, len as int))) == listing_records(s@),
        decreases len - pos,
    {
        let e = line_end(s, pos);
        let ghost ls = lines(s@.subrange(pos as int, len as int));
        assert(ls.drop_first() =~= (if e < len {
            lines(s@.subrange(e + 1, len as int))
        } else {
            Seq::<Seq<u8>>::empty()
        }));
        let r = record_in(s, pos, e);
        let ghost rest = records_of_lines(ls.drop_first());
        let ghost before = out@;
        match r {
            Some(rec) => {
                out.push(rec);
                assert(out@ + rest =~= before + (seq![rec] + rest));
            },
            None => {},
        }
        if e < len {
            pos = e + 1;
        } else {
            assert(s@.subrange(len as int, len as int) =~= Seq::<u8>::empty());
            pos = len;
        }
    }
    assert(s@.subrange(pos as int, len as int) =~= Seq::<u8>::empty());
    assert(out@ + Seq::<ProcessRecord>::empty() =~= out@);
    out
}

} // verus!
