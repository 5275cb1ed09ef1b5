//! JSON text: rendering a value to its textual form, and parsing JSON text
//! into a value. Rendering is deterministic and compact; it is used for
//! diagnostics, never for equality.

use vstd::prelude::*;

use crate::value::{wf_value, SpecValue, Value};

verus! {

/// The canonical decimal digits of a non-negative integer.
pub open spec fn dec_digits(n: int) -> Seq<u8>
    decreases n,
{
    if n < 0 {
        Seq::empty()
    } else if n < 10 {
        seq![(0x30 + n) as u8]
    } else {
        dec_digits(n / 10).push((0x30 + n % 10) as u8)
    }
}

/// The decimal text of an integer: a minus sign for negative numbers,
/// then the digits.
pub open spec fn int_text(n: int) -> Seq<u8> {
    if n < 0 {
        seq![0x2du8] + dec_digits(-n)
    } else {
        dec_digits(n)
    }
}

/// How one byte of a string is rendered: quote and backslash are escaped,
/// every other byte stands for itself.
pub open spec fn esc_byte(b: u8) -> Seq<u8> {
    if b == 0x22 || b == 0x5c {
        seq![0x5cu8, b]
    } else {
        seq![b]
    }
}

/// The rendered body of a string: each byte escaped as needed.
pub open spec fn escaped(s: Seq<u8>) -> Seq<u8>
    decreases s.len(),
{
    if s.len() == 0 {
        Seq::empty()
    } else {
        escaped(s.drop_last()) + esc_byte(s.last())
    }
}

/// The rendered text of a value: compact JSON, keys and elements in the
/// value's own order, strings quoted with quote and backslash escaped.
pub open spec fn render_of(v: SpecValue) -> Seq<u8>
    decreases v, 0int,
{
    match v {
        SpecValue::Null => seq![0x6eu8, 0x75u8, 0x6cu8, 0x6cu8],
        SpecValue::Bool(b) => if b {
            seq![0x74u8, 0x72u8, 0x75u8, 0x65u8]
        } else {
            seq![0x66u8, 0x61u8, 0x6cu8, 0x73u8, 0x65u8]
        },
        SpecValue::Num(n) => int_text(n),
        SpecValue::Str(s) => seq![0x22u8] + escaped(s) + seq![0x22u8],
        SpecValue::Arr(xs) => seq![0x5bu8] + joined_items(xs) + seq![0x5du8],
        SpecValue::Obj(es) => seq![0x7bu8] + joined_entries(es) + seq![0x7du8],
    }
}

/// Comma-separated rendering of array items.
pub open spec fn joined_items(xs: Seq<SpecValue>) -> Seq<u8>
    decreases xs, 1int,
{
    if xs.len() == 0 {
        Seq::empty()
    } else if xs.len() == 1 {
        render_of(xs.last())
    } else {
        joined_items(xs.drop_last()) + seq![0x2cu8] + render_of(xs.last())
    }
}

/// The rendered text of one object entry: quoted key, colon, value.
pub open spec fn entry_text(e: (Seq<u8>, SpecValue)) -> Seq<u8>
    decreases e, 1int,
{
    seq![0x22u8] + escaped(e.0) + seq![0x22u8, 0x3au8] + render_of(e.1)
}

/// Comma-separated rendering of object entries.
pub open spec fn joined_entries(es: Seq<(Seq<u8>, SpecValue)>) -> Seq<u8>
    decreases es, 2int,
{
    if es.len() == 0 {
        Seq::empty()
    } else if es.len() == 1 {
        entry_text(es.last())
    } else {
        joined_entries(es.drop_last()) + seq![0x2cu8] + entry_text(es.last())
    }
}

/// Appends the decimal digits of `v` to `out`.
pub fn push_digits(v: u64, out: &mut Vec<u8>)
    ensures
        final(out)@ == old(out)@ + dec_digits(v as int),
    decreases v,
{
    if v < 10 {
        out.push(0x30 + (v as u8));
        proof {
            assert(old(out)@ + dec_digits(v as int) =~= out@);
        }
    } else {
        push_digits(v / 10, out);
        out.push(0x30 + ((v % 10) as u8));
        proof {
            assert((v as int) / 10 == (v / 10) as int);
            assert((v as int) % 10 == (v % 10) as int);
            assert(old(out)@ + dec_digits(v as int) =~= out@);
        }
    }
}

/// Appends the rendered body of a string (escaping as needed) to `out`.
fn push_escaped(s: &[u8], out: &mut Vec<u8>)
    ensures
        final(out)@ == old(out)@ + escaped(s@),
{
    let n = s.len();
    let mut i: usize = 0;
    proof {
        assert(escaped(s@.take(0)) =~= Seq::<u8>::empty()) by {
            assert(s@.take(0) =~= Seq::<u8>::empty());
        }
        assert(out@ =~= old(out)@ + escaped(s@.take(0)));
    }
    while i < n
        invariant
            n == s@.len(),
            0 <= i <= n,
            out@ == old(out)@ + escaped(s@.take(i as int)),
        decreases n - i,
    {
        let b = s[i];
        if b == 0x22 || b == 0x5c {
            out.push(0x5c);
            out.push(b);
        } else {
            out.push(b);
        }
        proof {
            assert(s@.take(i + 1).drop_last() =~= s@.take(i as int));
            assert(s@.take(i + 1).last() == s@[i as int]);
            assert(out@ =~= old(out)@ + escaped(s@.take(i + 1)));
        }
        i += 1;
    }
    proof {
        assert(s@.take(n as int) =~= s@);
    }
}

/// Appends the rendered text of `v` to `out`.
pub fn render_into(v: &Value, out: &mut Vec<u8>)
    ensures
        final(out)@ == old(out)@ + render_of(v@),
    decreases *v,
{
    match v {
        Value::Null => {
            out.push(0x6e);
            out.push(0x75);
            out.push(0x6c);
            out.push(0x6c);
            proof {
                assert(out@ =~= old(out)@ + render_of(v@));
            }
        },
        Value::Bool(b) => {
            if *b {
                out.push(0x74);
                out.push(0x72);
                out.push(0x75);
                out.push(0x65);
            } else {
                out.push(0x66);
                out.push(0x61);
                out.push(0x6c);
                out.push(0x73);
                out.push(0x65);
            }
            proof {
                assert(out@ =~= old(out)@ + render_of(v@));
            }
        },
        Value::Num(n) => {
            let m: u64 = if *n >= 0 {
                *n as u64
            } else if *n == i64::MIN {
                9223372036854775808u64
            } else {
                (-*n) as u64
            };
            if *n < 0 {
                out.push(0x2d);
            }
            push_digits(m, out);
            proof {
                assert(m as int == if *n as int >= 0 {
                    *n as int
                } else {
                    -(*n as int)
                });
                assert(out@ =~= old(out)@ + render_of(v@));
            }
        },
        Value::Str(s) => {
            out.push(0x22);
            push_escaped(s.as_slice(), out);
            out.push(0x22);
            proof {
                assert(out@ =~= old(out)@ + render_of(v@));
            }
        },
        Value::Arr(items) => {
            let ghost xs = crate::value::arr_view(items@);
            out.push(0x5b);
            let n = items.len();
            let mut i: usize = 0;
            proof {
                assert(joined_items(xs.take(0)) =~= Seq::<u8>::empty()) by {
                    assert(xs.take(0) =~= Seq::<SpecValue>::empty());
                }
                assert(out@ =~= old(out)@ + seq![0x5bu8] + joined_items(xs.take(0)));
            }
            while i < n
                invariant
                    *v matches Value::Arr(vs) && vs == *items,
                    xs == crate::value::arr_view(items@),
                    n == items@.len(),
                    xs.len() == n,
                    0 <= i <= n,
                    out@ == old(out)@ + seq![0x5bu8] + joined_items(xs.take(i as int)),
                decreases n - i,
            {
                if i > 0 {
                    out.push(0x2c);
                }
                render_into(&items[i], out);
                proof {
                    assert(items@[i as int]@ == xs[i as int]);
                    assert(xs.take(i + 1).drop_last() =~= xs.take(i as int));
                    assert(xs.take(i + 1).last() == xs[i as int]);
                    assert(out@ =~= old(out)@ + seq![0x5bu8] + joined_items(xs.take(i + 1)));
                }
                i += 1;
            }
            out.push(0x5d);
            proof {
                assert(xs.take(n as int) =~= xs);
                assert(out@ =~= old(out)@ + render_of(v@));
            }
        },
        Value::Obj(entries) => {
            let ghost es = crate::value::obj_view(entries@);
            out.push(0x7b);
            let n = entries.len();
            let mut i: usize = 0;
            proof {
                assert(joined_entries(es.take(0)) =~= Seq::<u8>::empty()) by {
                    assert(es.take(0) =~= Seq::<(Seq<u8>, SpecValue)>::empty());
                }
                assert(out@ =~= old(out)@ + seq![0x7bu8] + joined_entries(es.take(0)));
            }
            while i < n
                invariant
                    *v matches Value::Obj(vs) && vs == *entries,
                    es == crate::value::obj_view(entries@),
                    n == entries@.len(),
                    es.len() == n,
                    0 <= i <= n,
                    out@ == old(out)@ + seq![0x7bu8] + joined_entries(es.take(i as int)),
                decreases n - i,
            {
                if i > 0 {
                    out.push(0x2c);
                }
                let ghost pre = out@;
                out.push(0x22);
                push_escaped(entries[i].0.as_slice(), out);
                out.push(0x22);
                out.push(0x3a);
                render_into(&entries[i].1, out);
                proof {
                    assert(entries@[i as int].0@ == es[i as int].0);
                    assert(entries@[i as int].1@ == es[i as int].1);
                    assert(out@ =~= pre + entry_text(es[i as int]));
                    assert(es.take(i + 1).drop_last() =~= es.take(i as int));
                    assert(es.take(i + 1).last() == es[i as int]);
                    assert(out@ =~= old(out)@ + seq![0x7bu8] + joined_entries(es.take(i + 1)));
                }
                i += 1;
            }
            out.push(0x7d);
            proof {
                assert(es.take(n as int) =~= es);
                assert(out@ =~= old(out)@ + render_of(v@));
            }
        },
    }
}

/// Renders a value as compact JSON text.
pub fn render(v: &Value) -> (r: Vec<u8>)
    ensures
        r@ == render_of(v@),
{
    let mut out: Vec<u8> = Vec::new();
    render_into(v, &mut out);
    proof {
        assert(out@ =~= render_of(v@));
    }
    out
}

} // verus!
verus! {

/// Why JSON text failed to parse: the byte position at which it stopped.
#[derive(Debug)]
pub struct ParseError {
    pub at: usize,
}

/// JSON insignificant whitespace.
pub open spec fn is_ws(b: u8) -> bool {
    b == 0x20 || b == 0x09 || b == 0x0a || b == 0x0d
}

/// An ASCII decimal digit.
pub open spec fn is_digit_byte(b: u8) -> bool {
    0x30 <= b <= 0x39
}

/// The position of the first byte at or after `pos` that is not
/// insignificant whitespace (or the end of the text).
pub open spec fn ws_end(text: Seq<u8>, pos: int) -> int
    decreases text.len() - pos,
{
    if 0 <= pos < text.len() && is_ws(text[pos]) {
        ws_end(text, pos + 1)
    } else {
        pos
    }
}

/// The value of a string escape after the backslash, if the escape is
/// understood: `\"`, `\\`, `\/`, `\n`, `\t`, `\r`.
pub open spec fn esc_value(e: u8) -> Option<u8> {
    if e == 0x22 {
        Some(0x22u8)
    } else if e == 0x5c {
        Some(0x5cu8)
    } else if e == 0x2f {
        Some(0x2fu8)
    } else if e == 0x6e {
        Some(0x0au8)
    } else if e == 0x74 {
        Some(0x09u8)
    } else if e == 0x72 {
        Some(0x0du8)
    } else {
        None
    }
}

/// Reads a string body starting after the opening quote: the decoded bytes
/// and the position after the closing quote, or nothing when the text ends
/// before the closing quote or holds an escape that is not understood.
pub open spec fn read_string(text: Seq<u8>, pos: int) -> Option<(Seq<u8>, int)>
    decreases text.len() - pos,
{
    if !(0 <= pos < text.len()) {
        None
    } else {
        let b = text[pos];
        if b == 0x22 {
            Some((Seq::empty(), pos + 1))
        } else if b == 0x5c {
            if pos + 1 >= text.len() {
                None
            } else {
                match esc_value(text[pos + 1]) {
                    Some(c) => match read_string(text, pos + 2) {
                        Some(sq) => Some((seq![c] + sq.0, sq.1)),
                        None => None,
                    },
                    None => None,
                }
            }
        } else {
            match read_string(text, pos + 1) {
                Some(sq) => Some((seq![b] + sq.0, sq.1)),
                None => None,
            }
        }
    }
}

/// The end of the run of decimal digits starting at `pos`.
pub open spec fn digits_end(text: Seq<u8>, pos: int) -> int
    decreases text.len() - pos,
{
    if 0 <= pos < text.len() && is_digit_byte(text[pos]) {
        digits_end(text, pos + 1)
    } else {
        pos
    }
}

/// The numeric value of the digits in `[pos, end)`, most significant first.
pub open spec fn digits_val(text: Seq<u8>, pos: int, end: int) -> int
    decreases end - pos,
{
    if pos < end {
        digits_val(text, pos, end - 1) * 10 + ((text[end - 1] as int) - 0x30)
    } else {
        0
    }
}

/// Powers of ten.
pub open spec fn ten_pow(n: nat) -> int
    decreases n,
{
    if n == 0 {
        1
    } else {
        10 * ten_pow((n - 1) as nat)
    }
}

/// Reads a number starting at `pos`: an optional minus sign, a digit run of
/// at most nineteen digits without a superfluous leading zero, optionally a
/// fraction whose digits are all zero (naming the same integer), no
/// exponent, and a value within the signed 64-bit range. Yields the value
/// and the position after it.
pub open spec fn read_number(text: Seq<u8>, pos: int) -> Option<(int, int)> {
    let len = text.len() as int;
    if !(0 <= pos < len) {
        None
    } else {
        let neg = text[pos] == 0x2d;
        let p1 = if neg {
            pos + 1
        } else {
            pos
        };
        if !(p1 < len && is_digit_byte(text[p1])) {
            None
        } else {
            let dend = if text[p1] == 0x30 {
                p1 + 1
            } else {
                digits_end(text, p1)
            };
            if dend - p1 > 19 {
                None
            } else {
                let mag = digits_val(text, p1, dend);
                let frac_ok = !(dend < len && text[dend] == 0x2e) || (dend + 1 < len
                    && is_digit_byte(text[dend + 1]) && (forall|k: int|
                    dend + 1 <= k < digits_end(text, dend + 1) ==> text[k] == 0x30));
                let fend = if dend < len && text[dend] == 0x2e {
                    digits_end(text, dend + 1)
                } else {
                    dend
                };
                if !frac_ok {
                    None
                } else if fend < len && (text[fend] == 0x65 || text[fend] == 0x45) {
                    None
                } else if neg {
                    if mag <= 0x8000000000000000 {
                        Some((-mag, fend))
                    } else {
                        None
                    }
                } else {
                    if mag <= 0x7fffffffffffffff {
                        Some((mag, fend))
                    } else {
                        None
                    }
                }
            }
        }
    }
}

/// The entries of `es` include one with key `k`.
pub open spec fn has_key(es: Seq<(Seq<u8>, SpecValue)>, k: Seq<u8>) -> bool {
    exists|i: int| 0 <= i < es.len() && (#[trigger] es[i]).0 == k
}

/// Reads one JSON value starting at `pos`, leading whitespace allowed:
/// the value and the position after it, or nothing when the text at `pos`
/// is not a value of the grammar. This function is the grammar the
/// executable parser is held to.
pub open spec fn read_value(text: Seq<u8>, pos: int) -> Option<(SpecValue, int)>
    decreases text.len() - pos, 1int,
{
    let len = text.len() as int;
    let p = ws_end(text, pos);
    if !(pos <= p && p < len) {
        None
    } else {
        let b = text[p];
        if b == 0x6e {
            if p + 4 <= len && text[p + 1] == 0x75 && text[p + 2] == 0x6c && text[p + 3] == 0x6c {
                Some((SpecValue::Null, p + 4))
            } else {
                None
            }
        } else if b == 0x74 {
            if p + 4 <= len && text[p + 1] == 0x72 && text[p + 2] == 0x75 && text[p + 3] == 0x65 {
                Some((SpecValue::Bool(true), p + 4))
            } else {
                None
            }
        } else if b == 0x66 {
            if p + 5 <= len && text[p + 1] == 0x61 && text[p + 2] == 0x6c && text[p + 3] == 0x73
                && text[p + 4] == 0x65 {
                Some((SpecValue::Bool(false), p + 5))
            } else {
                None
            }
        } else if b == 0x22 {
            match read_string(text, p + 1) {
                Some(sq) => Some((SpecValue::Str(sq.0), sq.1)),
                None => None,
            }
        } else if b == 0x2d || is_digit_byte(b) {
            match read_number(text, p) {
                Some(vq) => Some((SpecValue::Num(vq.0), vq.1)),
                None => None,
            }
        } else if b == 0x5b {
            let q0 = ws_end(text, p + 1);
            if q0 < len && text[q0] == 0x5d {
                Some((SpecValue::Arr(Seq::empty()), q0 + 1))
            } else if pos < q0 <= len {
                match read_elems(text, q0, Seq::empty()) {
                    Some(xe) => Some((SpecValue::Arr(xe.0), xe.1)),
                    None => None,
                }
            } else {
                None
            }
        } else if b == 0x7b {
            let q0 = ws_end(text, p + 1);
            if q0 < len && text[q0] == 0x7d {
                Some((SpecValue::Obj(Seq::empty()), q0 + 1))
            } else if pos < q0 <= len {
                match read_entries(text, q0, Seq::empty()) {
                    Some(ee) => Some((SpecValue::Obj(ee.0), ee.1)),
                    None => None,
                }
            } else {
                None
            }
        } else {
            None
        }
    }
}

/// Reads the elements of an array from the first element on, appending to
/// `acc`: the elements and the position after the closing bracket.
pub open spec fn read_elems(text: Seq<u8>, pos: int, acc: Seq<SpecValue>) -> Option<
    (Seq<SpecValue>, int),
>
    decreases text.len() - pos, 2int,
{
    let len = text.len() as int;
    match read_value(text, pos) {
        Some(vq) => {
            let q3 = ws_end(text, vq.1);
            if q3 < len && text[q3] == 0x5d {
                Some((acc.push(vq.0), q3 + 1))
            } else if q3 < len && text[q3] == 0x2c {
                if pos < q3 + 1 <= len {
                    read_elems(text, q3 + 1, acc.push(vq.0))
                } else {
                    None
                }
            } else {
                None
            }
        },
        None => None,
    }
}

/// Reads the entries of an object from the first key on, appending to
/// `acc`: the entries (keys pairwise distinct) and the position after the
/// closing brace.
pub open spec fn read_entries(
    text: Seq<u8>,
    pos: int,
    acc: Seq<(Seq<u8>, SpecValue)>,
) -> Option<(Seq<(Seq<u8>, SpecValue)>, int)>
    decreases text.len() - pos, 2int,
{
    let len = text.len() as int;
    let qk = ws_end(text, pos);
    if !(qk < len && text[qk] == 0x22) {
        None
    } else {
        match read_string(text, qk + 1) {
            Some(kq) => {
                if has_key(acc, kq.0) {
                    None
                } else {
                    let q3 = ws_end(text, kq.1);
                    if !(q3 < len && text[q3] == 0x3a) {
                        None
                    } else if !(pos <= q3 + 1 <= len) {
                        None
                    } else {
                        match read_value(text, q3 + 1) {
                            Some(vq) => {
                                let q5 = ws_end(text, vq.1);
                                if q5 < len && text[q5] == 0x7d {
                                    Some((acc.push((kq.0, vq.0)), q5 + 1))
                                } else if q5 < len && text[q5] == 0x2c {
                                    if pos < q5 + 1 <= len {
                                        read_entries(text, q5 + 1, acc.push((kq.0, vq.0)))
                                    } else {
                                        None
                                    }
                                } else {
                                    None
                                }
                            },
                            None => None,
                        }
                    }
                }
            },
            None => None,
        }
    }
}

/// The reading of a whole JSON text: one value, optionally surrounded by
/// whitespace, covering the whole input.
pub open spec fn json_of(text: Seq<u8>) -> Option<SpecValue> {
    match read_value(text, 0) {
        Some(vp) => if ws_end(text, vp.1) == text.len() {
            Some(vp.0)
        } else {
            None
        },
        None => None,
    }
}

} // verus!

verus! {

/// Every power of ten is positive.
pub(crate) proof fn lemma_ten_pow_pos(n: nat)
    ensures
        ten_pow(n) >= 1,
    decreases n,
{
    if n > 0 {
        lemma_ten_pow_pos((n - 1) as nat);
    }
}

/// Powers of ten grow with the exponent.
pub(crate) proof fn lemma_ten_pow_mono(a: nat, b: nat)
    requires
        a <= b,
    ensures
        ten_pow(a) <= ten_pow(b),
    decreases b,
{
    if a < b {
        lemma_ten_pow_mono(a, (b - 1) as nat);
        lemma_ten_pow_pos((b - 1) as nat);
    }
}

/// A digit run starts at its own start, and every byte in it is a digit.
pub(crate) proof fn lemma_digits_run(text: Seq<u8>, pos: int)
    requires
        0 <= pos,
    ensures
        pos <= digits_end(text, pos),
        forall|k: int| pos <= k < digits_end(text, pos) ==> is_digit_byte(#[trigger] text[k]),
    decreases text.len() - pos,
{
    if 0 <= pos < text.len() && is_digit_byte(text[pos]) {
        lemma_digits_run(text, pos + 1);
    }
}

/// Advances past insignificant whitespace.
fn skip_ws(text: &[u8], pos: usize) -> (r: usize)
    requires
        pos <= text@.len(),
    ensures
        pos <= r <= text@.len(),
        r as int == ws_end(text@, pos as int),
        ws_end(text@, r as int) == r as int,
{
    let n = text.len();
    let mut p = pos;
    while p < n
        invariant
            pos <= p <= n,
            n == text@.len(),
            ws_end(text@, pos as int) == ws_end(text@, p as int),
        decreases n - p,
    {
        let b = text[p];
        if !(b == 0x20 || b == 0x09 || b == 0x0a || b == 0x0d) {
            proof {
                assert(ws_end(text@, p as int) == p as int);
            }
            return p;
        }
        proof {
            assert(ws_end(text@, p as int) == ws_end(text@, p + 1));
        }
        p += 1;
    }
    proof {
        assert(ws_end(text@, n as int) == n as int);
    }
    p
}

/// The end of the digit run starting at `start`.
pub(crate) fn digits_run(text: &[u8], start: usize) -> (r: usize)
    requires
        start <= text@.len(),
    ensures
        start <= r <= text@.len(),
        r as int == digits_end(text@, start as int),
{
    let n = text.len();
    let mut p = start;
    while p < n
        invariant
            start <= p <= n,
            n == text@.len(),
            digits_end(text@, start as int) == digits_end(text@, p as int),
        decreases n - p,
    {
        let b = text[p];
        if !(0x30 <= b && b <= 0x39) {
            proof {
                assert(digits_end(text@, p as int) == p as int);
            }
            return p;
        }
        proof {
            assert(digits_end(text@, p as int) == digits_end(text@, p + 1));
        }
        p += 1;
    }
    proof {
        assert(digits_end(text@, n as int) == n as int);
    }
    p
}

/// Decides whether every byte in `[start, end)` is the zero digit.
fn all_zero_run(text: &[u8], start: usize, end: usize) -> (r: bool)
    requires
        start <= end <= text@.len(),
    ensures
        r == (forall|k: int| start <= k < end ==> text@[k] == 0x30),
{
    let mut q = start;
    while q < end
        invariant
            start <= q <= end <= text@.len(),
            forall|k: int| start <= k < q ==> text@[k] == 0x30,
        decreases end - q,
    {
        if text[q] != 0x30 {
            return false;
        }
        q += 1;
    }
    true
}

/// Parses a string body after the opening quote, returning the decoded
/// bytes and the position after the closing quote, exactly as
/// [`read_string`] reads them.
fn parse_string_body(text: &[u8], pos: usize) -> (r: Result<(Vec<u8>, usize), ParseError>)
    requires
        pos <= text@.len(),
    ensures
        r matches Ok(sq) ==> read_string(text@, pos as int) == Some((sq.0@, sq.1 as int)) && pos
            < sq.1 <= text@.len(),
        r is Err ==> read_string(text@, pos as int) is None,
{
    let n = text.len();
    let mut p = pos;
    let mut out: Vec<u8> = Vec::new();
    proof {
        assert(read_string(text@, pos as int) matches Some(sq) ==> (Seq::<u8>::empty() + sq.0
            =~= sq.0));
    }
    while p < n
        invariant
            pos <= p <= n,
            n == text@.len(),
            read_string(text@, pos as int) matches Some(sq) ==> read_string(text@, p as int)
                matches Some(sq2) && sq == ((out@ + sq2.0, sq2.1)),
            read_string(text@, p as int) is Some ==> read_string(text@, pos as int) is Some,
        decreases n - p,
    {
        let b = text[p];
        if b == 0x22 {
            proof {
                assert(read_string(text@, p as int) == Some((Seq::<u8>::empty(), p + 1)));
                assert(out@ + Seq::<u8>::empty() =~= out@);
            }
            return Ok((out, p + 1));
        } else if b == 0x5c {
            if p + 1 >= n {
                proof {
                    assert(read_string(text@, p as int) is None);
                }
                return Err(ParseError { at: p });
            }
            let e = text[p + 1];
            let c: u8;
            if e == 0x22 {
                c = 0x22;
            } else if e == 0x5c {
                c = 0x5c;
            } else if e == 0x2f {
                c = 0x2f;
            } else if e == 0x6e {
                c = 0x0a;
            } else if e == 0x74 {
                c = 0x09;
            } else if e == 0x72 {
                c = 0x0d;
            } else {
                proof {
                    assert(esc_value(e) is None);
                    assert(read_string(text@, p as int) is None);
                }
                return Err(ParseError { at: p + 1 });
            }
            proof {
                assert(esc_value(e) == Some(c));
                assert(read_string(text@, p + 2) matches Some(sq2) ==> (out@ + (seq![c] + sq2.0)
                    =~= out@.push(c) + sq2.0));
            }
            out.push(c);
            p += 2;
        } else {
            proof {
                assert(read_string(text@, p + 1) matches Some(sq2) ==> (out@ + (seq![b] + sq2.0)
                    =~= out@.push(b) + sq2.0));
            }
            out.push(b);
            p += 1;
        }
    }
    proof {
        assert(read_string(text@, n as int) is None);
    }
    Err(ParseError { at: n })
}

/// Parses a number exactly as [`read_number`] reads it: an optional minus
/// sign, at most nineteen digits without a superfluous leading zero, an
/// optional all-zero fraction, no exponent, within the signed 64-bit range.
fn parse_number(text: &[u8], pos: usize) -> (r: Result<(i64, usize), ParseError>)
    requires
        pos <= text@.len(),
    ensures
        r matches Ok(vp) ==> read_number(text@, pos as int) == Some((vp.0 as int, vp.1 as int))
            && pos < vp.1 <= text@.len(),
        r is Err ==> read_number(text@, pos as int) is None,
{
    let n = text.len();
    if pos >= n {
        return Err(ParseError { at: pos });
    }
    let neg = text[pos] == 0x2d;
    let p1 = if neg {
        pos + 1
    } else {
        pos
    };
    if p1 >= n {
        return Err(ParseError { at: p1 });
    }
    let d0 = text[p1];
    if !(0x30 <= d0 && d0 <= 0x39) {
        return Err(ParseError { at: p1 });
    }
    let dend: usize = if d0 == 0x30 {
        p1 + 1
    } else {
        digits_run(text, p1)
    };
    proof {
        lemma_digits_run(text@, p1 as int);
        lemma_digits_run(text@, p1 + 1);
        assert(digits_end(text@, p1 as int) == digits_end(text@, p1 + 1));
    }
    if dend - p1 > 19 {
        return Err(ParseError { at: dend });
    }
    let mut m: u64 = 0;
    let mut q = p1;
    proof {
        reveal_with_fuel(ten_pow, 21);
    }
    while q < dend
        invariant
            p1 <= q <= dend <= n,
            n == text@.len(),
            dend - p1 <= 19,
            d0 == 0x30 ==> dend == p1 + 1,
            d0 != 0x30 ==> dend as int == digits_end(text@, p1 as int),
            d0 == text@[p1 as int],
            is_digit_byte(d0),
            forall|k: int| p1 <= k < dend ==> is_digit_byte(#[trigger] text@[k]),
            m as int == digits_val(text@, p1 as int, q as int),
            (m as int) < ten_pow((q - p1) as nat),
        decreases dend - q,
    {
        let b = text[q];
        proof {
            reveal_with_fuel(ten_pow, 21);
            lemma_ten_pow_mono((q - p1) as nat, 18);
            assert(ten_pow(18) == 1000000000000000000);
            assert((m as int) * 10 <= (ten_pow((q - p1) as nat) - 1) * 10);
            assert(ten_pow(((q - p1) + 1) as nat) == 10 * ten_pow((q - p1) as nat));
        }
        m = m * 10 + ((b - 0x30) as u64);
        q += 1;
        proof {
            assert(digits_val(text@, p1 as int, q as int) == digits_val(
                text@,
                p1 as int,
                q - 1,
            ) * 10 + ((text@[q - 1] as int) - 0x30));
        }
    }
    let mut fend = dend;
    if dend < n && text[dend] == 0x2e {
        if dend + 1 >= n {
            return Err(ParseError { at: dend });
        }
        let f0 = text[dend + 1];
        if !(0x30 <= f0 && f0 <= 0x39) {
            return Err(ParseError { at: dend + 1 });
        }
        let fd = digits_run(text, dend + 1);
        if !all_zero_run(text, dend + 1, fd) {
            return Err(ParseError { at: dend + 1 });
        }
        fend = fd;
    }
    if fend < n && (text[fend] == 0x65 || text[fend] == 0x45) {
        return Err(ParseError { at: fend });
    }
    if neg {
        if m > 9223372036854775808u64 {
            return Err(ParseError { at: fend });
        }
        if m == 9223372036854775808u64 {
            Ok((i64::MIN, fend))
        } else {
            Ok((-(m as i64), fend))
        }
    } else {
        if m > 9223372036854775807u64 {
            return Err(ParseError { at: fend });
        }
        Ok((m as i64, fend))
    }
}

} // verus!

verus! {

/// Decides whether the entries already hold the key.
fn has_key_check(entries: &Vec<(Vec<u8>, Value)>, key: &[u8]) -> (r: bool)
    ensures
        r == has_key(crate::value::obj_view(entries@), key@),
{
    let ghost acc = crate::value::obj_view(entries@);
    let dn = entries.len();
    let mut di: usize = 0;
    while di < dn
        invariant
            0 <= di <= dn,
            dn == entries@.len(),
            acc == crate::value::obj_view(entries@),
            acc.len() == dn,
            forall|k: int| 0 <= k < di ==> (#[trigger] acc[k]).0 != key@,
        decreases dn - di,
    {
        proof {
            assert(entries@[di as int].0@ == acc[di as int].0);
        }
        if crate::value::bytes_eq(entries[di].0.as_slice(), key) {
            proof {
                assert(0 <= di < acc.len() && acc[di as int].0 == key@);
            }
            return true;
        }
        di += 1;
    }
    false
}

/// Parses one JSON value starting at `pos` (leading whitespace allowed),
/// returning the value and the position after it, exactly as
/// [`read_value`] reads them. The parsed value is always well formed.
pub fn parse_value(text: &[u8], pos: usize) -> (r: Result<(Value, usize), ParseError>)
    requires
        pos <= text@.len(),
    ensures
        r matches Ok(vp) ==> read_value(text@, pos as int) == Some((vp.0@, vp.1 as int))
            && wf_value(vp.0@) && pos < vp.1 <= text@.len(),
        r is Err ==> read_value(text@, pos as int) is None,
    decreases text@.len() - pos,
{
    let n = text.len();
    let p = skip_ws(text, pos);
    if p >= n {
        return Err(ParseError { at: p });
    }
    let b = text[p];
    if b == 0x6e {
        if n - p >= 4 && text[p + 1] == 0x75 && text[p + 2] == 0x6c && text[p + 3] == 0x6c {
            Ok((Value::Null, p + 4))
        } else {
            Err(ParseError { at: p })
        }
    } else if b == 0x74 {
        if n - p >= 4 && text[p + 1] == 0x72 && text[p + 2] == 0x75 && text[p + 3] == 0x65 {
            Ok((Value::Bool(true), p + 4))
        } else {
            Err(ParseError { at: p })
        }
    } else if b == 0x66 {
        if n - p >= 5 && text[p + 1] == 0x61 && text[p + 2] == 0x6c && text[p + 3] == 0x73 && text[p
            + 4] == 0x65 {
            Ok((Value::Bool(false), p + 5))
        } else {
            Err(ParseError { at: p })
        }
    } else if b == 0x22 {
        match parse_string_body(text, p + 1) {
            Ok((s, q)) => Ok((Value::Str(s), q)),
            Err(e) => Err(e),
        }
    } else if b == 0x2d || (0x30 <= b && b <= 0x39) {
        match parse_number(text, p) {
            Ok((v, q)) => Ok((Value::Num(v), q)),
            Err(e) => Err(e),
        }
    } else if b == 0x5b {
        let mut items: Vec<Value> = Vec::new();
        let mut q = skip_ws(text, p + 1);
        if q < n && text[q] == 0x5d {
            let out = Value::Arr(items);
            proof {
                assert(crate::value::arr_view(out->Arr_0@) =~= Seq::<SpecValue>::empty());
                assert(wf_value(out@));
            }
            return Ok((out, q + 1));
        }
        proof {
            assert(crate::value::arr_view(items@) =~= Seq::<SpecValue>::empty());
        }
        loop
            invariant
                pos <= p < q <= n,
                n == text@.len(),
                p as int == ws_end(text@, pos as int),
                text@[p as int] == 0x5b,
                !(ws_end(text@, p + 1) < n && text@[ws_end(text@, p + 1)] == 0x5d),
                pos < ws_end(text@, p + 1) <= n,
                forall|k: int| 0 <= k < items@.len() ==> wf_value((#[trigger] items@[k])@),
                (match read_elems(text@, q as int, crate::value::arr_view(items@)) {
                    Some(xe) => read_value(text@, pos as int) == Some(
                        (SpecValue::Arr(xe.0), xe.1),
                    ),
                    None => read_value(text@, pos as int) is None,
                }),
            decreases n - q,
        {
            match parse_value(text, q) {
                Ok((v, q2)) => {
                    let q3 = skip_ws(text, q2);
                    if q3 < n && text[q3] == 0x5d {
                        proof {
                            assert(crate::value::arr_view(items@.push(v)) =~= crate::value::arr_view(
                                items@,
                            ).push(v@));
                        }
                        items.push(v);
                        let out = Value::Arr(items);
                        proof {
                            assert(wf_value(out@));
                        }
                        return Ok((out, q3 + 1));
                    }
                    if q3 < n && text[q3] == 0x2c {
                        proof {
                            assert(crate::value::arr_view(items@.push(v)) =~= crate::value::arr_view(
                                items@,
                            ).push(v@));
                        }
                        items.push(v);
                        q = q3 + 1;
                    } else {
                        return Err(ParseError { at: q3 });
                    }
                },
                Err(e) => {
                    return Err(e);
                },
            }
        }
    } else if b == 0x7b {
        let mut entries: Vec<(Vec<u8>, Value)> = Vec::new();
        let mut q = skip_ws(text, p + 1);
        if q < n && text[q] == 0x7d {
            let out = Value::Obj(entries);
            proof {
                assert(crate::value::obj_view(out->Obj_0@) =~= Seq::<(Seq<u8>, SpecValue)>::empty());
                assert(wf_value(out@));
            }
            return Ok((out, q + 1));
        }
        proof {
            assert(crate::value::obj_view(entries@) =~= Seq::<(Seq<u8>, SpecValue)>::empty());
        }
        loop
            invariant
                pos <= p < q <= n,
                n == text@.len(),
                p as int == ws_end(text@, pos as int),
                text@[p as int] == 0x7b,
                !(ws_end(text@, p + 1) < n && text@[ws_end(text@, p + 1)] == 0x7d),
                pos < ws_end(text@, p + 1) <= n,
                forall|k: int| 0 <= k < entries@.len() ==> wf_value((#[trigger] entries@[k]).1@),
                forall|k1: int, k2: int|
                    0 <= k1 < k2 < entries@.len() ==> (#[trigger] entries@[k1]).0@ != (
                    #[trigger] entries@[k2]).0@,
                (match read_entries(text@, q as int, crate::value::obj_view(entries@)) {
                    Some(ee) => read_value(text@, pos as int) == Some(
                        (SpecValue::Obj(ee.0), ee.1),
                    ),
                    None => read_value(text@, pos as int) is None,
                }),
            decreases n - q,
        {
            let ghost acc = crate::value::obj_view(entries@);
            let qk = skip_ws(text, q);
            if !(qk < n && text[qk] == 0x22) {
                return Err(ParseError { at: qk });
            }
            match parse_string_body(text, qk + 1) {
                Ok((key, q2)) => {
                    if has_key_check(&entries, key.as_slice()) {
                        return Err(ParseError { at: qk });
                    }
                    let q3 = skip_ws(text, q2);
                    if !(q3 < n && text[q3] == 0x3a) {
                        return Err(ParseError { at: q3 });
                    }
                    match parse_value(text, q3 + 1) {
                        Ok((v, q4)) => {
                            let q5 = skip_ws(text, q4);
                            let ghost acc2 = acc.push((key@, v@));
                            proof {
                                assert(crate::value::obj_view(entries@.push((key, v))) =~= acc2);
                                assert forall|k: int|
                                    0 <= k < acc.len() implies (#[trigger] acc[k]).0 != key@ by {
                                    assert(entries@[k].0@ == acc[k].0);
                                }
                            }
                            if q5 < n && text[q5] == 0x7d {
                                entries.push((key, v));
                                let out = Value::Obj(entries);
                                proof {
                                    assert(wf_value(out@)) by {
                                        let es = crate::value::obj_view(entries@);
                                        assert forall|k1: int, k2: int|
                                            0 <= k1 < k2 < es.len() implies (#[trigger] es[k1]).0
                                            != (#[trigger] es[k2]).0 by {
                                            assert(es[k1].0 == entries@[k1].0@);
                                            assert(es[k2].0 == entries@[k2].0@);
                                        }
                                        assert forall|k: int|
                                            0 <= k < es.len() implies wf_value(
                                            (#[trigger] es[k]).1,
                                        ) by {
                                            assert(es[k].1 == entries@[k].1@);
                                        }
                                    }
                                }
                                return Ok((out, q5 + 1));
                            }
                            if q5 < n && text[q5] == 0x2c {
                                entries.push((key, v));
                                proof {
                                    assert forall|k1: int, k2: int|
                                        0 <= k1 < k2 < entries@.len() implies (
                                        #[trigger] entries@[k1]).0@ != (
                                        #[trigger] entries@[k2]).0@ by {
                                        if k2 == entries@.len() - 1 {
                                            assert(acc[k1].0 == entries@[k1].0@);
                                        }
                                    }
                                }
                                q = q5 + 1;
                            } else {
                                return Err(ParseError { at: q5 });
                            }
                        },
                        Err(e) => {
                            return Err(e);
                        },
                    }
                },
                Err(e) => {
                    return Err(e);
                },
            }
        }
    } else {
        Err(ParseError { at: p })
    }
}

/// Parses a complete JSON text: one value, optionally surrounded by
/// whitespace, covering the whole input. The result is exactly the reading
/// [`json_of`] gives the text, and it succeeds exactly when that reading
/// exists; the parsed value is well formed.
pub fn parse(text: &[u8]) -> (r: Result<Value, ParseError>)
    ensures
        r matches Ok(v) ==> json_of(text@) == Some(v@) && wf_value(v@),
        (r is Ok) <==> (json_of(text@) is Some),
{
    match parse_value(text, 0) {
        Ok((v, p)) => {
            let q = skip_ws(text, p);
            if q == text.len() {
                Ok(v)
            } else {
                Err(ParseError { at: q })
            }
        },
        Err(e) => Err(e),
    }
}

} // verus!
