//! JSON-path-style expressions: parsing a textual path into segments and
//! evaluating a path against a value, yielding the matched sub-values.

use vstd::prelude::*;

use crate::value::{arr_view, bytes_eq, obj_view, SpecValue, Value};

verus! {

/// Mathematical model of a path segment.
pub enum SpecSegment {
    Field(Seq<u8>),
    Index(int),
    Wildcard,
}

/// One step of a path: a field name, an array index, or a wildcard.
pub enum Segment {
    Field(Vec<u8>),
    Index(usize),
    Wildcard,
}

impl View for Segment {
    type V = SpecSegment;

    open spec fn view(&self) -> SpecSegment {
        match self {
            Segment::Field(k) => SpecSegment::Field(k@),
            Segment::Index(i) => SpecSegment::Index(*i as int),
            Segment::Wildcard => SpecSegment::Wildcard,
        }
    }
}

/// The segment-wise view of a segment list.
pub open spec fn segs_view(segs: Seq<Segment>) -> Seq<SpecSegment> {
    Seq::new(segs.len(), |i: int| segs[i]@)
}

/// A parsed path: the root marker followed by zero or more segments.
pub struct Path {
    pub segments: Vec<Segment>,
}

impl View for Path {
    type V = Seq<SpecSegment>;

    open spec fn view(&self) -> Seq<SpecSegment> {
        segs_view(self.segments@)
    }
}

/// The value at key `k` among `entries` (first match), if any.
pub open spec fn obj_lookup(entries: Seq<(Seq<u8>, SpecValue)>, k: Seq<u8>) -> Option<SpecValue>
    decreases entries.len(),
{
    if entries.len() == 0 {
        None
    } else if entries[0].0 == k {
        Some(entries[0].1)
    } else {
        obj_lookup(entries.drop_first(), k)
    }
}

/// The sub-values one segment selects from one candidate value. A missing
/// field or index, or a candidate of the wrong kind, contributes nothing.
pub open spec fn eval_one(seg: SpecSegment, v: SpecValue) -> Seq<SpecValue> {
    match seg {
        SpecSegment::Field(k) => match v {
            SpecValue::Obj(es) => match obj_lookup(es, k) {
                Some(x) => seq![x],
                None => Seq::empty(),
            },
            _ => Seq::empty(),
        },
        SpecSegment::Index(i) => match v {
            SpecValue::Arr(xs) => if 0 <= i < xs.len() {
                seq![xs[i]]
            } else {
                Seq::empty()
            },
            _ => Seq::empty(),
        },
        SpecSegment::Wildcard => match v {
            SpecValue::Arr(xs) => xs,
            SpecValue::Obj(es) => Seq::new(es.len(), |i: int| es[i].1),
            _ => Seq::empty(),
        },
    }
}

/// The sub-values one segment selects from a list of candidates, in order.
pub open spec fn eval_seg(seg: SpecSegment, cs: Seq<SpecValue>) -> Seq<SpecValue>
    decreases cs.len(),
{
    if cs.len() == 0 {
        Seq::empty()
    } else {
        eval_one(seg, cs[0]) + eval_seg(seg, cs.drop_first())
    }
}

/// Applies the segments left to right to a list of candidates.
pub open spec fn eval_segments(segs: Seq<SpecSegment>, cs: Seq<SpecValue>) -> Seq<SpecValue>
    decreases segs.len(),
{
    if segs.len() == 0 {
        cs
    } else {
        eval_segments(segs.drop_first(), eval_seg(segs[0], cs))
    }
}

/// The sub-values a path selects from a value: the root marker yields the
/// value itself, and each segment then maps over the current candidates.
pub open spec fn eval_path(segs: Seq<SpecSegment>, v: SpecValue) -> Seq<SpecValue> {
    eval_segments(segs, seq![v])
}

/// The root path selects exactly the whole value, whatever the value is.
pub proof fn lemma_eval_root(v: SpecValue)
    ensures
        eval_path(Seq::empty(), v) =~= seq![v],
{
}

/// A missing field selects nothing: on a candidate that is not an object,
/// or is an object without the key, a field segment yields the empty
/// sequence rather than an error.
pub proof fn lemma_eval_missing_field(k: Seq<u8>, v: SpecValue)
    requires
        !(v matches SpecValue::Obj(es) && obj_lookup(es, k) matches Some(_)),
    ensures
        eval_path(seq![SpecSegment::Field(k)], v) =~= Seq::<SpecValue>::empty(),
{
    let segs = seq![SpecSegment::Field(k)];
    let cs = seq![v];
    let e = Seq::<SpecValue>::empty();
    assert(eval_one(segs[0], v) =~= e);
    assert(cs.drop_first() =~= e);
    assert(eval_seg(segs[0], e) == e);
    assert(eval_seg(segs[0], cs) =~= e);
    assert(segs.drop_first() =~= Seq::<SpecSegment>::empty());
    assert(eval_segments(Seq::<SpecSegment>::empty(), e) == e);
    assert(eval_segments(segs, cs) =~= e);
}

/// A missing index selects nothing: on a candidate that is not an array, or
/// an array that is too short, an index segment yields the empty sequence
/// rather than an error.
pub proof fn lemma_eval_missing_index(i: int, v: SpecValue)
    requires
        !(v matches SpecValue::Arr(xs) && 0 <= i < xs.len()),
    ensures
        eval_path(seq![SpecSegment::Index(i)], v) =~= Seq::<SpecValue>::empty(),
{
    let segs = seq![SpecSegment::Index(i)];
    let cs = seq![v];
    let e = Seq::<SpecValue>::empty();
    assert(eval_one(segs[0], v) =~= e);
    assert(cs.drop_first() =~= e);
    assert(eval_seg(segs[0], e) == e);
    assert(eval_seg(segs[0], cs) =~= e);
    assert(segs.drop_first() =~= Seq::<SpecSegment>::empty());
    assert(eval_segments(Seq::<SpecSegment>::empty(), e) == e);
    assert(eval_segments(segs, cs) =~= e);
}

/// Selecting from one more candidate appends that candidate's sub-values.
proof fn lemma_eval_seg_push(seg: SpecSegment, cs: Seq<SpecValue>, c: SpecValue)
    ensures
        eval_seg(seg, cs.push(c)) == eval_seg(seg, cs) + eval_one(seg, c),
    decreases cs.len(),
{
    if cs.len() == 0 {
        let e = Seq::<SpecValue>::empty();
        assert(cs.push(c).drop_first() =~= e);
        assert(eval_seg(seg, e) == e);
        assert(eval_seg(seg, cs.push(c)) =~= eval_one(seg, c));
        assert(eval_seg(seg, cs) + eval_one(seg, c) =~= eval_one(seg, c));
    } else {
        assert(cs.push(c).drop_first() =~= cs.drop_first().push(c));
        lemma_eval_seg_push(seg, cs.drop_first(), c);
        assert(eval_seg(seg, cs.push(c)) =~= eval_seg(seg, cs) + eval_one(seg, c));
    }
}

/// Looks up `k` among the entries of an object, returning the first match.
pub fn obj_get<'a>(entries: &'a Vec<(Vec<u8>, Value)>, k: &[u8]) -> (r: Option<&'a Value>)
    ensures
        match r {
            Some(x) => obj_lookup(obj_view(entries@), k@) == Some(x@),
            None => obj_lookup(obj_view(entries@), k@) is None,
        },
{
    let ghost es = obj_view(entries@);
    proof {
        assert(es.skip(0) =~= es);
    }
    let n = entries.len();
    let mut j: usize = 0;
    while j < n
        invariant
            es == obj_view(entries@),
            n == entries@.len(),
            es.len() == n,
            0 <= j <= n,
            obj_lookup(es, k@) == obj_lookup(es.skip(j as int), k@),
        decreases n - j,
    {
        proof {
            assert(entries@[j as int].0@ == es[j as int].0);
            assert(entries@[j as int].1@ == es[j as int].1);
            assert(es.skip(j as int)[0] == es[j as int]);
        }
        if bytes_eq(entries[j].0.as_slice(), k) {
            proof {
                assert(obj_lookup(es.skip(j as int), k@) == Some(es[j as int].1));
            }
            return Some(&entries[j].1);
        }
        proof {
            assert(es.skip(j as int).drop_first() =~= es.skip(j as int + 1));
        }
        j += 1;
    }
    proof {
        assert(es.skip(n as int) =~= Seq::<(Seq<u8>, SpecValue)>::empty());
    }
    None
}

/// Appends to `out` copies of the sub-values `seg` selects from `c`.
fn apply_segment(seg: &Segment, c: &Value, out: &mut Vec<Value>)
    ensures
        arr_view(final(out)@) == arr_view(old(out)@) + eval_one(seg@, c@),
{
    let ghost sel = eval_one(seg@, c@);
    match seg {
        Segment::Field(k) => {
            match c {
                Value::Obj(entries) => {
                    match obj_get(entries, k.as_slice()) {
                        Some(x) => {
                            let copy = x.deep_copy();
                            out.push(copy);
                            proof {
                                assert(sel =~= seq![x@]);
                                assert(arr_view(out@) =~= arr_view(old(out)@) + sel);
                            }
                        },
                        None => {
                            proof {
                                assert(sel =~= Seq::<SpecValue>::empty());
                                assert(arr_view(out@) =~= arr_view(old(out)@) + sel);
                            }
                        },
                    }
                },
                _ => {
                    proof {
                        assert(sel =~= Seq::<SpecValue>::empty());
                        assert(arr_view(out@) =~= arr_view(old(out)@) + sel);
                    }
                },
            }
        },
        Segment::Index(i) => {
            match c {
                Value::Arr(items) => {
                    if *i < items.len() {
                        let copy = items[*i].deep_copy();
                        out.push(copy);
                        proof {
                            let xs = arr_view(items@);
                            assert(xs[*i as int] == items@[*i as int]@);
                            assert(sel =~= seq![items@[*i as int]@]);
                            assert(arr_view(out@) =~= arr_view(old(out)@) + sel);
                        }
                    } else {
                        proof {
                            assert(sel =~= Seq::<SpecValue>::empty());
                            assert(arr_view(out@) =~= arr_view(old(out)@) + sel);
                        }
                    }
                },
                _ => {
                    proof {
                        assert(sel =~= Seq::<SpecValue>::empty());
                        assert(arr_view(out@) =~= arr_view(old(out)@) + sel);
                    }
                },
            }
        },
        Segment::Wildcard => {
            match c {
                Value::Arr(items) => {
                    let n = items.len();
                    let mut t: usize = 0;
                    while t < n
                        invariant
                            n == items@.len(),
                            0 <= t <= n,
                            c matches Value::Arr(xs) && xs == *items,
                            sel == eval_one(seg@, c@),
                            seg@ is Wildcard,
                            sel == arr_view(items@),
                            out@.len() == old(out)@.len() + t,
                            forall|q: int|
                                0 <= q < old(out)@.len() ==> (#[trigger] out@[q])@ == old(
                                    out,
                                )@[q]@,
                            forall|q: int|
                                old(out)@.len() <= q < out@.len() ==> (#[trigger] out@[q])@
                                    == items@[q - old(out)@.len()]@,
                        decreases n - t,
                    {
                        let copy = items[t].deep_copy();
                        out.push(copy);
                        t += 1;
                    }
                    proof {
                        assert(arr_view(out@) =~= arr_view(old(out)@) + sel);
                    }
                },
                Value::Obj(entries) => {
                    let n = entries.len();
                    let mut t: usize = 0;
                    while t < n
                        invariant
                            n == entries@.len(),
                            0 <= t <= n,
                            c matches Value::Obj(es) && es == *entries,
                            sel == eval_one(seg@, c@),
                            seg@ is Wildcard,
                            sel == Seq::new(obj_view(entries@).len(), |q: int| obj_view(entries@)[q].1),
                            out@.len() == old(out)@.len() + t,
                            forall|q: int|
                                0 <= q < old(out)@.len() ==> (#[trigger] out@[q])@ == old(
                                    out,
                                )@[q]@,
                            forall|q: int|
                                old(out)@.len() <= q < out@.len() ==> (#[trigger] out@[q])@
                                    == entries@[q - old(out)@.len()].1@,
                        decreases n - t,
                    {
                        let copy = entries[t].1.deep_copy();
                        out.push(copy);
                        t += 1;
                    }
                    proof {
                        assert(arr_view(out@) =~= arr_view(old(out)@) + sel);
                    }
                },
                _ => {
                    proof {
                        assert(sel =~= Seq::<SpecValue>::empty());
                        assert(arr_view(out@) =~= arr_view(old(out)@) + sel);
                    }
                },
            }
        },
    }
}

impl Path {
    /// Evaluates the path against a value, yielding copies of the selected
    /// sub-values, depth first and left to right.
    pub fn evaluate(&self, v: &Value) -> (r: Vec<Value>)
        ensures
            arr_view(r@) == eval_path(self@, v@),
    {
        let mut current: Vec<Value> = Vec::new();
        current.push(v.deep_copy());
        proof {
            assert(arr_view(current@) =~= seq![v@]);
            assert(self@.skip(0) =~= self@);
        }
        let n = self.segments.len();
        let mut s: usize = 0;
        while s < n
            invariant
                n == self.segments@.len(),
                self@.len() == n,
                0 <= s <= n,
                eval_segments(self@.skip(s as int), arr_view(current@)) == eval_path(self@, v@),
            decreases n - s,
        {
            let seg = &self.segments[s];
            let ghost cs = arr_view(current@);
            let mut next: Vec<Value> = Vec::new();
            let m = current.len();
            let mut t: usize = 0;
            proof {
                assert(arr_view(next@) =~= Seq::<SpecValue>::empty());
                assert(eval_seg(seg@, cs.take(0)) =~= Seq::<SpecValue>::empty()) by {
                    assert(cs.take(0) =~= Seq::<SpecValue>::empty());
                }
            }
            while t < m
                invariant
                    m == current@.len(),
                    cs == arr_view(current@),
                    0 <= t <= m,
                    seg == &self.segments@[s as int],
                    s < self.segments@.len(),
                    arr_view(next@) == eval_seg(seg@, cs.take(t as int)),
                decreases m - t,
            {
                proof {
                    assert(cs[t as int] == current@[t as int]@);
                }
                apply_segment(seg, &current[t], &mut next);
                proof {
                    assert(cs.take(t as int).push(cs[t as int]) =~= cs.take(t as int + 1));
                    lemma_eval_seg_push(seg@, cs.take(t as int), cs[t as int]);
                }
                t += 1;
            }
            proof {
                assert(cs.take(m as int) =~= cs);
                assert(self@.skip(s as int)[0] == self@[s as int]);
                assert(self@[s as int] == self.segments@[s as int]@);
                assert(self@.skip(s as int).drop_first() =~= self@.skip(s as int + 1));
            }
            current = next;
            s += 1;
        }
        proof {
            assert(self@.skip(n as int) =~= Seq::<SpecSegment>::empty());
        }
        current
    }
}

} // verus!

verus! {

/// Why a path failed to parse: empty input, input that does not start with
/// the root marker, or an unparseable segment at the given position.
#[derive(Debug)]
pub enum PathError {
    Empty,
    MissingRoot,
    BadSegment(usize),
}

/// The canonical text of one segment: `.name` for a field, `[i]` for an
/// index, `.*` for the wildcard.
pub open spec fn seg_text(s: SpecSegment) -> Seq<u8> {
    match s {
        SpecSegment::Field(k) => seq![0x2eu8] + k,
        SpecSegment::Index(i) => seq![0x5bu8] + crate::json::dec_digits(i) + seq![0x5du8],
        SpecSegment::Wildcard => seq![0x2eu8, 0x2au8],
    }
}

/// The concatenated text of a segment list.
pub open spec fn segs_text(segs: Seq<SpecSegment>) -> Seq<u8>
    decreases segs.len(),
{
    if segs.len() == 0 {
        Seq::empty()
    } else {
        segs_text(segs.drop_last()) + seg_text(segs.last())
    }
}

/// The canonical text of a whole path: the root marker, then each segment.
pub open spec fn path_text(segs: Seq<SpecSegment>) -> Seq<u8> {
    seq![0x24u8] + segs_text(segs)
}

/// A byte that may stand in a field name: anything but the bytes that
/// delimit segments.
pub open spec fn is_ident_byte(b: u8) -> bool {
    b != 0x2e && b != 0x5b && b != 0x5d && b != 0x2a
}

impl Path {
    /// Appends the canonical text of the path to `out`.
    pub fn render_into(&self, out: &mut Vec<u8>)
        ensures
            final(out)@ == old(out)@ + path_text(self@),
    {
        out.push(0x24);
        let n = self.segments.len();
        let mut i: usize = 0;
        proof {
            assert(segs_text(self@.take(0)) =~= Seq::<u8>::empty()) by {
                assert(self@.take(0) =~= Seq::<SpecSegment>::empty());
            }
            assert(out@ =~= old(out)@ + seq![0x24u8] + segs_text(self@.take(0)));
        }
        while i < n
            invariant
                n == self.segments@.len(),
                self@.len() == n,
                0 <= i <= n,
                out@ == old(out)@ + seq![0x24u8] + segs_text(self@.take(i as int)),
            decreases n - i,
        {
            let ghost pre = out@;
            match &self.segments[i] {
                Segment::Field(k) => {
                    out.push(0x2e);
                    let m = k.len();
                    let mut t: usize = 0;
                    while t < m
                        invariant
                            m == k@.len(),
                            0 <= t <= m,
                            out@ == pre + seq![0x2eu8] + k@.take(t as int),
                        decreases m - t,
                    {
                        out.push(k[t]);
                        proof {
                            assert(k@.take(t + 1) =~= k@.take(t as int).push(k@[t as int]));
                            assert(out@ =~= pre + seq![0x2eu8] + k@.take(t + 1));
                        }
                        t += 1;
                    }
                    proof {
                        assert(k@.take(m as int) =~= k@);
                    }
                },
                Segment::Index(ix) => {
                    out.push(0x5b);
                    crate::json::push_digits(*ix as u64, out);
                    out.push(0x5d);
                },
                Segment::Wildcard => {
                    out.push(0x2e);
                    out.push(0x2a);
                },
            }
            proof {
                assert(self.segments@[i as int]@ == self@[i as int]);
                assert(out@ =~= pre + seg_text(self@[i as int]));
                assert(self@.take(i + 1).drop_last() =~= self@.take(i as int));
                assert(self@.take(i + 1).last() == self@[i as int]);
                assert(out@ =~= old(out)@ + seq![0x24u8] + segs_text(self@.take(i + 1)));
            }
            i += 1;
        }
        proof {
            assert(self@.take(n as int) =~= self@);
        }
    }

    /// The canonical text of the path.
    pub fn render(&self) -> (r: Vec<u8>)
        ensures
            r@ == path_text(self@),
    {
        let mut out: Vec<u8> = Vec::new();
        self.render_into(&mut out);
        proof {
            assert(out@ =~= path_text(self@));
        }
        out
    }

}

/// The end of the run of field-name bytes starting at `pos`.
pub open spec fn ident_end(text: Seq<u8>, pos: int) -> int
    decreases text.len() - pos,
{
    if 0 <= pos < text.len() && is_ident_byte(text[pos]) {
        ident_end(text, pos + 1)
    } else {
        pos
    }
}

/// Reads the segments of a path from `pos` on, appending to `acc`: `.name`,
/// `[index]` (at most nine digits, no superfluous leading zero), or `.*`,
/// until the end of the text. This function is the grammar the executable
/// path parser is held to.
pub open spec fn read_segments(text: Seq<u8>, pos: int, acc: Seq<SpecSegment>) -> Option<
    Seq<SpecSegment>,
>
    decreases text.len() - pos,
{
    let len = text.len() as int;
    if !(0 <= pos) {
        None
    } else if pos >= len {
        Some(acc)
    } else if text[pos] == 0x2e {
        if pos + 1 >= len {
            None
        } else if text[pos + 1] == 0x2a {
            read_segments(text, pos + 2, acc.push(SpecSegment::Wildcard))
        } else {
            let e = ident_end(text, pos + 1);
            if pos + 1 < e <= len {
                read_segments(text, e, acc.push(SpecSegment::Field(text.subrange(pos + 1, e))))
            } else {
                None
            }
        }
    } else if text[pos] == 0x5b {
        if pos + 1 >= len || !crate::json::is_digit_byte(text[pos + 1]) {
            None
        } else {
            let dend = if text[pos + 1] == 0x30 {
                pos + 2
            } else {
                crate::json::digits_end(text, pos + 1)
            };
            if dend - (pos + 1) > 9 {
                None
            } else if !(pos + 1 < dend <= len) {
                None
            } else if dend < len && text[dend] == 0x5d {
                read_segments(
                    text,
                    dend + 1,
                    acc.push(SpecSegment::Index(crate::json::digits_val(text, pos + 1, dend))),
                )
            } else {
                None
            }
        }
    } else {
        None
    }
}

/// The reading of a whole textual path: the root marker, then segments to
/// the end of the text.
pub open spec fn read_path(text: Seq<u8>) -> Option<Seq<SpecSegment>> {
    if text.len() == 0 {
        None
    } else if text[0] != 0x24 {
        None
    } else {
        read_segments(text, 1, Seq::empty())
    }
}

/// The end of the run of field-name bytes starting at `start`.
fn ident_run(text: &[u8], start: usize) -> (r: usize)
    requires
        start <= text@.len(),
    ensures
        start <= r <= text@.len(),
        r as int == ident_end(text@, start as int),
{
    let n = text.len();
    let mut p = start;
    while p < n
        invariant
            start <= p <= n,
            n == text@.len(),
            ident_end(text@, start as int) == ident_end(text@, p as int),
        decreases n - p,
    {
        let b = text[p];
        if b == 0x2e || b == 0x5b || b == 0x5d || b == 0x2a {
            proof {
                assert(ident_end(text@, p as int) == p as int);
            }
            return p;
        }
        proof {
            assert(ident_end(text@, p as int) == ident_end(text@, p + 1));
        }
        p += 1;
    }
    proof {
        assert(ident_end(text@, n as int) == n as int);
    }
    p
}

/// Every byte of a field-name run may stand in a field name.
proof fn lemma_ident_run(text: Seq<u8>, pos: int)
    requires
        0 <= pos,
    ensures
        pos <= ident_end(text, pos),
        forall|k: int| pos <= k < ident_end(text, pos) ==> is_ident_byte(#[trigger] text[k]),
    decreases text.len() - pos,
{
    if 0 <= pos < text.len() && is_ident_byte(text[pos]) {
        lemma_ident_run(text, pos + 1);
    }
}

impl Path {
    /// Parses a textual path. The text must start with the root marker `$`,
    /// followed by segments `.name`, `[index]` (at most nine digits, no
    /// superfluous leading zero), or `.*`. The result is exactly the
    /// reading [`read_path`] gives the text, and parsing succeeds exactly
    /// when that reading exists; on success the parsed path renders back to
    /// exactly the given text. Empty input and input without the root
    /// marker are the two errors named for them.
    pub fn parse(text: &[u8]) -> (r: Result<Path, PathError>)
        ensures
            r matches Ok(p) ==> read_path(text@) == Some(p@) && path_text(p@) == text@,
            (r is Ok) <==> (read_path(text@) is Some),
            (text@.len() == 0) <==> (r matches Err(e) && e is Empty),
            (text@.len() > 0 && text@[0] != 0x24) <==> (r matches Err(e) && e is MissingRoot),
    {
        let n = text.len();
        if n == 0 {
            return Err(PathError::Empty);
        }
        if text[0] != 0x24 {
            return Err(PathError::MissingRoot);
        }
        let mut segments: Vec<Segment> = Vec::new();
        let mut pos: usize = 1;
        proof {
            assert(segs_view(segments@) =~= Seq::<SpecSegment>::empty());
            assert(segs_text(segs_view(segments@)) =~= Seq::<u8>::empty());
            assert(path_text(segs_view(segments@)) =~= text@.take(1));
        }
        while pos < n
            invariant
                1 <= pos <= n,
                n == text@.len(),
                text@[0] == 0x24,
                path_text(segs_view(segments@)) == text@.take(pos as int),
                (match read_segments(text@, pos as int, segs_view(segments@)) {
                    Some(segs) => read_path(text@) == Some(segs),
                    None => read_path(text@) is None,
                }),
            decreases n - pos,
        {
            let ghost svs = segs_view(segments@);
            if text[pos] == 0x2e {
                if pos + 1 >= n {
                    return Err(PathError::BadSegment(pos));
                }
                if text[pos + 1] == 0x2a {
                    segments.push(Segment::Wildcard);
                    proof {
                        let s = SpecSegment::Wildcard;
                        assert(segs_view(segments@) =~= svs.push(s));
                        assert(svs.push(s).drop_last() =~= svs);
                        assert(seg_text(s) =~= text@.subrange(pos as int, pos + 2));
                        assert(text@.take(pos + 2) =~= text@.take(pos as int) + text@.subrange(
                            pos as int,
                            pos + 2,
                        ));
                        assert(path_text(segs_view(segments@)) =~= text@.take(pos + 2));
                    }
                    pos += 2;
                } else {
                    let start = pos + 1;
                    let end = ident_run(text, start);
                    if end == start {
                        return Err(PathError::BadSegment(pos));
                    }
                    let mut key: Vec<u8> = Vec::new();
                    let mut t = start;
                    while t < end
                        invariant
                            start <= t <= end <= n,
                            n == text@.len(),
                            key@ == text@.subrange(start as int, t as int),
                        decreases end - t,
                    {
                        key.push(text[t]);
                        proof {
                            assert(text@.subrange(start as int, t + 1) =~= text@.subrange(
                                start as int,
                                t as int,
                            ).push(text@[t as int]));
                        }
                        t += 1;
                    }
                    let ghost kv = key@;
                    segments.push(Segment::Field(key));
                    proof {
                        let s = SpecSegment::Field(kv);
                        assert(segs_view(segments@) =~= svs.push(s));
                        assert(svs.push(s).drop_last() =~= svs);
                        assert(seg_text(s) =~= text@.subrange(pos as int, end as int));
                        assert(text@.take(end as int) =~= text@.take(pos as int) + text@.subrange(
                            pos as int,
                            end as int,
                        ));
                        assert(path_text(segs_view(segments@)) =~= text@.take(end as int));
                    }
                    pos = end;
                }
            } else if text[pos] == 0x5b {
                if pos + 1 >= n {
                    return Err(PathError::BadSegment(pos));
                }
                let d0 = text[pos + 1];
                if !(0x30 <= d0 && d0 <= 0x39) {
                    return Err(PathError::BadSegment(pos + 1));
                }
                let p1 = pos + 1;
                let dend: usize = if d0 == 0x30 {
                    p1 + 1
                } else {
                    crate::json::digits_run(text, p1)
                };
                proof {
                    crate::json::lemma_digits_run(text@, p1 as int);
                    crate::json::lemma_digits_run(text@, p1 + 1);
                    assert(crate::json::digits_end(text@, p1 as int) == crate::json::digits_end(
                        text@,
                        p1 + 1,
                    ));
                }
                if dend - p1 > 9 {
                    return Err(PathError::BadSegment(dend));
                }
                let mut val: usize = 0;
                let mut q = p1;
                proof {
                    assert(crate::json::dec_digits(0) =~= seq![0x30u8]);
                }
                while q < dend
                    invariant
                        p1 <= q <= dend <= n,
                        n == text@.len(),
                        dend - p1 <= 9,
                        d0 == text@[p1 as int],
                        crate::json::is_digit_byte(d0),
                        d0 == 0x30 ==> dend == p1 + 1,
                        d0 != 0x30 ==> dend as int == crate::json::digits_end(text@, p1 as int),
                        forall|k: int|
                            p1 <= k < dend ==> crate::json::is_digit_byte(#[trigger] text@[k]),
                        val as int == crate::json::digits_val(text@, p1 as int, q as int),
                        (val as int) < crate::json::ten_pow((q - p1) as nat),
                        q > p1 ==> crate::json::dec_digits(val as int) == text@.subrange(
                            p1 as int,
                            q as int,
                        ),
                        q > p1 && d0 != 0x30 ==> val >= 1,
                    decreases dend - q,
                {
                    let b = text[q];
                    proof {
                        reveal_with_fuel(crate::json::ten_pow, 11);
                        crate::json::lemma_ten_pow_mono((q - p1) as nat, 8);
                        assert((val as int) * 10 <= (crate::json::ten_pow((q - p1) as nat) - 1)
                            * 10);
                        assert(crate::json::ten_pow(((q - p1) + 1) as nat) == 10
                            * crate::json::ten_pow((q - p1) as nat));
                    }
                    let d = (b - 0x30) as usize;
                    proof {
                        let v = val as int;
                        let di = d as int;
                        if q > p1 {
                            assert(v >= 1);
                            assert(v * 10 + di >= 10) by (nonlinear_arith)
                                requires
                                    v >= 1,
                                    di >= 0,
                            ;
                            assert((v * 10 + di) / 10 == v && (v * 10 + di) % 10 == di)
                                by (nonlinear_arith)
                                requires
                                    v >= 1,
                                    0 <= di <= 9,
                            ;
                            assert(crate::json::dec_digits(v * 10 + di) =~= crate::json::dec_digits(
                                v,
                            ).push((0x30 + di) as u8));
                            assert(text@.subrange(p1 as int, q + 1) =~= text@.subrange(
                                p1 as int,
                                q as int,
                            ).push(text@[q as int]));
                        } else {
                            assert(crate::json::dec_digits(di) =~= seq![(0x30 + di) as u8]);
                            assert(text@.subrange(p1 as int, p1 + 1) =~= seq![text@[p1 as int]]);
                        }
                        assert(crate::json::digits_val(text@, p1 as int, q + 1)
                            == crate::json::digits_val(text@, p1 as int, q as int) * 10 + ((
                        text@[q as int] as int) - 0x30));
                    }
                    val = val * 10 + d;
                    q += 1;
                }
                if !(q < n && text[q] == 0x5d) {
                    return Err(PathError::BadSegment(q));
                }
                segments.push(Segment::Index(val));
                proof {
                    let s = SpecSegment::Index(val as int);
                    assert(segs_view(segments@) =~= svs.push(s));
                    assert(svs.push(s).drop_last() =~= svs);
                    assert(seg_text(s) =~= text@.subrange(pos as int, q + 1));
                    assert(text@.take(q + 1) =~= text@.take(pos as int) + text@.subrange(
                        pos as int,
                        q + 1,
                    ));
                    assert(path_text(segs_view(segments@)) =~= text@.take(q + 1));
                }
                pos = q + 1;
            } else {
                return Err(PathError::BadSegment(pos));
            }
        }
        proof {
            assert(text@.take(n as int) =~= text@);
            assert(read_segments(text@, n as int, segs_view(segments@)) == Some(
                segs_view(segments@),
            ));
        }
        Ok(Path { segments })
    }
}

} // verus!
