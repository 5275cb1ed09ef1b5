//! The JSON-like value model: null, boolean, integer number, byte string,
//! ordered array, and object (ordered mapping with unique byte-string keys).

use vstd::prelude::*;

verus! {

/// Mathematical model of a [`Value`]: the same tree with `Seq` in place of
/// `Vec` and `int` in place of the machine integer.
#[verifier::ext_equal]
pub enum SpecValue {
    Null,
    Bool(bool),
    Num(int),
    Str(Seq<u8>),
    Arr(Seq<SpecValue>),
    Obj(Seq<(Seq<u8>, SpecValue)>),
}

/// A JSON-like value. Strings are byte strings (UTF-8 text is carried
/// through unchanged); numbers are 64-bit signed integers; objects keep
/// insertion order and are well formed only with pairwise distinct keys.
pub enum Value {
    Null,
    Bool(bool),
    Num(i64),
    Str(Vec<u8>),
    Arr(Vec<Value>),
    Obj(Vec<(Vec<u8>, Value)>),
}

/// The element-wise view of an array's items.
pub open spec fn arr_view(items: Seq<Value>) -> Seq<SpecValue>
    decreases items,
{
    Seq::new(
        items.len(),
        |i: int|
            if 0 <= i < items.len() {
                items[i]@
            } else {
                SpecValue::Null
            },
    )
}

/// The entry-wise view of an object's entries.
pub open spec fn obj_view(entries: Seq<(Vec<u8>, Value)>) -> Seq<(Seq<u8>, SpecValue)>
    decreases entries,
{
    Seq::new(
        entries.len(),
        |i: int|
            if 0 <= i < entries.len() {
                (entries[i].0@, entries[i].1@)
            } else {
                (Seq::<u8>::empty(), SpecValue::Null)
            },
    )
}

impl View for Value {
    type V = SpecValue;

    open spec fn view(&self) -> SpecValue
        decreases self,
    {
        match self {
            Value::Null => SpecValue::Null,
            Value::Bool(b) => SpecValue::Bool(*b),
            Value::Num(n) => SpecValue::Num(*n as int),
            Value::Str(s) => SpecValue::Str(s@),
            Value::Arr(items) => SpecValue::Arr(arr_view(items@)),
            Value::Obj(entries) => SpecValue::Obj(obj_view(entries@)),
        }
    }
}

/// The entry `e` has a match among the entries `ys`: an entry with the same
/// key whose value is structurally equal to `e`'s.
pub open spec fn entry_matches_in(e: (Seq<u8>, SpecValue), ys: Seq<(Seq<u8>, SpecValue)>) -> bool
    decreases e,
{
    exists|j: int| 0 <= j < ys.len() && (#[trigger] ys[j]).0 == e.0 && eq_value(e.1, ys[j].1)
}

/// The entry `e` is matched by some entry of `xs`: one with the same key
/// whose value is structurally equal, the comparison oriented from `xs`.
pub open spec fn entry_matched_by(e: (Seq<u8>, SpecValue), xs: Seq<(Seq<u8>, SpecValue)>) -> bool
    decreases xs,
{
    exists|i: int| 0 <= i < xs.len() && (#[trigger] xs[i]).0 == e.0 && eq_value(xs[i].1, e.1)
}

/// Structural equality of two values. Arrays are compared element-wise in
/// order; objects by key set and per-key value, regardless of insertion
/// order; numbers numerically; strings byte for byte. Both object clauses
/// orient the inner comparison from `a`'s side, which keeps the definition
/// well founded; [`lemma_eq_value_symmetric`] shows the relation is
/// nevertheless symmetric.
pub open spec fn eq_value(a: SpecValue, b: SpecValue) -> bool
    decreases a,
{
    match (a, b) {
        (SpecValue::Null, SpecValue::Null) => true,
        (SpecValue::Bool(x), SpecValue::Bool(y)) => x == y,
        (SpecValue::Num(x), SpecValue::Num(y)) => x == y,
        (SpecValue::Str(x), SpecValue::Str(y)) => x == y,
        (SpecValue::Arr(x), SpecValue::Arr(y)) => x.len() == y.len() && (forall|i: int|
            0 <= i < x.len() ==> eq_value(#[trigger] x[i], y[i])),
        (SpecValue::Obj(x), SpecValue::Obj(y)) => x.len() == y.len() && (forall|i: int|
            0 <= i < x.len() ==> entry_matches_in(#[trigger] x[i], y)) && (forall|j: int|
            0 <= j < y.len() ==> entry_matched_by(#[trigger] y[j], x)),
        _ => false,
    }
}

/// A value is well formed when every object in it has pairwise distinct keys.
pub open spec fn wf_value(v: SpecValue) -> bool
    decreases v,
{
    match v {
        SpecValue::Arr(x) => forall|i: int| 0 <= i < x.len() ==> wf_value(#[trigger] x[i]),
        SpecValue::Obj(x) => (forall|i: int, j: int|
            0 <= i < j < x.len() ==> (#[trigger] x[i]).0 != (#[trigger] x[j]).0) && (forall|i: int|
            0 <= i < x.len() ==> wf_value((#[trigger] x[i]).1)),
        _ => true,
    }
}

/// Structural equality is reflexive: every value equals itself.
pub proof fn lemma_eq_value_reflexive(v: SpecValue)
    ensures
        eq_value(v, v),
    decreases v,
{
    match v {
        SpecValue::Arr(x) => {
            assert forall|i: int| 0 <= i < x.len() implies eq_value(#[trigger] x[i], x[i]) by {
                lemma_eq_value_reflexive(x[i]);
            }
        },
        SpecValue::Obj(x) => {
            assert forall|i: int| 0 <= i < x.len() implies entry_matches_in(
                #[trigger] x[i],
                x,
            ) by {
                lemma_eq_value_reflexive(x[i].1);
                assert((#[trigger] x[i]).0 == x[i].0 && eq_value(x[i].1, x[i].1));
            }
            assert forall|j: int| 0 <= j < x.len() implies entry_matched_by(
                #[trigger] x[j],
                x,
            ) by {
                lemma_eq_value_reflexive(x[j].1);
                assert((#[trigger] x[j]).0 == x[j].0 && eq_value(x[j].1, x[j].1));
            }
        },
        _ => {},
    }
}

/// Structural equality is symmetric.
pub proof fn lemma_eq_value_symmetric(a: SpecValue, b: SpecValue)
    ensures
        eq_value(a, b) == eq_value(b, a),
    decreases a,
{
    match (a, b) {
        (SpecValue::Arr(x), SpecValue::Arr(y)) => {
            if x.len() == y.len() {
                assert forall|i: int| 0 <= i < x.len() implies eq_value(
                    #[trigger] x[i],
                    y[i],
                ) == eq_value(y[i], x[i]) by {
                    lemma_eq_value_symmetric(x[i], y[i]);
                }
            }
        },
        (SpecValue::Obj(x), SpecValue::Obj(y)) => {
            if x.len() == y.len() {
                assert forall|i: int, j: int|
                    0 <= i < x.len() && 0 <= j < y.len() implies eq_value(
                    (#[trigger] x[i]).1,
                    (#[trigger] y[j]).1,
                ) == eq_value(y[j].1, x[i].1) by {
                    lemma_eq_value_symmetric(x[i].1, y[j].1);
                }
                assert forall|i: int|
                    0 <= i < x.len() && entry_matches_in(#[trigger] x[i], y) implies entry_matched_by(
                    x[i],
                    y,
                ) by {
                    let j = choose|j: int|
                        0 <= j < y.len() && (#[trigger] y[j]).0 == x[i].0 && eq_value(
                            x[i].1,
                            y[j].1,
                        );
                    assert(0 <= j < y.len() && (#[trigger] y[j]).0 == x[i].0 && eq_value(
                        y[j].1,
                        x[i].1,
                    ));
                }
                assert forall|i: int|
                    0 <= i < x.len() && entry_matched_by(#[trigger] x[i], y) implies entry_matches_in(
                    x[i],
                    y,
                ) by {
                    let j = choose|j: int|
                        0 <= j < y.len() && (#[trigger] y[j]).0 == x[i].0 && eq_value(
                            y[j].1,
                            x[i].1,
                        );
                    assert(0 <= j < y.len() && (#[trigger] y[j]).0 == x[i].0 && eq_value(
                        x[i].1,
                        y[j].1,
                    ));
                }
                assert forall|j: int|
                    0 <= j < y.len() && entry_matches_in(#[trigger] y[j], x) implies entry_matched_by(
                    y[j],
                    x,
                ) by {
                    let i = choose|i: int|
                        0 <= i < x.len() && (#[trigger] x[i]).0 == y[j].0 && eq_value(
                            y[j].1,
                            x[i].1,
                        );
                    lemma_eq_value_symmetric(x[i].1, y[j].1);
                    assert(0 <= i < x.len() && (#[trigger] x[i]).0 == y[j].0 && eq_value(
                        x[i].1,
                        y[j].1,
                    ));
                }
                assert forall|j: int|
                    0 <= j < y.len() && entry_matched_by(#[trigger] y[j], x) implies entry_matches_in(
                    y[j],
                    x,
                ) by {
                    let i = choose|i: int|
                        0 <= i < x.len() && (#[trigger] x[i]).0 == y[j].0 && eq_value(
                            x[i].1,
                            y[j].1,
                        );
                    lemma_eq_value_symmetric(x[i].1, y[j].1);
                    assert(0 <= i < x.len() && (#[trigger] x[i]).0 == y[j].0 && eq_value(
                        y[j].1,
                        x[i].1,
                    ));
                }
            }
        },
        _ => {},
    }
}

/// Structural equality of objects is insensitive to key order: two objects
/// of the same length whose entry sets are identical are structurally equal.
pub proof fn lemma_eq_value_key_order(x: Seq<(Seq<u8>, SpecValue)>, y: Seq<(Seq<u8>, SpecValue)>)
    requires
        x.len() == y.len(),
        x.to_set() == y.to_set(),
    ensures
        eq_value(SpecValue::Obj(x), SpecValue::Obj(y)),
{
    assert forall|i: int| 0 <= i < x.len() implies entry_matches_in(#[trigger] x[i], y) by {
        assert(x.to_set().contains(x[i]));
        assert(y.contains(x[i]));
        let j = choose|j: int| 0 <= j < y.len() && y[j] == x[i];
        lemma_eq_value_reflexive(x[i].1);
        assert(0 <= j < y.len() && (#[trigger] y[j]).0 == x[i].0 && eq_value(x[i].1, y[j].1));
    }
    assert forall|j: int| 0 <= j < y.len() implies entry_matched_by(#[trigger] y[j], x) by {
        assert(y.to_set().contains(y[j]));
        assert(x.contains(y[j]));
        let i = choose|i: int| 0 <= i < x.len() && x[i] == y[j];
        lemma_eq_value_reflexive(x[i].1);
        assert(0 <= i < x.len() && (#[trigger] x[i]).0 == y[j].0 && eq_value(x[i].1, y[j].1));
    }
}

/// Byte-string equality, decided by scanning.
pub fn bytes_eq(a: &[u8], b: &[u8]) -> (r: bool)
    ensures
        r == (a@ == b@),
{
    if a.len() != b.len() {
        assert(a@.len() != b@.len());
        return false;
    }
    let n = a.len();
    let mut i: usize = 0;
    while i < n
        invariant
            n == a@.len() == b@.len(),
            0 <= i <= n,
            forall|k: int| 0 <= k < i ==> a@[k] == b@[k],
        decreases n - i,
    {
        if a[i] != b[i] {
            return false;
        }
        i += 1;
    }
    proof {
        assert(a@ =~= b@);
    }
    true
}

impl Value {
    /// Decides structural equality of `self` and `other`.
    pub fn equals(&self, other: &Value) -> (r: bool)
        ensures
            r == eq_value(self@, other@),
        decreases *self, 2int,
    {
        match (self, other) {
            (Value::Null, Value::Null) => true,
            (Value::Bool(x), Value::Bool(y)) => x == y,
            (Value::Num(x), Value::Num(y)) => x == y,
            (Value::Str(x), Value::Str(y)) => bytes_eq(x.as_slice(), y.as_slice()),
            (Value::Arr(x), Value::Arr(y)) => self.arr_equals(other, x, y),
            (Value::Obj(x), Value::Obj(y)) => self.obj_equals(other, x, y),
            _ => {
                proof {
                    assert(!eq_value(self@, other@));
                }
                false
            },
        }
    }

    fn arr_equals(&self, other: &Value, x: &Vec<Value>, y: &Vec<Value>) -> (r: bool)
        requires
            *self matches Value::Arr(xx) && xx == *x,
            *other matches Value::Arr(yy) && yy == *y,
        ensures
            r == eq_value(self@, other@),
        decreases *self, 1int,
    {
        let ghost sx = arr_view(x@);
        let ghost sy = arr_view(y@);
        proof {
            assert(self@ == SpecValue::Arr(sx));
            assert(other@ == SpecValue::Arr(sy));
        }
        if x.len() != y.len() {
            return false;
        }
        let n = x.len();
        let mut i: usize = 0;
        while i < n
            invariant
                *self matches Value::Arr(xx) && xx == *x,
                *other matches Value::Arr(yy) && yy == *y,
                sx == arr_view(x@),
                sy == arr_view(y@),
                self@ == SpecValue::Arr(sx),
                other@ == SpecValue::Arr(sy),
                n == x@.len() == y@.len(),
                sx.len() == n,
                sy.len() == n,
                0 <= i <= n,
                forall|k: int| 0 <= k < i ==> eq_value(#[trigger] sx[k], sy[k]),
            decreases n - i,
        {
            proof {
                assert(x@[i as int]@ == sx[i as int]);
                assert(y@[i as int]@ == sy[i as int]);
            }
            if !x[i].equals(&y[i]) {
                return false;
            }
            i += 1;
        }
        true
    }

    fn obj_equals(
        &self,
        other: &Value,
        x: &Vec<(Vec<u8>, Value)>,
        y: &Vec<(Vec<u8>, Value)>,
    ) -> (r: bool)
        requires
            *self matches Value::Obj(xx) && xx == *x,
            *other matches Value::Obj(yy) && yy == *y,
        ensures
            r == eq_value(self@, other@),
        decreases *self, 1int,
    {
        let ghost sx = obj_view(x@);
        let ghost sy = obj_view(y@);
        proof {
            assert(self@ == SpecValue::Obj(sx));
            assert(other@ == SpecValue::Obj(sy));
        }
        if x.len() != y.len() {
            return false;
        }
        let n = x.len();
        let mut i: usize = 0;
        while i < n
            invariant
                *self matches Value::Obj(xx) && xx == *x,
                *other matches Value::Obj(yy) && yy == *y,
                sx == obj_view(x@),
                sy == obj_view(y@),
                self@ == SpecValue::Obj(sx),
                other@ == SpecValue::Obj(sy),
                n == x@.len() == y@.len(),
                sx.len() == n,
                sy.len() == n,
                0 <= i <= n,
                forall|k: int| 0 <= k < i ==> entry_matches_in(#[trigger] sx[k], sy),
            decreases n - i,
        {
            if !self.obj_entry_in(other, x, y, i, false) {
                return false;
            }
            i += 1;
        }
        let mut j: usize = 0;
        while j < n
            invariant
                *self matches Value::Obj(xx) && xx == *x,
                *other matches Value::Obj(yy) && yy == *y,
                sx == obj_view(x@),
                sy == obj_view(y@),
                self@ == SpecValue::Obj(sx),
                other@ == SpecValue::Obj(sy),
                n == x@.len() == y@.len(),
                sx.len() == n,
                sy.len() == n,
                0 <= j <= n,
                forall|k: int| 0 <= k < sx.len() ==> entry_matches_in(#[trigger] sx[k], sy),
                forall|k: int| 0 <= k < j ==> entry_matched_by(#[trigger] sy[k], sx),
            decreases n - j,
        {
            if !self.obj_entry_in(other, x, y, j, true) {
                return false;
            }
            j += 1;
        }
        true
    }

    /// When `from_y` is false, decides whether entry `i` of `x` has a match
    /// in `y` (same key, structurally equal value); when true, whether entry
    /// `i` of `y` is matched by some entry of `x`.
    fn obj_entry_in(
        &self,
        other: &Value,
        x: &Vec<(Vec<u8>, Value)>,
        y: &Vec<(Vec<u8>, Value)>,
        i: usize,
        from_y: bool,
    ) -> (r: bool)
        requires
            *self matches Value::Obj(xx) && xx == *x,
            *other matches Value::Obj(yy) && yy == *y,
            !from_y ==> i < x@.len(),
            from_y ==> i < y@.len(),
        ensures
            !from_y ==> r == entry_matches_in(obj_view(x@)[i as int], obj_view(y@)),
            from_y ==> r == entry_matched_by(obj_view(y@)[i as int], obj_view(x@)),
        decreases *self, 0int,
    {
        let ghost sx = obj_view(x@);
        let ghost sy = obj_view(y@);
        let m = if from_y {
            x.len()
        } else {
            y.len()
        };
        let mut j: usize = 0;
        while j < m
            invariant
                *self matches Value::Obj(xx) && xx == *x,
                *other matches Value::Obj(yy) && yy == *y,
                sx == obj_view(x@),
                sy == obj_view(y@),
                sx.len() == x@.len(),
                sy.len() == y@.len(),
                !from_y ==> i < x@.len() && m == y@.len(),
                from_y ==> i < y@.len() && m == x@.len(),
                0 <= j <= m,
                !from_y ==> forall|k: int|
                    0 <= k < j ==> !((#[trigger] sy[k]).0 == sx[i as int].0 && eq_value(
                        sx[i as int].1,
                        sy[k].1,
                    )),
                from_y ==> forall|k: int|
                    0 <= k < j ==> !((#[trigger] sx[k]).0 == sy[i as int].0 && eq_value(
                        sx[k].1,
                        sy[i as int].1,
                    )),
            decreases m - j,
        {
            if from_y {
                proof {
                    assert(x@[j as int].0@ == sx[j as int].0);
                    assert(x@[j as int].1@ == sx[j as int].1);
                    assert(y@[i as int].0@ == sy[i as int].0);
                    assert(y@[i as int].1@ == sy[i as int].1);
                }
                if bytes_eq(x[j].0.as_slice(), y[i].0.as_slice()) && x[j].1.equals(&y[i].1) {
                    assert(0 <= j < sx.len() && sx[j as int].0 == sy[i as int].0 && eq_value(
                        sx[j as int].1,
                        sy[i as int].1,
                    ));
                    return true;
                }
            } else {
                proof {
                    assert(y@[j as int].0@ == sy[j as int].0);
                    assert(y@[j as int].1@ == sy[j as int].1);
                    assert(x@[i as int].0@ == sx[i as int].0);
                    assert(x@[i as int].1@ == sx[i as int].1);
                }
                if bytes_eq(y[j].0.as_slice(), x[i].0.as_slice()) && x[i].1.equals(&y[j].1) {
                    assert(0 <= j < sy.len() && sy[j as int].0 == sx[i as int].0 && eq_value(
                        sx[i as int].1,
                        sy[j as int].1,
                    ));
                    return true;
                }
            }
            j += 1;
        }
        false
    }

    /// Builds a structurally identical copy of the value.
    pub fn deep_copy(&self) -> (r: Value)
        ensures
            r@ == self@,
        decreases *self,
    {
        match self {
            Value::Null => Value::Null,
            Value::Bool(b) => Value::Bool(*b),
            Value::Num(n) => Value::Num(*n),
            Value::Str(s) => Value::Str(copy_bytes(s.as_slice())),
            Value::Arr(items) => {
                let n = items.len();
                let mut out: Vec<Value> = Vec::new();
                let mut i: usize = 0;
                while i < n
                    invariant
                        *self matches Value::Arr(xs) && xs == *items,
                        n == items@.len(),
                        0 <= i <= n,
                        out@.len() == i,
                        forall|k: int| 0 <= k < i ==> (#[trigger] out@[k])@ == items@[k]@,
                    decreases n - i,
                {
                    let c = items[i].deep_copy();
                    out.push(c);
                    i += 1;
                }
                let r = Value::Arr(out);
                proof {
                    assert(arr_view(out@) =~= arr_view(items@));
                }
                r
            },
            Value::Obj(entries) => {
                let n = entries.len();
                let mut out: Vec<(Vec<u8>, Value)> = Vec::new();
                let mut i: usize = 0;
                while i < n
                    invariant
                        *self matches Value::Obj(xs) && xs == *entries,
                        n == entries@.len(),
                        0 <= i <= n,
                        out@.len() == i,
                        forall|k: int|
                            0 <= k < i ==> (#[trigger] out@[k]).0@ == entries@[k].0@ && out@[k].1@
                                == entries@[k].1@,
                    decreases n - i,
                {
                    let k = copy_bytes(entries[i].0.as_slice());
                    let v = entries[i].1.deep_copy();
                    out.push((k, v));
                    i += 1;
                }
                let r = Value::Obj(out);
                proof {
                    assert(obj_view(out@) =~= obj_view(entries@));
                }
                r
            },
        }
    }
}

/// Copies a byte slice into a fresh vector.
pub fn copy_bytes(src: &[u8]) -> (r: Vec<u8>)
    ensures
        r@ == src@,
{
    let n = src.len();
    let mut out: Vec<u8> = Vec::new();
    let mut i: usize = 0;
    while i < n
        invariant
            n == src@.len(),
            0 <= i <= n,
            out@.len() == i,
            forall|k: int| 0 <= k < i ==> out@[k] == src@[k],
        decreases n - i,
    {
        out.push(src[i]);
        i += 1;
    }
    proof {
        assert(out@ =~= src@);
    }
    out
}

} // verus!
