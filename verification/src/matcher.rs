//! Matcher combinators: composable predicates over captured response data,
//! evaluated to a pass or a fail with rendered diagnostics.

use vstd::prelude::*;

use crate::json::render_of;
use crate::path::{eval_path, path_text, Path};
use crate::value::{bytes_eq, copy_bytes, eq_value, SpecValue, Value};

verus! {

/// A composable predicate over a captured response part.
pub enum Matcher {
    /// Passes when the expected value structurally equals the actual one.
    Is(Value),
    /// Passes when the expected value does not structurally equal the
    /// actual one.
    IsNot(Value),
    /// Passes when the needle is contained in the actual value: a substring
    /// of a string, an element of an array, or a key (or single entry) of
    /// an object.
    Contains(Value),
    /// Resolves the path against the actual value, then applies the inner
    /// matcher to the single resolved value, or to an array of the resolved
    /// values when there are zero or several.
    JsonPath(Path, Box<Matcher>),
}

/// Mathematical model of a failure report: what was expected, what was
/// found, and where.
#[verifier::ext_equal]
pub struct SpecFailure {
    pub expected: Seq<u8>,
    pub actual: Seq<u8>,
    pub location: Seq<u8>,
}

/// Mathematical model of an outcome.
#[verifier::ext_equal]
pub enum SpecOutcome {
    Pass,
    Fail(SpecFailure),
}

/// A failure report: rendered expected and actual values, and the location
/// (response part, with the path text appended for path-scoped matchers).
pub struct Failure {
    pub expected: Vec<u8>,
    pub actual: Vec<u8>,
    pub location: Vec<u8>,
}

impl View for Failure {
    type V = SpecFailure;

    open spec fn view(&self) -> SpecFailure {
        SpecFailure { expected: self.expected@, actual: self.actual@, location: self.location@ }
    }
}

/// The result of evaluating one matcher: a pass, or a failure with
/// diagnostics.
pub enum Outcome {
    Pass,
    Fail(Failure),
}

impl View for Outcome {
    type V = SpecOutcome;

    open spec fn view(&self) -> SpecOutcome {
        match self {
            Outcome::Pass => SpecOutcome::Pass,
            Outcome::Fail(f) => SpecOutcome::Fail(f@),
        }
    }
}

impl Outcome {
    /// Whether the outcome is a pass.
    pub fn passed(&self) -> (r: bool)
        ensures
            r == (self@ is Pass),
    {
        match self {
            Outcome::Pass => true,
            Outcome::Fail(_) => false,
        }
    }
}

/// `needle` occurs as a contiguous subsequence of `hay`.
pub open spec fn is_substring(needle: Seq<u8>, hay: Seq<u8>) -> bool {
    exists|i: int|
        0 <= i <= hay.len() - needle.len() && #[trigger] hay.subrange(i, i + needle.len())
            == needle
}

/// Containment of `needle` in `actual`, by the actual value's kind: for a
/// string, byte-substring containment of a string needle; for an array,
/// membership of a structurally equal element; for an object, presence of
/// the needle as a key (a string needle) or as a single entry (a one-entry
/// object needle). Any other pairing admits no containment.
pub open spec fn contains_in(needle: SpecValue, actual: SpecValue) -> bool {
    match actual {
        SpecValue::Str(s) => needle matches SpecValue::Str(ns) && is_substring(ns, s),
        SpecValue::Arr(xs) => exists|i: int|
            0 <= i < xs.len() && eq_value(needle, #[trigger] xs[i]),
        SpecValue::Obj(es) => match needle {
            SpecValue::Str(k) => exists|i: int| 0 <= i < es.len() && (#[trigger] es[i]).0 == k,
            SpecValue::Obj(ns) => ns.len() == 1 && exists|i: int|
                0 <= i < es.len() && (#[trigger] es[i]).0 == ns[0].0 && eq_value(
                    ns[0].1,
                    es[i].1,
                ),
            _ => false,
        },
        _ => false,
    }
}

/// Containment semantics exist for the pairing of the needle's and the
/// actual value's kinds: a string needle in a string, anything in an array,
/// a string (key) or one-entry object needle in an object. Every other
/// pairing is a kind mismatch, reported as such.
pub open spec fn kinds_admit(needle: SpecValue, actual: SpecValue) -> bool {
    match actual {
        SpecValue::Str(_) => needle is Str,
        SpecValue::Arr(_) => true,
        SpecValue::Obj(_) => needle is Str || (needle matches SpecValue::Obj(ns) && ns.len()
            == 1),
        _ => false,
    }
}

/// The note a kind-mismatch failure carries before the rendered needle.
pub open spec fn kind_mismatch_note() -> Seq<u8> {
    seq![
        0x6bu8,
        0x69u8,
        0x6eu8,
        0x64u8,
        0x20u8,
        0x6du8,
        0x69u8,
        0x73u8,
        0x6du8,
        0x61u8,
        0x74u8,
        0x63u8,
        0x68u8,
        0x3au8,
        0x20u8,
    ]
}

/// The innermost matcher, below every path scope.
pub open spec fn matcher_core(m: Matcher) -> Matcher
    decreases m,
{
    match m {
        Matcher::JsonPath(p, inner) => matcher_core(*inner),
        _ => m,
    }
}

/// The value a path-scoped matcher hands to its inner matcher: the single
/// resolved value, or an array of the resolved values when there are zero
/// or several.
pub open spec fn resolve(sel: Seq<SpecValue>) -> SpecValue {
    if sel.len() == 1 {
        sel[0]
    } else {
        SpecValue::Arr(sel)
    }
}

/// Whether the matcher passes against the actual value.
pub open spec fn matcher_passes(m: Matcher, actual: SpecValue) -> bool
    decreases m,
{
    match m {
        Matcher::Is(e) => eq_value(e@, actual),
        Matcher::IsNot(e) => !eq_value(e@, actual),
        Matcher::Contains(n) => contains_in(n@, actual),
        Matcher::JsonPath(p, inner) => matcher_passes(*inner, resolve(eval_path(p@, actual))),
    }
}

/// The rendered expected value a failing matcher reports.
pub open spec fn matcher_expected(m: Matcher) -> Seq<u8>
    decreases m,
{
    match m {
        Matcher::Is(e) => render_of(e@),
        Matcher::IsNot(e) => render_of(e@),
        Matcher::Contains(n) => render_of(n@),
        Matcher::JsonPath(p, inner) => matcher_expected(*inner),
    }
}

/// The value a failing matcher reports as found: the actual value, resolved
/// through every enclosing path.
pub open spec fn matcher_target(m: Matcher, actual: SpecValue) -> SpecValue
    decreases m,
{
    match m {
        Matcher::JsonPath(p, inner) => matcher_target(*inner, resolve(eval_path(p@, actual))),
        _ => actual,
    }
}

/// The location a failing matcher reports: the starting location with the
/// text of every enclosing path appended.
pub open spec fn matcher_location(m: Matcher, loc: Seq<u8>) -> Seq<u8>
    decreases m,
{
    match m {
        Matcher::JsonPath(p, inner) => matcher_location(*inner, loc + path_text(p@)),
        _ => loc,
    }
}

/// The outcome of evaluating a matcher against an actual value: a pass, or
/// a failure carrying the rendered expected and actual values and the
/// location.
pub open spec fn matcher_outcome(m: Matcher, actual: SpecValue, loc: Seq<u8>) -> SpecOutcome {
    if matcher_passes(m, actual) {
        SpecOutcome::Pass
    } else {
        SpecOutcome::Fail(
            SpecFailure {
                expected: if matcher_core(m) matches Matcher::Contains(nd) && !kinds_admit(
                    nd@,
                    matcher_target(m, actual),
                ) {
                    kind_mismatch_note() + matcher_expected(m)
                } else {
                    matcher_expected(m)
                },
                actual: render_of(matcher_target(m, actual)),
                location: matcher_location(m, loc),
            },
        )
    }
}

/// `Is(e)` and `IsNot(e)` are exact complements: for any expected value and
/// any actual value, exactly one of the two passes.
pub proof fn lemma_is_is_not_complement(e: Value, actual: SpecValue)
    ensures
        matcher_passes(Matcher::Is(e), actual) != matcher_passes(
            Matcher::IsNot(e),
            actual,
        ),
{
}

/// Decides whether the window of `hay` starting at `i` equals `needle`.
fn window_matches(hay: &[u8], i: usize, needle: &[u8]) -> (r: bool)
    requires
        i + needle@.len() <= hay@.len(),
    ensures
        r == (hay@.subrange(i as int, i + needle@.len()) == needle@),
{
    let nl = needle.len();
    let hl = hay.len();
    let ghost w = hay@.subrange(i as int, i + needle@.len());
    let mut j: usize = 0;
    while j < nl
        invariant
            nl == needle@.len(),
            hl == hay@.len(),
            i + nl <= hl,
            w == hay@.subrange(i as int, i + needle@.len()),
            0 <= j <= nl,
            forall|k: int| 0 <= k < j ==> hay@[i + k] == #[trigger] needle@[k],
        decreases nl - j,
    {
        if hay[i + j] != needle[j] {
            proof {
                assert(w[j as int] == hay@[i + j]);
                assert(w != needle@);
            }
            return false;
        }
        j += 1;
    }
    proof {
        assert(w =~= needle@);
    }
    true
}

/// Decides byte-substring containment by scanning every window.
pub fn substring_check(needle: &[u8], hay: &[u8]) -> (r: bool)
    ensures
        r == is_substring(needle@, hay@),
{
    let nl = needle.len();
    let hl = hay.len();
    if nl > hl {
        return false;
    }
    if nl == 0 {
        proof {
            assert(hay@.subrange(0, 0 + needle@.len() as int) =~= needle@);
        }
        return true;
    }
    let mut i: usize = 0;
    while i <= hl - nl
        invariant
            nl == needle@.len(),
            hl == hay@.len(),
            1 <= nl <= hl,
            0 <= i <= hl - nl + 1,
            forall|k: int|
                0 <= k < i ==> #[trigger] hay@.subrange(k, k + needle@.len()) != needle@,
        decreases hl + 1 - i,
    {
        if window_matches(hay, i, needle) {
            return true;
        }
        i += 1;
    }
    proof {
        assert forall|k: int| 0 <= k <= hay@.len() - needle@.len() implies #[trigger] hay@.subrange(
            k,
            k + needle@.len(),
        ) != needle@ by {
            assert(k < i);
        }
    }
    false
}

/// Decides containment of `needle` in `actual`.
pub fn contains_check(needle: &Value, actual: &Value) -> (r: bool)
    ensures
        r == contains_in(needle@, actual@),
{
    match actual {
        Value::Str(s) => {
            match needle {
                Value::Str(ns) => substring_check(ns.as_slice(), s.as_slice()),
                _ => false,
            }
        },
        Value::Arr(items) => {
            let ghost xs = crate::value::arr_view(items@);
            let n = items.len();
            let mut i: usize = 0;
            while i < n
                invariant
                    *actual matches Value::Arr(vs) && vs == *items,
                    xs == crate::value::arr_view(items@),
                    n == items@.len(),
                    xs.len() == n,
                    0 <= i <= n,
                    forall|k: int| 0 <= k < i ==> !eq_value(needle@, #[trigger] xs[k]),
                decreases n - i,
            {
                proof {
                    assert(items@[i as int]@ == xs[i as int]);
                }
                if needle.equals(&items[i]) {
                    proof {
                        assert(actual@ == SpecValue::Arr(xs));
                        assert((actual@)->Arr_0 == xs);
                        assert(0 <= i < xs.len() && eq_value(needle@, xs[i as int]));
                        assert(contains_in(needle@, actual@));
                    }
                    return true;
                }
                i += 1;
            }
            false
        },
        Value::Obj(entries) => {
            let ghost es = crate::value::obj_view(entries@);
            match needle {
                Value::Str(k) => {
                    let n = entries.len();
                    let mut i: usize = 0;
                    while i < n
                        invariant
                            *actual matches Value::Obj(vs) && vs == *entries,
                            es == crate::value::obj_view(entries@),
                            *needle matches Value::Str(nk) && nk == *k,
                            n == entries@.len(),
                            es.len() == n,
                            0 <= i <= n,
                            forall|q: int| 0 <= q < i ==> (#[trigger] es[q]).0 != k@,
                        decreases n - i,
                    {
                        proof {
                            assert(entries@[i as int].0@ == es[i as int].0);
                        }
                        if bytes_eq(entries[i].0.as_slice(), k.as_slice()) {
                            proof {
                                assert(actual@ == SpecValue::Obj(es));
                                assert((actual@)->Obj_0 == es);
                                assert(needle@ == SpecValue::Str(k@));
                                assert(0 <= i < es.len() && es[i as int].0 == k@);
                                assert(contains_in(needle@, actual@));
                            }
                            return true;
                        }
                        i += 1;
                    }
                    false
                },
                Value::Obj(ns) => {
                    let ghost nv = crate::value::obj_view(ns@);
                    if ns.len() != 1 {
                        return false;
                    }
                    proof {
                        assert(ns@[0].0@ == nv[0].0);
                        assert(ns@[0].1@ == nv[0].1);
                    }
                    let n = entries.len();
                    let mut i: usize = 0;
                    while i < n
                        invariant
                            *actual matches Value::Obj(vs) && vs == *entries,
                            es == crate::value::obj_view(entries@),
                            *needle matches Value::Obj(nes) && nes == *ns,
                            nv == crate::value::obj_view(ns@),
                            ns@.len() == 1,
                            nv.len() == 1,
                            n == entries@.len(),
                            es.len() == n,
                            0 <= i <= n,
                            forall|q: int|
                                0 <= q < i ==> !((#[trigger] es[q]).0 == nv[0].0 && eq_value(
                                    nv[0].1,
                                    es[q].1,
                                )),
                        decreases n - i,
                    {
                        proof {
                            assert(entries@[i as int].0@ == es[i as int].0);
                            assert(entries@[i as int].1@ == es[i as int].1);
                        }
                        if bytes_eq(entries[i].0.as_slice(), ns[0].0.as_slice()) && ns[0].1.equals(
                            &entries[i].1,
                        ) {
                            proof {
                                assert(actual@ == SpecValue::Obj(es));
                                assert((actual@)->Obj_0 == es);
                                assert(needle@ == SpecValue::Obj(nv));
                                assert((needle@)->Obj_0 == nv);
                                assert(0 <= i < es.len() && es[i as int].0 == nv[0].0
                                    && eq_value(nv[0].1, es[i as int].1));
                                assert(contains_in(needle@, actual@));
                            }
                            return true;
                        }
                        i += 1;
                    }
                    false
                },
                _ => false,
            }
        },
        _ => {
            proof {
                assert(!contains_in(needle@, actual@));
            }
            false
        },
    }
}

/// Renders the expected value a failing matcher would report.
pub fn render_expected(m: &Matcher) -> (r: Vec<u8>)
    ensures
        r@ == matcher_expected(*m),
    decreases *m,
{
    match m {
        Matcher::Is(e) => crate::json::render(e),
        Matcher::IsNot(e) => crate::json::render(e),
        Matcher::Contains(n) => crate::json::render(n),
        Matcher::JsonPath(_, inner) => render_expected(inner),
    }
}

/// Decides whether containment semantics exist for the pairing of kinds.
fn kinds_admit_check(needle: &Value, actual: &Value) -> (r: bool)
    ensures
        r == kinds_admit(needle@, actual@),
{
    match actual {
        Value::Str(_) => match needle {
            Value::Null => false,
            Value::Bool(_) => false,
            Value::Num(_) => false,
            Value::Str(_) => true,
            Value::Arr(_) => false,
            Value::Obj(_) => false,
        },
        Value::Arr(_) => true,
        Value::Obj(_) => {
            match needle {
                Value::Null => false,
                Value::Bool(_) => false,
                Value::Num(_) => false,
                Value::Str(_) => true,
                Value::Arr(_) => false,
                Value::Obj(ns) => {
                    proof {
                        assert(crate::value::obj_view(ns@).len() == ns@.len());
                        assert(needle@ == SpecValue::Obj(crate::value::obj_view(ns@)));
                    }
                    ns.len() == 1
                },
            }
        },
        Value::Null => false,
        Value::Bool(_) => false,
        Value::Num(_) => false,
    }
}

/// Renders a needle behind the kind-mismatch note.
fn render_mismatch(n: &Value) -> (r: Vec<u8>)
    ensures
        r@ == kind_mismatch_note() + render_of(n@),
{
    let mut out: Vec<u8> = Vec::new();
    out.push(0x6b);
    out.push(0x69);
    out.push(0x6e);
    out.push(0x64);
    out.push(0x20);
    out.push(0x6d);
    out.push(0x69);
    out.push(0x73);
    out.push(0x6d);
    out.push(0x61);
    out.push(0x74);
    out.push(0x63);
    out.push(0x68);
    out.push(0x3a);
    out.push(0x20);
    proof {
        assert(out@ =~= kind_mismatch_note());
    }
    crate::json::render_into(n, &mut out);
    out
}

impl Matcher {
    /// Evaluates the matcher against an actual value, reporting the outcome
    /// with diagnostics anchored at `location`.
    pub fn evaluate(&self, actual: &Value, location: &[u8]) -> (r: Outcome)
        ensures
            r@ == matcher_outcome(*self, actual@, location@),
        decreases *self,
    {
        match self {
            Matcher::Is(e) => {
                if e.equals(actual) {
                    Outcome::Pass
                } else {
                    Outcome::Fail(
                        Failure {
                            expected: crate::json::render(e),
                            actual: crate::json::render(actual),
                            location: copy_bytes(location),
                        },
                    )
                }
            },
            Matcher::IsNot(e) => {
                if !e.equals(actual) {
                    Outcome::Pass
                } else {
                    Outcome::Fail(
                        Failure {
                            expected: crate::json::render(e),
                            actual: crate::json::render(actual),
                            location: copy_bytes(location),
                        },
                    )
                }
            },
            Matcher::Contains(n) => {
                if contains_check(n, actual) {
                    Outcome::Pass
                } else {
                    let expected = if kinds_admit_check(n, actual) {
                        crate::json::render(n)
                    } else {
                        render_mismatch(n)
                    };
                    Outcome::Fail(
                        Failure {
                            expected,
                            actual: crate::json::render(actual),
                            location: copy_bytes(location),
                        },
                    )
                }
            },
            Matcher::JsonPath(p, inner) => {
                let mut sel = p.evaluate(actual);
                let resolved: Value = if sel.len() == 1 {
                    sel.remove(0)
                } else {
                    Value::Arr(sel)
                };
                proof {
                    assert(resolved@ == resolve(eval_path(p@, actual@)));
                }
                let mut nloc = copy_bytes(location);
                p.render_into(&mut nloc);
                let out = inner.evaluate(&resolved, nloc.as_slice());
                proof {
                    assert(matcher_passes(*self, actual@) == matcher_passes(**inner, resolved@));
                    assert(matcher_expected(*self) == matcher_expected(**inner));
                    assert(matcher_core(*self) == matcher_core(**inner));
                    assert(matcher_target(*self, actual@) == matcher_target(**inner, resolved@));
                    assert(matcher_location(*self, location@) == matcher_location(
                        **inner,
                        nloc@,
                    ));
                }
                out
            },
        }
    }
}

} // verus!
