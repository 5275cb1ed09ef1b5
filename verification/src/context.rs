//! The assertion context: holds one captured HTTP response and applies
//! matchers to its status, headers, and body.

use vstd::prelude::*;

use crate::json::json_of;
use crate::matcher::{matcher_expected, matcher_outcome, Failure, Matcher, Outcome, SpecFailure, SpecOutcome};
use crate::value::{arr_view, wf_value, SpecValue, Value};

verus! {

/// One completed HTTP response: status code, headers in arrival order, and
/// the raw body bytes.
pub struct CapturedResponse {
    pub status: u16,
    pub headers: Vec<(Vec<u8>, Vec<u8>)>,
    pub body: Vec<u8>,
}

/// A transport failure (connection refused, timeout, protocol error),
/// surfaced to the caller before any assertion runs.
pub struct TransportError {
    pub message: Vec<u8>,
}

/// What the dispatch step handed back: a completed response, or a
/// transport failure.
pub enum DispatchOutcome {
    Response(CapturedResponse),
    Failed(TransportError),
}

/// The entry-wise view of a header list.
pub open spec fn headers_view(hs: Seq<(Vec<u8>, Vec<u8>)>) -> Seq<(Seq<u8>, Seq<u8>)> {
    Seq::new(hs.len(), |i: int| (hs[i].0@, hs[i].1@))
}

/// The headers as a value: an array of two-element `[name, value]` arrays,
/// in arrival order. Matchers (containment in particular) then apply to it.
pub open spec fn headers_value_of(hs: Seq<(Seq<u8>, Seq<u8>)>) -> SpecValue {
    SpecValue::Arr(
        Seq::new(
            hs.len(),
            |i: int| SpecValue::Arr(seq![SpecValue::Str(hs[i].0), SpecValue::Str(hs[i].1)]),
        ),
    )
}

/// The location label for status assertions.
pub open spec fn status_location() -> Seq<u8> {
    seq![0x73u8, 0x74u8, 0x61u8, 0x74u8, 0x75u8, 0x73u8]
}

/// The location label for header assertions.
pub open spec fn headers_location() -> Seq<u8> {
    seq![0x68u8, 0x65u8, 0x61u8, 0x64u8, 0x65u8, 0x72u8, 0x73u8]
}

/// The location label for body assertions.
pub open spec fn body_location() -> Seq<u8> {
    seq![0x62u8, 0x6fu8, 0x64u8, 0x79u8]
}

/// Holds one captured response for the span of an assertion chain. The body
/// is parsed as JSON on the first body assertion and the result (parsed
/// value, or the fact that it does not parse) is cached for the context's
/// lifetime; status and header assertions stay usable either way.
///
/// Each assertion call reads the captured response, never mutates it, and
/// reports its own [`Outcome`]; a chain of assertions is evaluated in call
/// order, and a caller that signals the first failure (as the test-facing
/// entry points do, by panicking with the rendered diagnostic) thereby
/// short-circuits the rest of its chain.
pub struct AssertionContext {
    /// The captured response; no assertion mutates it.
    pub response: CapturedResponse,
    /// The cached body parse: nothing before the first body assertion, then
    /// the parsed value, or nothing inside when the body is not JSON.
    pub parsed: Option<Option<Value>>,
}

impl AssertionContext {
    /// Wraps a captured response for assertion chaining.
    pub fn new(response: CapturedResponse) -> (r: AssertionContext)
        ensures
            r.response == response,
            r.parsed is None,
    {
        AssertionContext { response, parsed: None }
    }

    /// The step between dispatch and assertions: a completed response
    /// becomes a context, and a transport failure is surfaced as the error
    /// it is — it never produces a context, so no assertion can run against
    /// a failed dispatch.
    pub fn capture(outcome: DispatchOutcome) -> (r: Result<AssertionContext, TransportError>)
        ensures
            (outcome is Response) <==> (r is Ok),
            outcome matches DispatchOutcome::Response(resp) ==> r matches Ok(ctx)
                && ctx.response == resp && ctx.parsed is None,
            outcome matches DispatchOutcome::Failed(e) ==> r matches Err(e2) && e2 == e,
    {
        match outcome {
            DispatchOutcome::Response(resp) => Ok(AssertionContext::new(resp)),
            DispatchOutcome::Failed(e) => Err(e),
        }
    }

    /// Applies a matcher to the response's status code.
    pub fn assert_status(&self, m: &Matcher) -> (r: Outcome)
        ensures
            r@ == matcher_outcome(*m, SpecValue::Num(self.response.status as int), status_location()),
    {
        let actual = Value::Num(self.response.status as i64);
        let mut loc: Vec<u8> = Vec::new();
        loc.push(0x73);
        loc.push(0x74);
        loc.push(0x61);
        loc.push(0x74);
        loc.push(0x75);
        loc.push(0x73);
        proof {
            assert(loc@ =~= status_location());
        }
        m.evaluate(&actual, loc.as_slice())
    }

    /// Applies a matcher to the response's headers, presented as an array
    /// of `[name, value]` pairs in arrival order.
    pub fn assert_headers(&self, m: &Matcher) -> (r: Outcome)
        ensures
            r@ == matcher_outcome(
                *m,
                headers_value_of(headers_view(self.response.headers@)),
                headers_location(),
            ),
    {
        let hs = &self.response.headers;
        let n = hs.len();
        let mut items: Vec<Value> = Vec::new();
        let mut i: usize = 0;
        while i < n
            invariant
                hs == self.response.headers,
                n == hs@.len(),
                0 <= i <= n,
                items@.len() == i,
                forall|k: int|
                    0 <= k < i ==> (#[trigger] items@[k])@ == SpecValue::Arr(
                        seq![
                            SpecValue::Str(hs@[k].0@),
                            SpecValue::Str(hs@[k].1@),
                        ],
                    ),
            decreases n - i,
        {
            let name = crate::value::copy_bytes(hs[i].0.as_slice());
            let val = crate::value::copy_bytes(hs[i].1.as_slice());
            let mut pair: Vec<Value> = Vec::new();
            pair.push(Value::Str(name));
            pair.push(Value::Str(val));
            proof {
                assert(arr_view(pair@) =~= seq![
                    SpecValue::Str(hs@[i as int].0@),
                    SpecValue::Str(hs@[i as int].1@),
                ]);
            }
            let pv = Value::Arr(pair);
            items.push(pv);
            i += 1;
        }
        proof {
            assert(arr_view(items@) =~= headers_value_of(
                headers_view(self.response.headers@),
            )->Arr_0);
        }
        let actual = Value::Arr(items);
        proof {
            assert(actual@ == headers_value_of(headers_view(self.response.headers@)));
        }
        let mut loc: Vec<u8> = Vec::new();
        loc.push(0x68);
        loc.push(0x65);
        loc.push(0x61);
        loc.push(0x64);
        loc.push(0x65);
        loc.push(0x72);
        loc.push(0x73);
        proof {
            assert(loc@ =~= headers_location());
        }
        m.evaluate(&actual, loc.as_slice())
    }

    /// Applies a matcher to the response's body, parsed as JSON. The parse
    /// happens on the first body assertion and is cached; a body that does
    /// not parse makes this assertion fail (with the raw body as the found
    /// value) rather than poisoning the context — status and header
    /// assertions stay usable.
    pub fn json_body(&mut self, m: &Matcher) -> (r: Outcome)
        requires
            old(self).parsed matches Some(Some(v)) ==> wf_value(v@),
        ensures
            final(self).response == old(self).response,
            final(self).parsed is Some,
            old(self).parsed matches Some(b) ==> final(self).parsed == Some(b),
            old(self).parsed is None ==> match final(self).parsed {
                Some(Some(v)) => json_of(old(self).response.body@) == Some(v@),
                Some(None) => json_of(old(self).response.body@) is None,
                None => false,
            },
            final(self).parsed matches Some(cached) ==> match cached {
                Some(v) => wf_value(v@) && r@ == matcher_outcome(*m, v@, body_location()),
                None => r@ == SpecOutcome::Fail(
                    SpecFailure {
                        expected: matcher_expected(*m),
                        actual: old(self).response.body@,
                        location: body_location(),
                    },
                ),
            },
    {
        if self.parsed.is_none() {
            let parsed = match crate::json::parse(self.response.body.as_slice()) {
                Ok(v) => Some(v),
                Err(_) => None,
            };
            self.parsed = Some(parsed);
        }
        let mut loc: Vec<u8> = Vec::new();
        loc.push(0x62);
        loc.push(0x6f);
        loc.push(0x64);
        loc.push(0x79);
        proof {
            assert(loc@ =~= body_location());
        }
        match &self.parsed {
            Some(Some(v)) => m.evaluate(v, loc.as_slice()),
            Some(None) => Outcome::Fail(
                Failure {
                    expected: crate::matcher::render_expected(m),
                    actual: crate::value::copy_bytes(self.response.body.as_slice()),
                    location: loc,
                },
            ),
            None => {
                proof {
                    assert(false);
                }
                Outcome::Pass
            },
        }
    }
}

} // verus!
