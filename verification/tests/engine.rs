//! The matcher and path engine: equality, complements, path evaluation,
//! containment, diagnostics, and the textual round trip.

use grillon::context::{AssertionContext, CapturedResponse, DispatchOutcome, TransportError};
use grillon::dsl::{contains, is, is_not, json_path, Expected};
use grillon::json::{parse, render};
use grillon::matcher::Outcome;
use grillon::path::{Path, PathError};
use grillon::value::Value;

fn s(x: &str) -> Value {
    Value::Str(x.as_bytes().to_vec())
}

// Structural equality is reflexive and insensitive to object key order.
#[test]
fn equality_reflexive_and_key_order_insensitive() {
    let a = Value::Obj(vec![
        (b"x".to_vec(), Value::Num(1)),
        (b"y".to_vec(), Value::Arr(vec![Value::Bool(true), Value::Null])),
    ]);
    let b = Value::Obj(vec![
        (b"y".to_vec(), Value::Arr(vec![Value::Bool(true), Value::Null])),
        (b"x".to_vec(), Value::Num(1)),
    ]);
    assert!(a.equals(&a));
    assert!(b.equals(&b));
    assert!(a.equals(&b));
    assert!(b.equals(&a));
}

#[test]
fn equality_is_structural_not_textual() {
    // arrays are order-sensitive; objects are not
    let a1 = Value::Arr(vec![Value::Num(1), Value::Num(2)]);
    let a2 = Value::Arr(vec![Value::Num(2), Value::Num(1)]);
    assert!(!a1.equals(&a2));
    // numbers compare numerically: "1" and "1.0" parse to the same value
    let n1 = parse(b"1").unwrap();
    let n2 = parse(b"1.0").unwrap();
    assert!(n1.equals(&n2));
}

// `Is(e)` and `IsNot(e)` are exact complements for a fixed actual.
#[test]
fn is_and_is_not_are_complements() {
    let actual = s("Isaac");
    let cases = vec![s("Isaac"), s("Max"), Value::Num(3), Value::Null];
    for e in cases {
        let yes = is(Expected::Structured(e.deep_copy()))
            .evaluate(&actual, b"body");
        let no = is_not(Expected::Structured(e))
            .evaluate(&actual, b"body");
        assert!(yes.passed() != no.passed());
    }
}

// Path evaluation on "$" yields exactly the value itself.
#[test]
fn root_path_yields_the_value() {
    let v = Value::Obj(vec![(b"k".to_vec(), Value::Num(7))]);
    let p = Path::parse(b"$").unwrap();
    let got = p.evaluate(&v);
    assert_eq!(got.len(), 1);
    assert!(got[0].equals(&v));
}

// A missing field or index yields an empty sequence, never an error.
#[test]
fn missing_field_or_index_yields_empty() {
    let v = parse(br#"{"a":{"b":1},"c":[10,20]}"#).unwrap();
    let p = Path::parse(b"$.missing").unwrap();
    assert_eq!(p.evaluate(&v).len(), 0);
    let p2 = Path::parse(b"$.c[5]").unwrap();
    assert_eq!(p2.evaluate(&v).len(), 0);
    let p3 = Path::parse(b"$.a.b.deeper").unwrap();
    assert_eq!(p3.evaluate(&v).len(), 0);
}

#[test]
fn path_selects_nested_and_wildcard() {
    let v = parse(br#"{"users":[{"name":"Isaac"},{"name":"Max"}]}"#).unwrap();
    let p = Path::parse(b"$.users[0].name").unwrap();
    let got = p.evaluate(&v);
    assert_eq!(got.len(), 1);
    assert!(got[0].equals(&s("Isaac")));
    let pw = Path::parse(b"$.users.*").unwrap();
    let all = pw.evaluate(&v);
    assert_eq!(all.len(), 2);
    assert!(all[1].equals(&parse(br#"{"name":"Max"}"#).unwrap()));
    // the wildcard on an object yields every value, in entry order
    let pv = Path::parse(b"$.users[1].*").unwrap();
    let vals = pv.evaluate(&v);
    assert_eq!(vals.len(), 1);
    assert!(vals[0].equals(&s("Max")));
}

#[test]
fn equality_is_symmetric() {
    let a = parse(br#"{"x":[1,{"y":2}]}"#).unwrap();
    let b = parse(br#"{"x":[1,{"y":3}]}"#).unwrap();
    assert_eq!(a.equals(&b), b.equals(&a));
    let c = parse(br#"{"x":[1,{"y":2}]}"#).unwrap();
    assert!(a.equals(&c) && c.equals(&a));
}

// JsonPath("$.name", is("Isaac")) passes; is("Max") fails with the
// rendered actual "Isaac".
#[test]
fn json_path_scoped_equality() {
    let body = br#"{"id":1,"name":"Isaac"}"#.to_vec();
    let mut ctx = AssertionContext::new(CapturedResponse {
        status: 200,
        headers: vec![],
        body,
    });
    let pass = ctx.json_body(&json_path(b"$.name", is(Expected::Structured(s("Isaac")))).unwrap());
    assert!(matches!(pass, Outcome::Pass));
    let fail = ctx.json_body(&json_path(b"$.name", is(Expected::Structured(s("Max")))).unwrap());
    match fail {
        Outcome::Fail(f) => {
            assert_eq!(f.actual, b"\"Isaac\"".to_vec());
            assert_eq!(f.expected, b"\"Max\"".to_vec());
            assert_eq!(f.location, b"body$.name".to_vec());
        },
        Outcome::Pass => panic!("expected a failure"),
    }
}

// contains("a") against {"tags":["a","b"]} via json_path("$.tags", ...).
#[test]
fn json_path_scoped_containment() {
    let body = br#"{"tags":["a","b"]}"#.to_vec();
    let mut ctx = AssertionContext::new(CapturedResponse {
        status: 200,
        headers: vec![],
        body,
    });
    let pass =
        ctx.json_body(&json_path(b"$.tags", contains(Expected::Structured(s("a")))).unwrap());
    assert!(matches!(pass, Outcome::Pass));
    let fail =
        ctx.json_body(&json_path(b"$.tags", contains(Expected::Structured(s("z")))).unwrap());
    assert!(matches!(fail, Outcome::Fail(_)));
}

#[test]
fn containment_by_kind() {
    // substring of a string
    let hay = s("hello world");
    assert!(matches!(
        contains(Expected::Structured(s("lo wo"))).evaluate(&hay, b"body"),
        Outcome::Pass
    ));
    assert!(matches!(
        contains(Expected::Structured(s("xyz"))).evaluate(&hay, b"body"),
        Outcome::Fail(_)
    ));
    // key presence and single-entry containment in an object
    let obj = parse(br#"{"id":1,"name":"Isaac"}"#).unwrap();
    assert!(matches!(
        contains(Expected::Structured(s("name"))).evaluate(&obj, b"body"),
        Outcome::Pass
    ));
    let entry = Value::Obj(vec![(b"id".to_vec(), Value::Num(1))]);
    assert!(matches!(
        contains(Expected::Structured(entry)).evaluate(&obj, b"body"),
        Outcome::Pass
    ));
    let wrong = Value::Obj(vec![(b"id".to_vec(), Value::Num(2))]);
    assert!(matches!(
        contains(Expected::Structured(wrong)).evaluate(&obj, b"body"),
        Outcome::Fail(_)
    ));
    // kind mismatch: a number needle admits no containment in a string
    assert!(matches!(
        contains(Expected::Structured(Value::Num(1))).evaluate(&hay, b"body"),
        Outcome::Fail(_)
    ));
}

// Dispatch failure yields the transport error and never a context.
#[test]
fn transport_failure_never_captured() {
    let failed = DispatchOutcome::Failed(TransportError {
        message: b"connection refused".to_vec(),
    });
    match AssertionContext::capture(failed) {
        Ok(_) => panic!("a failed dispatch must not produce a context"),
        Err(e) => assert_eq!(e.message, b"connection refused".to_vec()),
    }
    let ok = DispatchOutcome::Response(CapturedResponse {
        status: 204,
        headers: vec![],
        body: vec![],
    });
    assert!(AssertionContext::capture(ok).is_ok());
}

// render(parse(text)) re-parsed equals the original parsed value.
#[test]
fn textual_round_trip() {
    let texts: Vec<&[u8]> = vec![
        b"null",
        b"true",
        b"false",
        b"0",
        b"-12",
        b"9223372036854775807",
        b"-9223372036854775808",
        br#""""#,
        br#""plain""#,
        br#""quote \" and backslash \\ and newline \n""#,
        b"[]",
        b"[1,2,3]",
        b"{}",
        br#" { "a" : [ true , null , "x" ] , "b" : { "c" : -5 } } "#,
        b"1.00",
    ];
    for text in texts {
        let v = parse(text).unwrap();
        let rendered = render(&v);
        let again = parse(&rendered).unwrap();
        assert!(again.equals(&v), "round trip failed for {:?}", String::from_utf8_lossy(text));
    }
}

#[test]
fn render_is_deterministic_and_compact() {
    let v = parse(br#" { "a" : 1 , "b" : [ "x" ] } "#).unwrap();
    assert_eq!(render(&v), br#"{"a":1,"b":["x"]}"#.to_vec());
    assert_eq!(render(&Value::Num(-42)), b"-42".to_vec());
    assert_eq!(render(&s("say \"hi\"")), br#""say \"hi\"""#.to_vec());
}

#[test]
fn parse_rejects_malformed_text() {
    assert!(parse(b"").is_err());
    assert!(parse(b"{").is_err());
    assert!(parse(b"[1,]").is_err());
    assert!(parse(br#"{"a":1,"a":2}"#).is_err(), "duplicate keys");
    assert!(parse(b"1.5").is_err(), "a nonzero fraction has no integer value");
    assert!(parse(b"1e3").is_err(), "exponents are not supported");
    assert!(parse(b"01").is_err(), "leading zero");
    assert!(parse(b"nul").is_err());
    assert!(parse(b"[1] trailing").is_err());
}

#[test]
fn path_parse_errors() {
    assert!(matches!(Path::parse(b""), Err(PathError::Empty)));
    assert!(matches!(Path::parse(b"name"), Err(PathError::MissingRoot)));
    assert!(matches!(Path::parse(b"$."), Err(PathError::BadSegment(_))));
    assert!(matches!(Path::parse(b"$[01]"), Err(PathError::BadSegment(_))));
    assert!(matches!(Path::parse(b"$[x]"), Err(PathError::BadSegment(_))));
    assert!(matches!(Path::parse(b"$[1"), Err(PathError::BadSegment(_))));
    assert!(Path::parse(b"$").is_ok());
    assert!(Path::parse(b"$[0]").is_ok());
    assert!(Path::parse(b"$.a[10].b.*").is_ok());
}

#[test]
fn path_renders_back_to_its_text() {
    for text in [&b"$"[..], b"$.users[0].name", b"$.*", b"$[123]"] {
        let p = Path::parse(text).unwrap();
        assert_eq!(p.render(), text.to_vec());
    }
}

// Zero or several path matches resolve to an array for the inner matcher.
#[test]
fn multiple_matches_resolve_to_array() {
    let body = br#"{"users":[{"n":1},{"n":2}]}"#.to_vec();
    let mut ctx = AssertionContext::new(CapturedResponse { status: 200, headers: vec![], body });
    let expect_both = parse(br#"[{"n":1},{"n":2}]"#).unwrap();
    let m = json_path(b"$.users.*", is(Expected::Structured(expect_both))).unwrap();
    assert!(matches!(ctx.json_body(&m), Outcome::Pass));
    // an empty match set resolves to the empty array
    let m2 = json_path(b"$.absent", is(Expected::Structured(Value::Arr(vec![])))).unwrap();
    assert!(matches!(ctx.json_body(&m2), Outcome::Pass));
}

#[test]
fn status_and_headers_assertions() {
    let ctx = AssertionContext::new(CapturedResponse {
        status: 201,
        headers: vec![(b"content-type".to_vec(), b"application/json".to_vec())],
        body: vec![],
    });
    assert!(matches!(
        ctx.assert_status(&is(Expected::Structured(Value::Num(201)))),
        Outcome::Pass
    ));
    match ctx.assert_status(&is(Expected::Structured(Value::Num(404)))) {
        Outcome::Fail(f) => {
            assert_eq!(f.location, b"status".to_vec());
            assert_eq!(f.actual, b"201".to_vec());
        },
        Outcome::Pass => panic!("expected a failure"),
    }
    let pair = Value::Arr(vec![s("content-type"), s("application/json")]);
    assert!(matches!(
        ctx.assert_headers(&contains(Expected::Structured(pair))),
        Outcome::Pass
    ));
}

#[test]
fn unparseable_body_fails_that_assertion_only() {
    let mut ctx = AssertionContext::new(CapturedResponse {
        status: 200,
        headers: vec![],
        body: b"not json at all".to_vec(),
    });
    match ctx.json_body(&is(Expected::Structured(Value::Null))) {
        Outcome::Fail(f) => {
            assert_eq!(f.actual, b"not json at all".to_vec());
            assert_eq!(f.location, b"body".to_vec());
        },
        Outcome::Pass => panic!("expected a failure"),
    }
    // status assertions are still usable on the same context
    assert!(matches!(
        ctx.assert_status(&is(Expected::Structured(Value::Num(200)))),
        Outcome::Pass
    ));
}

#[test]
fn text_expected_degrades_to_string_on_parse_failure() {
    // "not json" is not JSON, so the expected becomes the string itself
    let m = is(Expected::Text(b"not json".to_vec()));
    let outcome = m.evaluate(&s("not json"), b"body");
    assert!(matches!(outcome, Outcome::Pass));
}

#[test]
fn kind_mismatch_is_named_in_the_diagnostic() {
    // a number needle admits no containment in a string: the failure says so
    let hay = s("hello");
    match contains(Expected::Structured(Value::Num(1))).evaluate(&hay, b"body") {
        Outcome::Fail(f) => {
            assert_eq!(f.expected, b"kind mismatch: 1".to_vec());
            assert_eq!(f.actual, b"\"hello\"".to_vec());
        },
        Outcome::Pass => panic!("expected a failure"),
    }
    // a plain non-containment keeps the plain expected render
    match contains(Expected::Structured(s("xyz"))).evaluate(&hay, b"body") {
        Outcome::Fail(f) => assert_eq!(f.expected, b"\"xyz\"".to_vec()),
        Outcome::Pass => panic!("expected a failure"),
    }
    // a two-entry object needle admits no containment either
    let two = Value::Obj(vec![
        (b"a".to_vec(), Value::Num(1)),
        (b"b".to_vec(), Value::Num(2)),
    ]);
    let obj = parse(br#"{"a":1}"#).unwrap();
    match contains(Expected::Structured(two)).evaluate(&obj, b"body") {
        Outcome::Fail(f) => {
            assert!(f.expected.starts_with(b"kind mismatch: "));
        },
        Outcome::Pass => panic!("expected a failure"),
    }
}

#[test]
fn number_grammar_bounds() {
    // nineteen digits up to the signed 64-bit bounds parse; more do not
    assert!(parse(b"9223372036854775807").is_ok());
    assert!(parse(b"-9223372036854775808").is_ok());
    assert!(parse(b"9223372036854775808").is_err());
    assert!(parse(b"-9223372036854775809").is_err());
    assert!(parse(b"12345678901234567890").is_err(), "twenty digits");
}

#[test]
fn path_index_grammar_bounds() {
    // up to nine index digits parse; a tenth does not
    assert!(Path::parse(b"$[999999999]").is_ok());
    assert!(Path::parse(b"$[1000000000]").is_err());
}
