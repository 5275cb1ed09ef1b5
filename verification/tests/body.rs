//! Body assertions against captured responses, mirroring the shapes the
//! request-level suite exercises: structured values, raw JSON text, and
//! path-scoped matchers.

use grillon::context::{AssertionContext, CapturedResponse};
use grillon::dsl::{is, is_not, json_path, Expected};
use grillon::matcher::Outcome;
use grillon::value::Value;

fn s(x: &str) -> Value {
    Value::Str(x.as_bytes().to_vec())
}

fn user_body() -> Vec<u8> {
    br#"{"id":1,"name":"Isaac"}"#.to_vec()
}

fn user_value() -> Value {
    Value::Obj(vec![
        (b"id".to_vec(), Value::Num(1)),
        (b"name".to_vec(), s("Isaac")),
    ])
}

fn captured(body: Vec<u8>) -> AssertionContext {
    AssertionContext::new(CapturedResponse {
        status: 200,
        headers: vec![(b"content-type".to_vec(), b"application/json".to_vec())],
        body,
    })
}

#[test]
fn json_body() {
    let mut ctx = captured(user_body());
    let outcome = ctx.json_body(&is(Expected::Structured(user_value())));
    assert!(matches!(outcome, Outcome::Pass));
}

#[test]
fn raw_string_body() {
    let mut ctx = captured(user_body());
    let raw = br#"
        {
            "id": 1,
            "name": "Isaac"
        }
        "#
    .to_vec();
    let outcome = ctx.json_body(&is(Expected::Text(raw)));
    assert!(matches!(outcome, Outcome::Pass));
}

#[test]
fn string_body() {
    let mut ctx = captured(user_body());
    let json = String::from(
        r#"
    {
        "id": 1,
        "name": "Isaac"
    }
    "#,
    );
    let outcome = ctx.json_body(&is(Expected::Text(json.into_bytes())));
    assert!(matches!(outcome, Outcome::Pass));
}

#[test]
fn it_should_not_be_equals() {
    let mut ctx = captured(user_body());
    let other = Value::Obj(vec![
        (b"id".to_vec(), Value::Num(101)),
        (b"name".to_vec(), s("Ecbert")),
    ]);
    let outcome = ctx.json_body(&is_not(Expected::Structured(other)));
    assert!(matches!(outcome, Outcome::Pass));
}

#[test]
#[should_panic]
fn it_should_fail_to_compare_bad_body() {
    let mut ctx = captured(user_body());
    let other = Value::Obj(vec![
        (b"id".to_vec(), Value::Num(100)),
        (b"name".to_vec(), s("Tom")),
    ]);
    let outcome = ctx.json_body(&is(Expected::Structured(other)));
    if let Outcome::Fail(f) = outcome {
        panic!(
            "expected {:?}, got {:?} at {:?}",
            String::from_utf8_lossy(&f.expected),
            String::from_utf8_lossy(&f.actual),
            String::from_utf8_lossy(&f.location)
        );
    }
}

#[test]
#[should_panic]
fn it_should_fail_to_compare_inexistant_body() {
    let mut ctx = captured(Vec::new());
    let outcome = ctx.json_body(&is(Expected::Structured(user_value())));
    if let Outcome::Fail(f) = outcome {
        panic!("no body: {:?}", String::from_utf8_lossy(&f.actual));
    }
}

#[test]
fn json_path_should_be_equals() {
    let mut ctx = captured(user_body());
    // "$" resolves to one value: the whole body object
    let m = json_path(b"$", is(Expected::Structured(user_value()))).unwrap();
    let outcome = ctx.json_body(&m);
    assert!(matches!(outcome, Outcome::Pass));
}

#[test]
fn json_path_should_not_be_equal() {
    let mut ctx = captured(user_body());
    let other = Value::Obj(vec![
        (b"id".to_vec(), Value::Num(2)),
        (b"name".to_vec(), s("Max")),
    ]);
    let m = json_path(b"$", is_not(Expected::Structured(other))).unwrap();
    let outcome = ctx.json_body(&m);
    assert!(matches!(outcome, Outcome::Pass));
}
