use rq::raw::Raw;
use rq::value::{Number, Value};

fn number_of(n: serde_json::Number) -> Value {
    match n.as_i64() {
        Some(i) => Value::Number(Number::Int(i)),
        None => Value::Number(Number::Decimal(n.to_string())),
    }
}

#[test]
fn parse_raw_string() {
    assert!(Raw::parse("foo").is_err());
    assert!(Raw::parse("\"foo").is_err());
    assert!(Raw::parse("foo\"").is_err());

    assert_eq!(
        Raw(Value::String("".to_string())),
        Raw::parse("\"\"").unwrap()
    );
    assert_eq!(
        Raw(Value::String("f o o".to_string())),
        Raw::parse("\"f o o\"").unwrap()
    );
}

#[test]
fn parse_raw_number() {
    assert!(Raw::parse("--4").is_err());
    assert!(Raw::parse("0..5").is_err());
    assert!(Raw::parse("4 4").is_err());

    assert_eq!(
        Raw(number_of(serde_json::Number::from(-4))),
        Raw::parse("-4").unwrap()
    );
    assert_eq!(
        Raw(number_of(serde_json::Number::from_f64(0.5).unwrap())),
        Raw::parse("0.5").unwrap()
    );
}

#[test]
fn parse_raw_null() {
    assert_eq!(Raw(Value::Null), Raw::parse("null").unwrap());
    assert!(Raw::parse("nul").is_err());
}
