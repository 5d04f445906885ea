use rq::combinator::{Chain, Optional};
use rq::index::{Index, IndexKind};
use rq::operators::Sign;
use rq::query::Query;
use rq::range::Range;
use rq::value::{Kind, Number, Value};
use rq::QueryError;

fn from_json(v: &serde_json::Value) -> Value {
    match v {
        serde_json::Value::Null => Value::Null,
        serde_json::Value::Bool(b) => Value::Bool(*b),
        serde_json::Value::Number(n) => match n.as_i64() {
            Some(i) => Value::Number(Number::Int(i)),
            None => Value::Number(Number::Decimal(n.to_string())),
        },
        serde_json::Value::String(s) => Value::String(s.clone()),
        serde_json::Value::Array(a) => Value::Array(a.iter().map(from_json).collect()),
        serde_json::Value::Object(o) => {
            Value::Object(o.iter().map(|(k, v)| (k.clone(), from_json(v))).collect())
        }
    }
}

fn doc(text: &str) -> Value {
    let v: serde_json::Value = serde_json::from_str(text).unwrap();
    from_json(&v)
}

fn docs(texts: &[&str]) -> Vec<Value> {
    texts.iter().map(|t| doc(t)).collect()
}

fn eval(filter: &str, text: &str) -> Result<Vec<Value>, QueryError> {
    let q: Query = filter.parse().unwrap();
    q.execute(&doc(text))
}

fn chain(a: Query, b: Query) -> Query {
    Query::Chain(Box::new(Chain(a, b)))
}

#[test]
fn identity_yields_input() {
    for text in ["null", "true", "42", r#""s""#, "[1,[2]]", r#"{"a":{"b":[]}}"#] {
        assert_eq!(docs(&[text]), Query::Identity.execute(&doc(text)).unwrap());
    }
}

#[test]
fn null_absorbs_lookups() {
    for filter in [".foo", ".[0]", ".[1:2]", ".[]", "..", ".a.b.c"] {
        assert_eq!(vec![Value::Null], eval(filter, "null").unwrap());
    }
    assert!(Query::Empty.execute(&Value::Null).unwrap().is_empty());
}

#[test]
fn chains_associate() {
    let v = doc(r#"[[{"x":1}],[{"x":2},{"x":3}]]"#);
    let x = || Query::Index(Index::String("x".to_string()));
    let left = chain(chain(Query::Iterator, Query::Iterator), x());
    let right = chain(Query::Iterator, chain(Query::Iterator, x()));
    assert_eq!(docs(&["1", "2", "3"]), left.execute(&v).unwrap());
    assert_eq!(left.execute(&v).unwrap(), right.execute(&v).unwrap());
}

#[test]
fn optional_absorbs_failures() {
    let q = Query::Optional(Box::new(Optional(Query::Iterator)));
    assert!(q.execute(&doc("5")).unwrap().is_empty());
    assert!(eval(".a[]?", r#"{"a": 5}"#).unwrap().is_empty());
    assert_eq!(vec![Value::Null], eval(".foo?", r#"{"x":1}"#).unwrap());
    assert!(eval(".foo?", "[1,2]").unwrap().is_empty());
}

#[test]
fn slice_in_bounds_is_subarray() {
    let v = doc("[1,2,3,4,5]");
    let q = Query::Index(Index::Slice(Range::new((1, 4))));
    assert_eq!(vec![doc("[2,3,4]")], q.execute(&v).unwrap());
    let q = Query::Index(Index::Slice(Range::new((2, 2))));
    assert_eq!(vec![doc("[]")], q.execute(&v).unwrap());
    let q = Query::Index(Index::Slice(Range::new((3, 1))));
    assert_eq!(vec![doc("[]")], q.execute(&v).unwrap());
}

#[test]
fn negative_index_counts_from_end() {
    let v = doc("[10,20,30]");
    for k in 1..=3 {
        let neg = Query::Index(Index::Integer(-k));
        let pos = Query::Index(Index::Integer(3 - k));
        assert_eq!(neg.execute(&v).unwrap(), pos.execute(&v).unwrap());
    }
    assert_eq!(vec![doc("10")], eval(".[-3]", "[10,20,30]").unwrap());
    assert_eq!(vec![Value::Null], eval(".[-4]", "[10,20,30]").unwrap());
    assert_eq!(vec![Value::Null], eval(".[3]", "[10,20,30]").unwrap());
}

#[test]
fn slice_of_string_counts_characters() {
    assert_eq!(vec![doc(r#""éü""#)], eval(".[1:3]", r#""aéüz""#).unwrap());
    assert_eq!(vec![doc(r#""""#)], eval(".[5:]", r#""abc""#).unwrap());
}

#[test]
fn recursion_visits_parents_first() {
    assert_eq!(
        docs(&[r#"{"a":[1,{"b":2}]}"#, r#"[1,{"b":2}]"#, "1", r#"{"b":2}"#, "2"]),
        eval("..", r#"{"a":[1,{"b":2}]}"#).unwrap()
    );
    assert_eq!(docs(&["7"]), eval("..", "7").unwrap());
}

#[test]
fn lookup_errors() {
    assert_eq!(
        Err(QueryError::Index(Kind::Array, IndexKind::String)),
        eval(".foo", "[1]")
    );
    assert_eq!(
        Err(QueryError::Index(Kind::Object, IndexKind::Number)),
        eval(".[0]", "{}")
    );
    assert_eq!(
        Err(QueryError::Index(Kind::Number, IndexKind::Slice)),
        eval(".[1:]", "5")
    );
    assert_eq!(Err(QueryError::Iterate(Kind::Bool)), eval(".[]", "true"));
    assert_eq!(
        Err(QueryError::Index(Kind::Object, IndexKind::Number)),
        eval(".a, .[0]", r#"{"a":1}"#)
    );
}

#[test]
fn computed_keys_must_be_strings() {
    assert_eq!(
        Err(QueryError::ObjectKey(Kind::Number)),
        eval("{(.a): .b}", r#"{"a": 3, "b": 1}"#)
    );
}

#[test]
fn object_literal_multiplies_choices() {
    assert_eq!(
        docs(&[
            r#"{"a":1,"b":3}"#,
            r#"{"a":1,"b":4}"#,
            r#"{"a":2,"b":3}"#,
            r#"{"a":2,"b":4}"#
        ]),
        eval("{a: .x[], b: .y[]}", r#"{"x":[1,2],"y":[3,4]}"#).unwrap()
    );
    assert_eq!(
        docs(&[r#"{"a":2}"#]),
        eval("{a: .x, a: .y}", r#"{"x":1,"y":2}"#).unwrap()
    );
    assert_eq!(docs(&["{}"]), eval("{}", "null").unwrap());
    assert!(eval("{a: .x[]}", r#"{"x":[]}"#).unwrap().is_empty());
}

#[test]
fn chain_skips_second_step_on_no_results() {
    assert!(eval(".[] | .foo", "[]").unwrap().is_empty());
}

#[test]
fn addition() {
    assert_eq!(docs(&["3"]), eval(".a + .b", r#"{"a":1,"b":2}"#).unwrap());
    assert_eq!(docs(&[r#""abcd""#]), eval(".a + .b", r#"{"a":"ab","b":"cd"}"#).unwrap());
    assert_eq!(docs(&["[1,2,3]"]), eval(".a + .b", r#"{"a":[1],"b":[2,3]}"#).unwrap());
    assert_eq!(
        docs(&[r#"{"a":{"x":1,"y":2},"b":1}"#]),
        eval(".l + .r", r#"{"l":{"a":{"x":1},"b":1},"r":{"a":{"y":2}}}"#).unwrap()
    );
    assert_eq!(docs(&["5"]), eval(".n + .a", r#"{"a":5}"#).unwrap());
    assert_eq!(docs(&["5"]), eval(".a + .n", r#"{"a":5}"#).unwrap());
    assert_eq!(
        Err(QueryError::Operation(Sign::Add, Kind::String, Kind::Number)),
        eval(".a + .b", r#"{"a":"x","b":1}"#)
    );
    assert_eq!(
        Err(QueryError::Numerical),
        eval(".a + .b", r#"{"a":9223372036854775807,"b":1}"#)
    );
}

#[test]
fn addition_broadcasts() {
    assert_eq!(
        docs(&["11", "21", "12", "22"]),
        eval(".a[] + .b[]", r#"{"a":[1,2],"b":[10,20]}"#).unwrap()
    );
}

#[test]
fn subtraction() {
    assert_eq!(docs(&["-2"]), eval(".a - .b", r#"{"a":5,"b":7}"#).unwrap());
    assert_eq!(docs(&["[1,3]"]), eval(".a - .b", r#"{"a":[1,2,3,2],"b":[2]}"#).unwrap());
    assert_eq!(docs(&["5"]), eval(".a - .n", r#"{"a":5}"#).unwrap());
    assert_eq!(
        Err(QueryError::Operation(Sign::Sub, Kind::Null, Kind::Number)),
        eval(".n - .a", r#"{"a":5}"#)
    );
}

#[test]
fn multiplication() {
    assert_eq!(docs(&["42"]), eval(".a * .b", r#"{"a":6,"b":7}"#).unwrap());
    assert_eq!(docs(&[r#""ababab""#]), eval(".a * .b", r#"{"a":"ab","b":3}"#).unwrap());
    assert_eq!(docs(&["null"]), eval(".a * .b", r#"{"a":"ab","b":0}"#).unwrap());
    assert_eq!(Err(QueryError::Numerical), eval(".a * .b", r#"{"a":"ab","b":-1}"#));
    assert_eq!(
        docs(&[r#"{"a":{"x":1,"y":2}}"#]),
        eval(".l * .r", r#"{"l":{"a":{"x":1}},"r":{"a":{"y":2}}}"#).unwrap()
    );
    assert_eq!(
        Err(QueryError::Operation(Sign::Mul, Kind::Array, Kind::Array)),
        eval(".a * .a", r#"{"a":[]}"#)
    );
}

#[test]
fn division() {
    assert_eq!(docs(&["3"]), eval(".a / .b", r#"{"a":12,"b":4}"#).unwrap());
    assert_eq!(docs(&["-3"]), eval(".a / .b", r#"{"a":12,"b":-4}"#).unwrap());
    assert_eq!(Err(QueryError::Numerical), eval(".a / .b", r#"{"a":1,"b":0}"#));
    assert_eq!(Err(QueryError::Numerical), eval(".a / .b", r#"{"a":7,"b":2}"#));
    assert_eq!(
        docs(&[r#"["a","b","c"]"#]),
        eval(".a / .b", r#"{"a":"a,b,c","b":","}"#).unwrap()
    );
    assert_eq!(
        docs(&[r#"["","a","b",""]"#]),
        eval(".a / .b", r#"{"a":"ab","b":""}"#).unwrap()
    );
    assert_eq!(
        docs(&[r#"["x","","y"]"#]),
        eval(".a / .b", r#"{"a":"x--y","b":"-"}"#).unwrap()
    );
}

#[test]
fn remainder() {
    assert_eq!(docs(&["1"]), eval(".a % .b", r#"{"a":7,"b":3}"#).unwrap());
    assert_eq!(docs(&["-1"]), eval(".a % .b", r#"{"a":-7,"b":3}"#).unwrap());
    assert_eq!(Err(QueryError::Numerical), eval(".a % .b", r#"{"a":7,"b":0}"#));
    assert_eq!(docs(&["7"]), eval(".a % .n", r#"{"a":7}"#).unwrap());
    assert_eq!(
        Err(QueryError::Operation(Sign::Mod, Kind::String, Kind::String)),
        eval(".a % .a", r#"{"a":"s"}"#)
    );
}

#[test]
fn non_integer_arithmetic_is_numerical() {
    assert_eq!(Err(QueryError::Numerical), eval(".a + .b", r#"{"a":1.5,"b":1}"#));
}

#[test]
fn concatenation_helper() {
    let a = docs(&["1", "2"]);
    let b = docs(&["3"]);
    assert_eq!(docs(&["1", "2", "3"]), rq::operators::chain_collect(&a, &b));
}

#[test]
fn reassociated_chains_fail_together() {
    let v = doc("[[1], 5]");
    let x = || Query::Index(Index::String("x".to_string()));
    let left = chain(chain(Query::Iterator, Query::Iterator), x());
    let right = chain(Query::Iterator, chain(Query::Iterator, x()));
    assert_eq!(Err(QueryError::Iterate(Kind::Number)), left.execute(&v));
    assert_eq!(
        Err(QueryError::Index(Kind::Number, IndexKind::String)),
        right.execute(&v)
    );
}

#[test]
fn split_reports_left_failure_first() {
    assert_eq!(
        Err(QueryError::Index(Kind::Number, IndexKind::String)),
        eval(".a, .[]", "5")
    );
}
