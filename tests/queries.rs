use rq::query::Query;
use rq::value::{Number, Value};

fn from_json(v: &serde_json::Value) -> Value {
    match v {
        serde_json::Value::Null => Value::Null,
        serde_json::Value::Bool(b) => Value::Bool(*b),
        serde_json::Value::Number(n) => match n.as_i64() {
            Some(i) => Value::Number(Number::Int(i)),
            None => Value::Number(Number::Decimal(n.to_string())),
        },
        serde_json::Value::String(s) => Value::String(s.clone()),
        serde_json::Value::Array(a) => Value::Array(a.iter().map(from_json).collect()),
        serde_json::Value::Object(o) => {
            Value::Object(o.iter().map(|(k, v)| (k.clone(), from_json(v))).collect())
        }
    }
}

fn to_json(v: &Value) -> serde_json::Value {
    match v {
        Value::Null => serde_json::Value::Null,
        Value::Bool(b) => serde_json::Value::Bool(*b),
        Value::Number(Number::Int(i)) => serde_json::Value::Number((*i).into()),
        Value::Number(Number::Decimal(t)) => serde_json::Value::Number(t.parse().unwrap()),
        Value::String(s) => serde_json::Value::String(s.clone()),
        Value::Array(a) => serde_json::Value::Array(a.iter().map(to_json).collect()),
        Value::Object(o) => serde_json::Value::Object(
            o.iter().map(|(k, v)| (k.clone(), to_json(v))).collect(),
        ),
    }
}

fn doc(text: &str) -> Value {
    let v: serde_json::Value = serde_json::from_str(text).unwrap();
    from_json(&v)
}

fn show(v: &Value) -> String {
    to_json(v).to_string()
}

fn run(filter: &str, text: &str) -> Vec<String> {
    let q: Query = filter.parse().unwrap();
    q.execute(&doc(text)).unwrap().iter().map(show).collect()
}

#[test]
fn lib_identity() {
    let q: Query = ".".parse().unwrap();
    let v = doc(r#""Hello world!""#);
    assert_eq!(r#""Hello world!""#, show(&q.execute(&v).unwrap()[0]));
}

#[test]
fn lib_object_index() {
    let q: Query = ".foo".parse().unwrap();
    let v = doc(r#"{"foo": 42, "bar": "less interesting data"}"#);
    assert_eq!(r#"42"#, show(&q.execute(&v).unwrap()[0]));

    let v = doc(r#"{"notfoo": true, "alsonotfoo": false}"#);
    assert_eq!(r#"null"#, show(&q.execute(&v).unwrap()[0]));

    let v = doc(r#"{"foo": 42}"#);
    assert_eq!(r#"42"#, show(&q.execute(&v).unwrap()[0]));
}

#[test]
fn lib_optional_object_index() {
    let q: Query = ".foo?".parse().unwrap();
    let v = doc(r#"{"foo": 42, "bar": "less interesting data"}"#);
    assert_eq!(r#"42"#, show(&q.execute(&v).unwrap()[0]));

    let v = doc(r#"{"notfoo": true, "alsonotfoo": false}"#);
    assert_eq!(r#"null"#, show(&q.execute(&v).unwrap()[0]));

    let q: Query = ".[\"foo\"]?".parse().unwrap();
    let v = doc(r#"{"foo": 42}"#);
    assert_eq!(r#"42"#, show(&q.execute(&v).unwrap()[0]));

    let q: Query = "[.foo?]".parse().unwrap();
    let v = doc(r#"[1,2]"#);
    assert_eq!(r#"[]"#, show(&q.execute(&v).unwrap()[0]));
}

#[test]
fn lib_array_index() {
    let q: Query = ".[0]".parse().unwrap();
    let v = doc(r#"[{"name":"JSON", "good":true},{"name":"XML", "good":false}]"#);
    assert_eq!(
        r#"{"good":true,"name":"JSON"}"#,
        show(&q.execute(&v).unwrap()[0])
    );

    let q: Query = ".[2]".parse().unwrap();
    assert_eq!(r#"null"#, show(&q.execute(&v).unwrap()[0]));

    let q: Query = ".[-2]".parse::<Query>().unwrap();
    let v = doc(r#"[1,2,3]"#);
    assert_eq!(r#"2"#, show(&q.execute(&v).unwrap()[0]));
}

#[test]
fn lib_iterator() {
    let q: Query = ".[]".parse().unwrap();
    let v = doc(r#"[{"name":"JSON", "good":true}, {"name":"XML", "good":false}]"#);
    let r = q.execute(&v).unwrap();
    assert_eq!(r#"{"good":true,"name":"JSON"}"#, show(&r[0]));
    assert_eq!(r#"{"good":false,"name":"XML"}"#, show(&r[1]));

    let v = doc(r#"{"a": 1, "b": 1}"#);
    let r = q.execute(&v).unwrap();
    assert_eq!(r#"1"#, show(&r[0]));
    assert_eq!(r#"1"#, show(&r[1]));
}

#[test]
fn lib_slice() {
    let q: Query = ".[2:4]".parse().unwrap();
    let v = doc(r#"["a","b","c","d","e"]"#);
    assert_eq!(r#"["c","d"]"#, show(&q.execute(&v).unwrap()[0]));

    let v = doc(r#""abcdefghi""#);
    assert_eq!(r#""cd""#, show(&q.execute(&v).unwrap()[0]));

    let q: Query = ".[:3]".parse().unwrap();
    let v = doc(r#"["a","b","c","d","e"]"#);
    assert_eq!(r#"["a","b","c"]"#, show(&q.execute(&v).unwrap()[0]));

    let q: Query = ".[-2:]".parse().unwrap();
    assert_eq!(r#"["d","e"]"#, show(&q.execute(&v).unwrap()[0]));
}

#[test]
fn lib_split() {
    let q: Query = ".foo,.bar".parse().unwrap();
    let v = doc(r#"{"foo": 42, "bar": "something else", "baz": true}"#);
    let r = q.execute(&v).unwrap();
    assert_eq!(r#"42"#, show(&r[0]));
    assert_eq!(r#""something else""#, show(&r[1]));

    let q: Query = ".user,.projects[]".parse().unwrap();
    let v = doc(r#"{"user":"stedolan", "projects": ["jq", "wikiflow"]}"#);
    let r = q.execute(&v).unwrap();
    assert_eq!(r#""stedolan""#, show(&r[0]));
    assert_eq!(r#""jq""#, show(&r[1]));
    assert_eq!(r#""wikiflow""#, show(&r[2]));
}

#[test]
fn lib_pipe() {
    let q: Query = ".[]|.name".parse().unwrap();
    let v = doc(r#"[{"name":"JSON", "good":true}, {"name":"XML", "good":false}]"#);
    let r = q.execute(&v).unwrap();
    assert_eq!(r#""JSON""#, show(&r[0]));
    assert_eq!(r#""XML""#, show(&r[1]));
}

#[test]
fn lib_array_construction() {
    let q: Query = "[.user,.projects[]]".parse().unwrap();
    let v = doc(r#"{"user":"stedolan", "projects": ["jq", "wikiflow"]}"#);
    assert_eq!(
        r#"["stedolan","jq","wikiflow"]"#,
        show(&q.execute(&v).unwrap()[0])
    );
}

#[test]
fn lib_object_construction() {
    let v = doc(r#"{"user":"stedolan","titles":["JQ Primer", "More JQ"]}"#);

    let q: Query = "{user,title:.titles[]}".parse().unwrap();
    let r = q.execute(&v).unwrap();
    assert_eq!(r#"{"title":"JQ Primer","user":"stedolan"}"#, show(&r[0]));
    assert_eq!(r#"{"title":"More JQ","user":"stedolan"}"#, show(&r[1]));

    let q: Query = "{(.user):.titles}".parse().unwrap();
    assert_eq!(
        r#"{"stedolan":["JQ Primer","More JQ"]}"#,
        show(&q.execute(&v).unwrap()[0])
    );
}

#[test]
fn filter_identity() {
    let f: Query = ".".parse().unwrap();
    let v = doc(r#""Hello world!""#);
    assert_eq!(r#""Hello world!""#, show(&f.execute(&v).unwrap()[0]));
}

#[test]
fn filter_object_index() {
    let f: Query = ".foo".parse().unwrap();
    let v = doc(r#"{"foo": 42, "bar": "less interesting data"}"#);
    assert_eq!(r#"42"#, show(&f.execute(&v).unwrap()[0]));

    let v = doc(r#"{"notfoo": true, "alsonotfoo": false}"#);
    assert_eq!(r#"null"#, show(&f.execute(&v).unwrap()[0]));

    let v = doc(r#"{"foo": 42}"#);
    assert_eq!(r#"42"#, show(&f.execute(&v).unwrap()[0]));
}

#[test]
fn filter_optional_object_index() {
    let f: Query = ".foo?".parse().unwrap();
    let v = doc(r#"{"foo": 42, "bar": "less interesting data"}"#);
    assert_eq!(r#"42"#, show(&f.execute(&v).unwrap()[0]));

    let v = doc(r#"{"notfoo": true, "alsonotfoo": false}"#);
    assert_eq!(r#"null"#, show(&f.execute(&v).unwrap()[0]));

    let f: Query = ".[\"foo\"]?".parse().unwrap();
    let v = doc(r#"{"foo": 42}"#);
    assert_eq!(r#"42"#, show(&f.execute(&v).unwrap()[0]));

    // Array construction is part of the language: the literal parses.
    assert!("[.foo?]".parse::<Query>().is_ok());
}

#[test]
fn filter_array_index() {
    let f: Query = ".[0]".parse().unwrap();
    let v = doc(r#"[{"name":"JSON", "good":true},{"name":"XML", "good":false}]"#);
    assert_eq!(
        r#"{"good":true,"name":"JSON"}"#,
        show(&f.execute(&v).unwrap()[0])
    );

    let f: Query = ".[2]".parse().unwrap();
    assert_eq!(r#"null"#, show(&f.execute(&v).unwrap()[0]));

    let f: Query = ".[-2]".parse::<Query>().unwrap();
    let v = doc(r#"[1,2,3]"#);
    assert_eq!(r#"2"#, show(&f.execute(&v).unwrap()[0]));
}

#[test]
fn filter_iterator() {
    let f: Query = ".[]".parse().unwrap();
    let v = doc(r#"[{"name":"JSON", "good":true}, {"name":"XML", "good":false}]"#);
    let r = f.execute(&v).unwrap();
    assert_eq!(r#"{"good":true,"name":"JSON"}"#, show(&r[0]));
    assert_eq!(r#"{"good":false,"name":"XML"}"#, show(&r[1]));

    let v = doc(r#"{"a": 1, "b": 1}"#);
    let r = f.execute(&v).unwrap();
    assert_eq!(r#"1"#, show(&r[0]));
    assert_eq!(r#"1"#, show(&r[1]));
}

#[test]
fn filter_slice() {
    let f: Query = ".[2:4]".parse::<Query>().unwrap();
    let v = doc(r#"["a","b","c","d","e"]"#);
    assert_eq!(r#"["c","d"]"#, show(&f.execute(&v).unwrap()[0]));

    let v = doc(r#""abcdefghi""#);
    assert_eq!(r#""cd""#, show(&f.execute(&v).unwrap()[0]));

    let f: Query = ".[:3]".parse::<Query>().unwrap();
    let v = doc(r#"["a","b","c","d","e"]"#);
    assert_eq!(r#"["a","b","c"]"#, show(&f.execute(&v).unwrap()[0]));

    let f: Query = ".[-2:]".parse::<Query>().unwrap();
    assert_eq!(r#"["d","e"]"#, show(&f.execute(&v).unwrap()[0]));
}

#[test]
fn scenario_missing_key_is_null() {
    assert_eq!(vec!["42"], run(".foo", r#"{"foo": 42, "bar": "x"}"#));
    assert_eq!(vec!["null"], run(".foo", r#"{"notfoo": true}"#));
}

#[test]
fn scenario_negative_index_and_slice() {
    assert_eq!(vec!["2"], run(".[-2]", "[1,2,3]"));
    assert_eq!(vec![r#"["c","d"]"#], run(".[2:4]", r#"["a","b","c","d","e"]"#));
}

#[test]
fn scenario_split_and_iterate() {
    assert_eq!(
        vec![r#""stedolan""#, r#""jq""#, r#""wikiflow""#],
        run(
            ".user,.projects[]",
            r#"{"user":"stedolan","projects":["jq","wikiflow"]}"#
        )
    );
}

#[test]
fn scenario_computed_key() {
    assert_eq!(
        vec![r#"{"stedolan":["JQ Primer","More JQ"]}"#],
        run(
            "{(.user):.titles}",
            r#"{"user":"stedolan","titles":["JQ Primer","More JQ"]}"#
        )
    );
}

#[test]
fn scenario_empty_filter() {
    let q: Query = "".parse().unwrap();
    assert_eq!(Query::Empty, q);
    assert!(q.execute(&doc(r#"{"a": 1}"#)).unwrap().is_empty());
    assert!(q.execute(&doc("null")).unwrap().is_empty());
}

#[test]
fn scenario_null_mid_chain() {
    assert_eq!(vec!["null"], run(".a.b", r#"{"a": null}"#));
}
