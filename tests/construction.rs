use rq::combinator::Split;
use rq::construction::{Construct, Key};
use rq::index::Index;
use rq::query::Query;

#[test]
fn construction_array_construction() {
    assert!(Construct::parse("[").is_err());
    assert!(Construct::parse("]").is_err());
    assert!(Construct::parse("].[").is_err());
    assert!(Construct::parse("[]").is_err());

    assert_eq!(
        Construct::Array(Box::new(Query::Identity)),
        Construct::parse("[.]").unwrap()
    );
    assert_eq!(
        Construct::Array(Box::new(Query::Split(Box::new(Split(
            Query::Index(Index::String("foo".to_string())),
            Query::Index(Index::String("bar".to_string()))
        ))))),
        Construct::parse("[.foo,.bar]").unwrap()
    );
}

#[test]
fn construction_object_construction() {
    assert!(Construct::parse("{").is_err());
    assert!(Construct::parse("}").is_err());
    assert!(Construct::parse("}{").is_err());
    assert!(Construct::parse("{:}").is_err());
    assert!(Construct::parse("{foo:}").is_err());
    assert!(Construct::parse("{:.}").is_err());
    assert!(Construct::parse("{.:.}").is_err());
    assert!(Construct::parse("{():.}").is_err());

    assert_eq!(Construct::Object(vec![]), Construct::parse("{}").unwrap());
    assert_eq!(
        Construct::Object(vec![
            Construct::shorthand("foo".to_string()),
            (
                Key::Simple("bar".to_string()),
                Query::Index(Index::String("bar".to_string()))
            ),
            (
                Key::Query(Query::Index(Index::String("baz".to_string()))),
                Query::Iterator
            )
        ]),
        Construct::parse("{foo,bar:.bar,(.baz):.[]}").unwrap()
    );
}

#[test]
fn parse_array_construction() {
    assert!("[".parse::<Query>().is_err());
    assert!("]".parse::<Query>().is_err());
    assert!("].[".parse::<Query>().is_err());
    assert!("[]".parse::<Query>().is_err());

    assert_eq!(
        Query::Contruct(Construct::Array(Box::new(Query::Identity))),
        "[.]".parse().unwrap()
    );
    assert_eq!(
        Query::Contruct(Construct::Array(Box::new(Query::Split(Box::new(Split(
            Query::Index(Index::String("foo".to_string())),
            Query::Index(Index::String("bar".to_string()))
        )))))),
        "[.foo,.bar]".parse().unwrap()
    );
}

#[test]
fn parse_object_construction() {
    assert!("{".parse::<Query>().is_err());
    assert!("}".parse::<Query>().is_err());
    assert!("}{".parse::<Query>().is_err());
    assert!("{:}".parse::<Query>().is_err());
    assert!("{foo:}".parse::<Query>().is_err());
    assert!("{:.}".parse::<Query>().is_err());
    assert!("{.:.}".parse::<Query>().is_err());
    assert!("{():.}".parse::<Query>().is_err());

    assert_eq!(
        Query::Contruct(Construct::Object(vec![])),
        "{}".parse().unwrap()
    );
    assert_eq!(
        Query::Contruct(Construct::Object(vec![
            Construct::shorthand("foo".to_string()),
            (
                Key::Simple("bar".to_string()),
                Query::Index(Index::String("bar".to_string()))
            ),
            (
                Key::Query(Query::Index(Index::String("baz".to_string()))),
                Query::Iterator
            )
        ])),
        "{foo,bar:.bar,(.baz):.[]}".parse().unwrap()
    );
}

#[test]
fn parse_quoted_object_key() {
    assert_eq!(
        Construct::Object(vec![(
            Key::Simple("a b".to_string()),
            Query::Identity
        )]),
        Construct::parse("{ \"a b\" : . }").unwrap()
    );
}
