use rq::combinator::{Chain, Optional, Split};
use rq::index::Index;
use rq::query::Query;
use rq::range::Range;

#[test]
fn parse_split() {
    assert!(",.".parse::<Query>().is_err());
    assert!(".,,.".parse::<Query>().is_err());
    assert!(",,".parse::<Query>().is_err());

    assert_eq!(
        Query::Split(Box::new(Split(
            Query::Identity,
            Query::Split(Box::new(Split(Query::Identity, Query::Identity)))
        ))),
        ".,.,.".parse().unwrap()
    );
    assert_eq!(
        Query::Split(Box::new(Split(
            Query::Index(Index::String("foo".to_string())),
            Query::Index(Index::String("bar".to_string()))
        ))),
        ".foo,.bar".parse().unwrap()
    );
}

#[test]
fn parse_pipe_chain() {
    assert!("|.".parse::<Query>().is_err());
    assert!(".||.".parse::<Query>().is_err());
    assert!("|".parse::<Query>().is_err());

    assert_eq!(
        Query::Chain(Box::new(Chain(
            Query::Identity,
            Query::Chain(Box::new(Chain(Query::Identity, Query::Identity)))
        ))),
        ".|.|.".parse().unwrap()
    );
    assert_eq!(
        Query::Chain(Box::new(Chain(
            Query::Index(Index::String("foo".to_string())),
            Query::Index(Index::String("bar".to_string()))
        ))),
        ".foo|.bar".parse().unwrap()
    );
}

#[test]
fn parse_pipe() {
    assert!("|.".parse::<Query>().is_err());
    assert!(".||.".parse::<Query>().is_err());
    assert!("|".parse::<Query>().is_err());

    assert_eq!(
        Query::Chain(Box::new(Chain(
            Query::Identity,
            Query::Chain(Box::new(Chain(Query::Identity, Query::Identity)))
        ))),
        ".|.|.".parse().unwrap()
    );
    assert_eq!(
        Query::Chain(Box::new(Chain(
            Query::Index(Index::String("foo".to_string())),
            Query::Index(Index::String("bar".to_string()))
        ))),
        ".foo|.bar".parse().unwrap()
    );
}

#[test]
fn parse_optional() {
    assert!(Query::parse(".?").is_err());
    assert!(Query::parse(".[]??").is_err());
    assert!(Query::parse("?").is_err());
    assert!(Query::parse(".[0] ?").is_err());

    assert_eq!(
        Query::Optional(Box::new(Optional(Query::Index(Index::String(
            "foo".to_string()
        ))))),
        Query::parse(".foo?").unwrap()
    );
    assert_eq!(
        Query::Optional(Box::new(Optional(Query::Index(Index::String(
            "foo".to_string()
        ))))),
        Query::parse(".[\"foo\"]?").unwrap()
    );
    assert_eq!(
        Query::Optional(Box::new(Optional(Query::Index(Index::Integer(0))))),
        Query::parse(".[0]?").unwrap()
    );
    assert_eq!(
        Query::Optional(Box::new(Optional(Query::Index(Index::Slice(
            Range::lower(1)
        ))))),
        Query::parse(".[1:]?").unwrap()
    );
    assert_eq!(
        Query::Optional(Box::new(Optional(Query::Iterator))),
        ".[]?".parse().unwrap()
    );
}

#[test]
fn parse_index_chain() {
    assert!(Query::parse(".foo.[0]").is_err());
    assert!(Query::parse(".foo .foo").is_err());
    assert!(Query::parse(".[0].[0]").is_err());

    assert_eq!(
        Query::Chain(Box::new(Chain(
            Query::Index(Index::String("foo".to_string())),
            Query::Chain(Box::new(Chain(
                Query::Index(Index::String("bar".to_string())),
                Query::Index(Index::String("baz".to_string()))
            )))
        ))),
        Query::parse(".foo.bar.baz").unwrap()
    );

    assert_eq!(
        Query::Chain(Box::new(Chain(
            Query::Index(Index::Integer(5)),
            Query::Chain(Box::new(Chain(
                Query::Index(Index::Integer(8)),
                Query::Index(Index::Integer(13))
            )))
        ))),
        Query::parse(".[5][8][13]").unwrap()
    );
}

#[test]
fn parse_iterator_chain() {
    assert!(Query::parse(".[].[]").is_err());
    assert!(Query::parse(".[] []").is_err());
    assert!(Query::parse(".[] .[]").is_err());

    assert_eq!(
        Query::Chain(Box::new(Chain(
            Query::Iterator,
            Query::Chain(Box::new(Chain(Query::Iterator, Query::Iterator)))
        ))),
        ".[][][]".parse().unwrap()
    );
}
