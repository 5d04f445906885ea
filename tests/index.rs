use rq::index::Index;
use rq::query::Query;
use rq::range::Range;

#[test]
fn parse_object_index() {
    assert!(Index::parse("foo").is_err());
    assert!(Index::parse(".foo").is_err());
    assert!(Index::parse("f$$").is_err());
    assert!(Index::parse("[f$$]").is_err());
    assert!(Index::parse("[foo]").is_err());
    assert!(Index::parse("[\"foo]").is_err());
    assert!(Index::parse("[foo\"]").is_err());

    assert_eq!(
        Index::String("f o o".to_string()),
        Index::parse("[ \"f o o\" ]").unwrap()
    );

    // Shorthand object index only through full query
    // This is because of ambiguity with initial dot
    assert_eq!(
        Query::Index(Index::String("foo".to_string())),
        Query::parse(".foo").unwrap()
    );

    // The same cases through whole queries.
    assert!("foo".parse::<Query>().is_err());
    assert!("..foo".parse::<Query>().is_err());
    assert!(".f$$".parse::<Query>().is_err());
    assert!(".[f$$]".parse::<Query>().is_err());
    assert!(".[foo]".parse::<Query>().is_err());
    assert!(".[\"foo]".parse::<Query>().is_err());
    assert!(".[foo\"]".parse::<Query>().is_err());

    assert_eq!(
        Query::Index(Index::String("foo".to_string())),
        ".foo".parse().unwrap()
    );
    assert_eq!(
        Query::Optional(Box::new(rq::combinator::Optional(Query::Index(Index::String(
            "foo".to_string()
        ))))),
        ".foo?".parse().unwrap()
    );
    assert_eq!(
        Query::Index(Index::String("foo".to_string())),
        ".[\"foo\"]".parse().unwrap()
    );
    assert_eq!(
        Query::Optional(Box::new(rq::combinator::Optional(Query::Index(Index::String(
            "foo".to_string()
        ))))),
        ".[\"foo\"]?".parse().unwrap()
    );
    assert_eq!(
        Query::Chain(Box::new(rq::combinator::Chain(
            Query::Index(Index::String("foo".to_string())),
            Query::Chain(Box::new(rq::combinator::Chain(
                Query::Index(Index::String("bar".to_string())),
                Query::Index(Index::String("baz".to_string()))
            )))
        ))),
        ".foo.bar.baz".parse().unwrap()
    );
}

#[test]
fn parse_array_index() {
    assert!(Index::parse("[a]").is_err());
    assert!(Index::parse(".[0]").is_err());

    assert_eq!(Index::Integer(0), Index::parse("[ 0 ]").unwrap());
    assert_eq!(Index::Integer(-1), Index::parse("[-1]").unwrap());
    assert_eq!(Index::Integer(9001), Index::parse("[9001]").unwrap());

    // The same cases through whole queries.
    assert!("[0]".parse::<Query>().is_err());
    assert!(".[a]".parse::<Query>().is_err());
    assert!("..[0]".parse::<Query>().is_err());
    assert!(".[0].[0]".parse::<Query>().is_err());

    assert_eq!(Query::Index(Index::Integer(0)), ".[0]".parse().unwrap());
    assert_eq!(Query::Index(Index::Integer(-1)), ".[-1]".parse().unwrap());
    assert_eq!(
        Query::Optional(Box::new(rq::combinator::Optional(Query::Index(Index::Integer(0))))),
        ".[0]?".parse().unwrap()
    );
    assert_eq!(
        Query::Index(Index::Integer(9001)),
        ".[9001]".parse().unwrap()
    );
    assert_eq!(
        Query::Chain(Box::new(rq::combinator::Chain(
            Query::Index(Index::Integer(5)),
            Query::Chain(Box::new(rq::combinator::Chain(
                Query::Index(Index::Integer(8)),
                Query::Index(Index::Integer(13))
            )))
        ))),
        ".[5][8][13]".parse().unwrap()
    );
}

#[test]
fn parse_slice_index() {
    assert!(Index::parse("[:]").is_err());
    assert!(Index::parse("[1::2]").is_err());
    assert!(Index::parse("[:2:]").is_err());
    assert!(Index::parse("[--2]").is_err());
    assert!(Index::parse("[-2:4:]").is_err());
    assert!(Index::parse("[a]").is_err());

    assert_eq!(
        Index::Slice(Range::new((-1, 2))),
        Index::parse("[ -1:2 ]").unwrap()
    );
    assert_eq!(Index::Slice(Range::upper(2)), Index::parse("[:2]").unwrap());
    assert_eq!(
        Index::Slice(Range::new((9001, -9001))),
        Index::parse("[9001:-9001]").unwrap()
    );
}

#[test]
fn parse_index_out_of_range_integer() {
    assert!(Index::parse("[2147483648]").is_err());
    assert_eq!(Index::Integer(i32::MIN), Index::parse("[-2147483648]").unwrap());
    assert_eq!(Index::Integer(7), Index::parse("[+7]").unwrap());
}
