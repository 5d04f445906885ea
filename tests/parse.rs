use rq::combinator::{Chain, Optional, Split};
use rq::index::Index;
use rq::operators::{Op, Sign};
use rq::parse::ParseError;
use rq::query::Query;
use rq::range::Range;

#[test]
fn simple() {
    assert!("...".parse::<Query>().is_err());
    assert_eq!(Query::Recurse, "..".parse().unwrap());
    assert_eq!(Query::Identity, ".".parse().unwrap());
    assert_eq!(Query::Empty, "".parse().unwrap());
}

#[test]
fn parse_iterator() {
    assert!("[]".parse::<Query>().is_err());
    assert!(".[".parse::<Query>().is_err());
    assert!(".]".parse::<Query>().is_err());
    assert!(".[].[]".parse::<Query>().is_err());

    assert_eq!(Query::Iterator, ".[]".parse().unwrap());
    assert_eq!(
        Query::Optional(Box::new(Optional(Query::Iterator))),
        ".[]?".parse().unwrap()
    );
    assert_eq!(
        Query::Chain(Box::new(Chain(
            Query::Iterator,
            Query::Chain(Box::new(Chain(Query::Iterator, Query::Iterator)))
        ))),
        ".[][][]".parse().unwrap()
    );
}

#[test]
fn parse_slice() {
    assert!(".[:]".parse::<Query>().is_err());
    assert!(".[1::2]".parse::<Query>().is_err());
    assert!(".[:2:]".parse::<Query>().is_err());
    assert!(".[--2]".parse::<Query>().is_err());
    assert!(".[-2:4:]".parse::<Query>().is_err());
    assert!(".[a]".parse::<Query>().is_err());
    assert!("..[1:2]".parse::<Query>().is_err());

    assert_eq!(
        Query::Index(Index::Slice(Range::new((-1, 2)))),
        ".[-1:2]".parse().unwrap()
    );
    assert_eq!(
        Query::Index(Index::Slice(Range::upper(2))),
        ".[:2]".parse().unwrap()
    );
    assert_eq!(
        Query::Optional(Box::new(Optional(Query::Index(Index::Slice(
            Range::lower(1)
        ))))),
        ".[1:]?".parse().unwrap()
    );
    assert_eq!(
        Query::Index(Index::Slice(Range::new((9001, -9001)))),
        ".[9001:-9001]".parse().unwrap()
    );
}

#[test]
fn parse_arithmetic_precedence() {
    let foo = || Query::Index(Index::String("foo".to_string()));
    let bar = || Query::Index(Index::String("bar".to_string()));
    assert_eq!(
        Query::Op(Box::new(Op {
            left: foo(),
            sign: Sign::Add,
            right: Query::Op(Box::new(Op {
                left: bar(),
                sign: Sign::Mul,
                right: foo()
            }))
        })),
        ".foo + .bar * .foo".parse().unwrap()
    );
    assert_eq!(
        Query::Split(Box::new(Split(
            Query::Op(Box::new(Op {
                left: foo(),
                sign: Sign::Sub,
                right: bar()
            })),
            Query::Op(Box::new(Op {
                left: foo(),
                sign: Sign::Mod,
                right: bar()
            }))
        ))),
        ".foo - .bar , .foo % .bar".parse().unwrap()
    );
    assert_eq!(
        Query::Chain(Box::new(Chain(
            Query::Identity,
            Query::Op(Box::new(Op {
                left: foo(),
                sign: Sign::Div,
                right: bar()
            }))
        ))),
        ". | .foo/.bar".parse().unwrap()
    );
}

#[test]
fn parse_errors_name_the_rest() {
    assert_eq!(
        Err(ParseError::LeftoverCharacters("?".to_string())),
        ".[0] ?".parse::<Query>()
    );
    assert_eq!(
        Err(ParseError::InvalidFormat("|".to_string())),
        "|".parse::<Query>()
    );
    assert_eq!(
        Err(ParseError::LeftoverCharacters(".".to_string())),
        "...".parse::<Query>()
    );
}
