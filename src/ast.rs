//! The mathematical view of a query tree, in which names are character sequences.
use vstd::prelude::*;

use crate::combinator::{Chain, Optional, Split};
use crate::construction::{Construct, Key};
use crate::index::Index;
use crate::operators::{Op, Sign};
use crate::query::Query;
use crate::range::Range;
use crate::value::Json;

verus! {

pub enum IndexAst {
    Key(Seq<char>),
    Pos(i32),
    Slice(Range),
}

pub enum KeyAst {
    Name(Seq<char>),
    Computed(Box<Ast>),
}

/// A query tree as a mathematical value.
pub enum Ast {
    Empty,
    Identity,
    Index(IndexAst),
    Iterator,
    Recurse,
    Split(Box<Ast>, Box<Ast>),
    Chain(Box<Ast>, Box<Ast>),
    Array(Box<Ast>),
    Object(Seq<(KeyAst, Ast)>),
    Optional(Box<Ast>),
    Raw(Json),
    Op(Box<Ast>, Sign, Box<Ast>),
}

pub open spec fn index_ast(i: Index) -> IndexAst {
    match i {
        Index::String(k) => IndexAst::Key(k@),
        Index::Integer(n) => IndexAst::Pos(n),
        Index::Slice(r) => IndexAst::Slice(r),
    }
}

impl View for Query {
    type V = Ast;

    open spec fn view(&self) -> Ast
        decreases self,
    {
        match self {
            Query::Empty => Ast::Empty,
            Query::Identity => Ast::Identity,
            Query::Index(i) => Ast::Index(index_ast(*i)),
            Query::Iterator => Ast::Iterator,
            Query::Recurse => Ast::Recurse,
            Query::Split(b) => Ast::Split(Box::new(b.0@), Box::new(b.1@)),
            Query::Chain(b) => Ast::Chain(Box::new(b.0@), Box::new(b.1@)),
            Query::Contruct(Construct::Array(q)) => Ast::Array(Box::new((**q)@)),
            Query::Contruct(Construct::Object(kvs)) => Ast::Object(entry_asts(kvs@)),
            Query::Optional(b) => Ast::Optional(Box::new(b.0@)),
            Query::Raw(r) => Ast::Raw(r.0@),
            Query::Op(b) => Ast::Op(Box::new(b.left@), b.sign, Box::new(b.right@)),
        }
    }
}

pub open spec fn key_ast(k: Key) -> KeyAst
    decreases k,
{
    match k {
        Key::Simple(n) => KeyAst::Name(n@),
        Key::Query(q) => KeyAst::Computed(Box::new(q@)),
    }
}

/// The views of the entries of an object literal.
pub open spec fn entry_asts(s: Seq<(Key, Query)>) -> Seq<(KeyAst, Ast)>
    decreases s,
{
    if s.len() == 0 {
        Seq::empty()
    } else {
        entry_asts(s.drop_last()).push((key_ast(s.last().0), s.last().1@))
    }
}

pub proof fn lemma_entry_asts(s: Seq<(Key, Query)>)
    ensures
        entry_asts(s).len() == s.len(),
        forall|i: int|
            0 <= i < s.len() ==> #[trigger] entry_asts(s)[i] == (key_ast(s[i].0), s[i].1@),
    decreases s.len(),
{
    if s.len() > 0 {
        let t = s.drop_last();
        lemma_entry_asts(t);
        assert(entry_asts(s) == entry_asts(t).push((key_ast(s.last().0), s.last().1@)));
        assert forall|i: int| 0 <= i < s.len() implies #[trigger] entry_asts(s)[i] == (
            key_ast(s[i].0),
            s[i].1@,
        ) by {
            if i < t.len() {
                assert(entry_asts(s)[i] == entry_asts(t)[i]);
                assert(t[i] == s[i]);
            }
        }
    }
}

} // verus!
