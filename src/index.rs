//! Structural lookups: an object key, an array position, or a slice.
use vstd::prelude::*;
use vstd::string::*;

use crate::range::{span, Range};
use crate::value::{
    find_key, kind_of, lemma_entry_views, lemma_key_pos, lemma_views, lookup, views, Json, Value,
};
use crate::{QueryError, QueryResult};

verus! {

/// One lookup step.
#[derive(Debug, PartialEq)]
pub enum Index {
    String(String),
    Integer(i32),
    Slice(Range),
}

/// What kind of lookup failed, as named in error reports.
#[derive(PartialEq, Eq, Structural, Clone, Copy, Debug)]
pub enum IndexKind {
    String,
    Number,
    Slice,
}

/// The position that an integer index designates in an array of `len` items,
/// if any: a negative index counts from the end.
pub open spec fn array_pos(i: int, len: int) -> Option<int> {
    let p = if i < 0 {
        len + i
    } else {
        i
    };
    if 0 <= p < len {
        Some(p)
    } else {
        None
    }
}

/// The items of `s` that the range designates (empty when start >= end).
pub open spec fn slice_of<A>(s: Seq<A>, r: Range) -> Seq<A> {
    let (l, u) = span(r, s.len() as int);
    if l < u {
        s.subrange(l, u)
    } else {
        Seq::empty()
    }
}

/// The result of a lookup on a document. Null absorbs every lookup.
pub open spec fn index_spec(i: Index, v: Json) -> Result<Seq<Json>, QueryError> {
    match (v, i) {
        (Json::Null, _) => Ok(seq![Json::Null]),
        (Json::Str(s), Index::Slice(r)) => Ok(seq![Json::Str(slice_of(s, r))]),
        (Json::Array(a), Index::Slice(r)) => Ok(seq![Json::Array(slice_of(a, r))]),
        (Json::Object(o), Index::String(k)) => match lookup(o, k@) {
            Some(x) => Ok(seq![x]),
            None => Ok(seq![Json::Null]),
        },
        (Json::Array(a), Index::Integer(n)) => match array_pos(n as int, a.len() as int) {
            Some(p) => Ok(seq![a[p]]),
            None => Ok(seq![Json::Null]),
        },
        (_, Index::String(_)) => Err(QueryError::Index(kind_of(v), IndexKind::String)),
        (_, Index::Integer(_)) => Err(QueryError::Index(kind_of(v), IndexKind::Number)),
        (_, Index::Slice(_)) => Err(QueryError::Index(kind_of(v), IndexKind::Slice)),
    }
}

/// The view of an evaluation result.
pub open spec fn result_view(r: QueryResult) -> Result<Seq<Json>, QueryError> {
    match r {
        Ok(vs) => Ok(views(vs@)),
        Err(e) => Err(e),
    }
}

/// A one-element result.
pub fn single(v: Value) -> (r: QueryResult)
    ensures
        result_view(r) == Ok::<Seq<Json>, QueryError>(seq![v@]),
{
    let out = vec![v];
    proof {
        lemma_views(out@);
        assert(views(out@) =~= seq![v@]);
    }
    Ok(out)
}

/// The one-element result `null`.
pub fn null() -> (r: QueryResult)
    ensures
        result_view(r) == Ok::<Seq<Json>, QueryError>(seq![Json::Null]),
{
    single(Value::Null)
}

/// The empty result.
pub fn empty() -> (r: QueryResult)
    ensures
        result_view(r) == Ok::<Seq<Json>, QueryError>(Seq::empty()),
{
    let out: Vec<Value> = Vec::new();
    proof {
        lemma_views(out@);
        assert(views(out@) =~= Seq::empty());
    }
    Ok(out)
}

/// Copies of the items `start..end` of `a`.
pub fn copy_range(a: &Vec<Value>, start: usize, end: usize) -> (r: Vec<Value>)
    requires
        start <= end <= a.len(),
    ensures
        views(r@) == views(a@).subrange(start as int, end as int),
{
    proof {
        lemma_views(a@);
    }
    let mut out: Vec<Value> = Vec::new();
    let mut i: usize = start;
    while i < end
        invariant
            start <= i <= end <= a.len(),
            out@.len() == i - start,
            forall|j: int| 0 <= j < i - start ==> #[trigger] out@[j]@ == a@[start + j]@,
        decreases end - i,
    {
        out.push(a[i].deep_copy());
        i += 1;
    }
    proof {
        lemma_views(out@);
    }
    assert(views(out@) =~= views(a@).subrange(start as int, end as int));
    out
}

fn index_array(a: &Vec<Value>, i: i32) -> (r: QueryResult)
    ensures
        result_view(r) == match array_pos(i as int, a@.len() as int) {
            Some(p) => Ok(seq![views(a@)[p]]),
            None => Ok::<Seq<Json>, QueryError>(seq![Json::Null]),
        },
{
    proof {
        lemma_views(a@);
    }
    let pos: i128 = if i < 0 {
        a.len() as i128 + i as i128
    } else {
        i as i128
    };
    if 0 <= pos && pos < a.len() as i128 {
        single(a[pos as usize].deep_copy())
    } else {
        null()
    }
}

fn index_object(o: &Vec<(String, Value)>, k: &String) -> (r: QueryResult)
    ensures
        result_view(r) == match lookup(crate::value::entry_views(o@), k@) {
            Some(x) => Ok(seq![x]),
            None => Ok::<Seq<Json>, QueryError>(seq![Json::Null]),
        },
{
    proof {
        lemma_entry_views(o@);
        lemma_key_pos(crate::value::entry_views(o@), k@);
    }
    let p = find_key(o, k);
    if p < o.len() {
        single(o[p].1.deep_copy())
    } else {
        null()
    }
}

fn slice_string(s: &String, r: &Range) -> (out: String)
    ensures
        out@ == slice_of(s@, *r),
{
    let n = s.as_str().unicode_len();
    let span = r.normalize(n);
    if span.start < span.end {
        s.as_str().substring_char(span.start, span.end).to_owned()
    } else {
        String::new()
    }
}

impl Index {
    /// Looks this index up in `v`.
    pub fn execute(&self, v: &Value) -> (r: QueryResult)
        ensures
            result_view(r) == index_spec(*self, v@),
    {
        let r = match (v, self) {
            (Value::Null, _) => null(),
            (Value::String(s), Index::Slice(r)) => {
                let out = single(Value::String(slice_string(s, r)));
                assert(result_view(out) == index_spec(*self, v@));
                out
            },
            (Value::Array(a), Index::Slice(r)) => {
                proof {
                    lemma_views(a@);
                }
                let span = r.normalize(a.len());
                if span.start < span.end {
                    single(Value::Array(copy_range(a, span.start, span.end)))
                } else {
                    let out: Vec<Value> = Vec::new();
                    proof {
                        lemma_views(out@);
                        assert(views(out@) =~= slice_of(views(a@), *r));
                    }
                    single(Value::Array(out))
                }
            },
            (Value::Object(o), Index::String(k)) => {
                let out = index_object(o, k);
                assert(result_view(out) == index_spec(*self, v@));
                out
            },
            (Value::Array(a), Index::Integer(i)) => {
                proof {
                    lemma_views(a@);
                }
                let out = index_array(a, *i);
                assert(result_view(out) == index_spec(*self, v@));
                out
            },
            (_, Index::String(_)) => {
                assert(!(v@ is Object) && !(v@ is Null));
                Err(QueryError::Index(v.kind(), IndexKind::String))
            },
            (_, Index::Integer(_)) => {
                assert(!(v@ is Array) && !(v@ is Null));
                Err(QueryError::Index(v.kind(), IndexKind::Number))
            },
            (_, Index::Slice(_)) => {
                assert(!(v@ is Array) && !(v@ is Str) && !(v@ is Null));
                Err(QueryError::Index(v.kind(), IndexKind::Slice))
            },
        };
        r
    }
}

} // verus!
