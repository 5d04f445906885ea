//! The query tree and its evaluation: every query maps one input document to
//! a sequence of result documents, or fails.
use vstd::prelude::*;

use crate::combinator::{Chain, Optional, Split};
use crate::construction::{groups_view, objects, objects_exec, pairs, pairs_exec, Construct, Key};
use crate::index::{copy_range, empty, index_spec, null, result_view, single, Index};
use crate::operators::{operate, operation, Op, Sign};
use crate::raw::Raw;
use crate::value::{
    entry_views, kind_of, lemma_entry_views, lemma_views, lemma_views_concat, views, Json, Value,
};
use crate::{QueryError, QueryResult};

verus! {

/// A query expression.
#[derive(Debug, PartialEq)]
pub enum Query {
    /// No result.
    Empty,
    /// The input itself.
    Identity,
    /// One lookup.
    Index(Index),
    /// The items of an array or the values of an object.
    Iterator,
    /// The input and all its descendants, parents first.
    Recurse,
    Split(Box<Split>),
    Chain(Box<Chain>),
    Contruct(Construct),
    Optional(Box<Optional>),
    Raw(Raw),
    Op(Box<Op>),
}

/// The items of an array or the values of an object. Null yields null.
pub open spec fn iterate_spec(v: Json) -> Result<Seq<Json>, QueryError> {
    match v {
        Json::Null => Ok(seq![Json::Null]),
        Json::Array(a) => Ok(a),
        Json::Object(o) => Ok(o.map_values(|e: (Seq<char>, Json)| e.1)),
        _ => Err(QueryError::Iterate(kind_of(v))),
    }
}

/// `v` followed by the descendants of each of its children, in order.
pub open spec fn descendants(v: Json) -> Seq<Json>
    decreases v,
{
    match v {
        Json::Array(a) => seq![v] + descendants_all(a),
        Json::Object(o) => seq![v] + descendants_entries(o),
        _ => seq![v],
    }
}

pub open spec fn descendants_all(s: Seq<Json>) -> Seq<Json>
    decreases s,
{
    if s.len() == 0 {
        Seq::empty()
    } else {
        descendants_all(s.drop_last()) + descendants(s.last())
    }
}

pub open spec fn descendants_entries(o: Seq<(Seq<char>, Json)>) -> Seq<Json>
    decreases o,
{
    if o.len() == 0 {
        Seq::empty()
    } else {
        descendants_entries(o.drop_last()) + descendants(o.last().1)
    }
}

/// The results of a query on a document.
pub open spec fn eval(q: Query, v: Json) -> Result<Seq<Json>, QueryError>
    decreases q, 0nat,
{
    match q {
        Query::Empty => Ok(Seq::empty()),
        Query::Identity => Ok(seq![v]),
        Query::Index(i) => index_spec(i, v),
        Query::Iterator => iterate_spec(v),
        Query::Recurse => Ok(descendants(v)),
        Query::Split(s) => match eval(s.0, v) {
            Ok(a) => match eval(s.1, v) {
                Ok(b) => Ok(a + b),
                Err(e) => Err(e),
            },
            Err(e) => Err(e),
        },
        Query::Chain(c) => match eval(c.0, v) {
            Ok(rs) => eval_each(c.1, rs),
            Err(e) => Err(e),
        },
        Query::Contruct(Construct::Array(inner)) => match eval(*inner, v) {
            Ok(rs) => Ok(seq![Json::Array(rs)]),
            Err(e) => Err(e),
        },
        Query::Contruct(Construct::Object(kvs)) => match eval_entries(kvs@, v) {
            Ok(groups) => Ok(objects(groups)),
            Err(e) => Err(e),
        },
        Query::Optional(o) => match eval(o.0, v) {
            Ok(rs) => Ok(rs),
            Err(_) => Ok(Seq::empty()),
        },
        Query::Raw(r) => Ok(seq![r.0@]),
        Query::Op(op) => match eval(op.left, v) {
            Ok(ls) => match eval(op.right, v) {
                Ok(rs) => op_all(op.sign, ls, rs),
                Err(e) => Err(e),
            },
            Err(e) => Err(e),
        },
    }
}

/// `q` run on each of `rs` in turn, results concatenated; the first failure wins.
pub open spec fn eval_each(q: Query, rs: Seq<Json>) -> Result<Seq<Json>, QueryError>
    decreases q, rs.len(),
{
    if rs.len() == 0 {
        Ok(Seq::empty())
    } else {
        match eval(q, rs[0]) {
            Ok(a) => match eval_each(q, rs.drop_first()) {
                Ok(b) => Ok(a + b),
                Err(e) => Err(e),
            },
            Err(e) => Err(e),
        }
    }
}

/// The keys of computed key results: every result must be a string.
pub open spec fn key_strings(rs: Seq<Json>) -> Result<Seq<Seq<char>>, QueryError>
    decreases rs.len(),
{
    if rs.len() == 0 {
        Ok(Seq::empty())
    } else {
        match rs[0] {
            Json::Str(s) => match key_strings(rs.drop_first()) {
                Ok(ks) => Ok(seq![s] + ks),
                Err(e) => Err(e),
            },
            x => Err(QueryError::ObjectKey(kind_of(x))),
        }
    }
}

/// The candidate keys of an object literal entry.
pub open spec fn eval_key(k: Key, v: Json) -> Result<Seq<Seq<char>>, QueryError>
    decreases k, 0nat,
{
    match k {
        Key::Simple(s) => Ok(seq![s@]),
        Key::Query(q) => match eval(q, v) {
            Ok(rs) => key_strings(rs),
            Err(e) => Err(e),
        },
    }
}

/// For each entry of an object literal, in order, its candidate (key, value)
/// pairs; the first failure wins, a key's before its value's.
pub open spec fn eval_entries(kvs: Seq<(Key, Query)>, v: Json) -> Result<
    Seq<Seq<(Seq<char>, Json)>>,
    QueryError,
>
    decreases kvs, 0nat,
{
    if kvs.len() == 0 {
        Ok(Seq::empty())
    } else {
        match eval_key(kvs[0].0, v) {
            Ok(ks) => match eval(kvs[0].1, v) {
                Ok(vs) => match eval_entries(kvs.drop_first(), v) {
                    Ok(rest) => Ok(seq![pairs(ks, vs)] + rest),
                    Err(e) => Err(e),
                },
                Err(e) => Err(e),
            },
            Err(e) => Err(e),
        }
    }
}

/// `l <sign> r` for each `r` in turn.
pub open spec fn op_row(sign: Sign, l: Json, rs: Seq<Json>) -> Result<Seq<Json>, QueryError>
    decreases rs.len(),
{
    if rs.len() == 0 {
        Ok(Seq::empty())
    } else {
        match operation(sign, l, rs[0]) {
            Ok(x) => match op_row(sign, l, rs.drop_first()) {
                Ok(b) => Ok(seq![x] + b),
                Err(e) => Err(e),
            },
            Err(e) => Err(e),
        }
    }
}

/// `l <sign> r` over all pairs, left operand outermost.
pub open spec fn op_all(sign: Sign, ls: Seq<Json>, rs: Seq<Json>) -> Result<Seq<Json>, QueryError>
    decreases ls.len(),
{
    if ls.len() == 0 {
        Ok(Seq::empty())
    } else {
        match op_row(sign, ls[0], rs) {
            Ok(a) => match op_all(sign, ls.drop_first(), rs) {
                Ok(b) => Ok(a + b),
                Err(e) => Err(e),
            },
            Err(e) => Err(e),
        }
    }
}


/// The items of an array or the values of an object, copied.
pub fn iterate(v: &Value) -> (r: QueryResult)
    ensures
        result_view(r) == iterate_spec(v@),
{
    match v {
        Value::Null => null(),
        Value::Array(a) => {
            proof {
                lemma_views(a@);
            }
            let out = copy_range(a, 0, a.len());
            assert(views(a@).subrange(0, a.len() as int) =~= views(a@));
            Ok(out)
        },
        Value::Object(o) => {
            proof {
                lemma_entry_views(o@);
            }
            let mut out: Vec<Value> = Vec::new();
            let mut i: usize = 0;
            while i < o.len()
                invariant
                    i <= o.len(),
                    out@.len() == i,
                    forall|j: int| 0 <= j < i ==> #[trigger] out@[j]@ == o@[j].1@,
                decreases o.len() - i,
            {
                out.push(o[i].1.deep_copy());
                i += 1;
            }
            proof {
                lemma_views(out@);
                assert(views(out@) =~= entry_views(o@).map_values(|e: (Seq<char>, Json)| e.1));
            }
            Ok(out)
        },
        _ => Err(QueryError::Iterate(v.kind())),
    }
}

/// `v` and all its descendants, parents first.
pub fn recurse(v: &Value) -> (r: Vec<Value>)
    ensures
        views(r@) == descendants(v@),
    decreases v,
{
    match v {
        Value::Array(a) => {
            let mut out = vec![v.deep_copy()];
            let ghost av = views(a@);
            proof {
                lemma_views(a@);
                lemma_views(out@);
                assert(views(out@) =~= seq![v@] + descendants_all(av.subrange(0, 0)));
            }
            let mut i: usize = 0;
            while i < a.len()
                invariant
                    *v == Value::Array(*a),
                    i <= a.len(),
                    av == views(a@),
                    av.len() == a.len(),
                    forall|j: int| 0 <= j < a.len() ==> #[trigger] av[j] == a@[j]@,
                    views(out@) == seq![v@] + descendants_all(av.subrange(0, i as int)),
                decreases a.len() - i,
            {
                proof {
                    assert(decreases_to!(*v => v->Array_0));
                    assert(decreases_to!(*a => a[i as int]));
                }
                let mut sub = recurse(&a[i]);
                let ghost before = out@;
                let ghost subv = sub@;
                out.append(&mut sub);
                proof {
                    lemma_views_concat(before, subv);
                    let s1 = av.subrange(0, i + 1);
                    assert(s1.drop_last() =~= av.subrange(0, i as int));
                    assert(views(out@) =~= seq![v@] + descendants_all(s1));
                }
                i += 1;
            }
            assert(av.subrange(0, a.len() as int) =~= av);
            out
        },
        Value::Object(o) => {
            let mut out = vec![v.deep_copy()];
            let ghost ov = entry_views(o@);
            proof {
                lemma_entry_views(o@);
                lemma_views(out@);
                assert(views(out@) =~= seq![v@] + descendants_entries(ov.subrange(0, 0)));
            }
            let mut i: usize = 0;
            while i < o.len()
                invariant
                    *v == Value::Object(*o),
                    i <= o.len(),
                    ov == entry_views(o@),
                    ov.len() == o.len(),
                    forall|j: int| 0 <= j < o.len() ==> #[trigger] ov[j] == (o@[j].0@, o@[j].1@),
                    views(out@) == seq![v@] + descendants_entries(ov.subrange(0, i as int)),
                decreases o.len() - i,
            {
                proof {
                    assert(decreases_to!(*v => v->Object_0));
                    assert(decreases_to!(*o => o[i as int]));
                    assert(decreases_to!(o[i as int] => o[i as int].1));
                }
                let mut sub = recurse(&o[i].1);
                let ghost before = out@;
                let ghost subv = sub@;
                out.append(&mut sub);
                proof {
                    lemma_views_concat(before, subv);
                    let s1 = ov.subrange(0, i + 1);
                    assert(s1.drop_last() =~= ov.subrange(0, i as int));
                    assert(views(out@) =~= seq![v@] + descendants_entries(s1));
                }
                i += 1;
            }
            assert(ov.subrange(0, o.len() as int) =~= ov);
            out
        },
        _ => {
            let out = vec![v.deep_copy()];
            proof {
                lemma_views(out@);
                assert(views(out@) =~= seq![v@]);
            }
            out
        },
    }
}

impl Query {
    /// The results of this query on `value`.
    pub fn execute(&self, value: &Value) -> (r: QueryResult)
        ensures
            result_view(r) == eval(*self, value@),
        decreases self,
    {
        match self {
            Query::Empty => empty(),
            Query::Identity => single(value.deep_copy()),
            Query::Index(i) => i.execute(value),
            Query::Iterator => iterate(value),
            Query::Recurse => {
                let out = recurse(value);
                Ok(out)
            },
            Query::Split(s) => s.execute(value),
            Query::Chain(c) => c.execute(value),
            Query::Contruct(c) => c.execute(value),
            Query::Optional(o) => o.execute(value),
            Query::Raw(r) => single(r.0.deep_copy()),
            Query::Op(op) => op.execute(value),
        }
    }
}

impl Split {
    pub fn execute(&self, value: &Value) -> (r: QueryResult)
        ensures
            result_view(r) == eval(Query::Split(Box::new(*self)), value@),
        decreases self,
    {
        let a = self.0.execute(value);
        let b = self.1.execute(value);
        match a {
            Err(e) => Err(e),
            Ok(mut x) => match b {
                Err(e) => Err(e),
                Ok(mut y) => {
                    let ghost xv = x@;
                    let ghost yv = y@;
                    x.append(&mut y);
                    proof {
                        lemma_views_concat(xv, yv);
                    }
                    Ok(x)
                },
            },
        }
    }
}

impl Chain {
    pub fn execute(&self, value: &Value) -> (r: QueryResult)
        ensures
            result_view(r) == eval(Query::Chain(Box::new(*self)), value@),
        decreases self,
    {
        let rs = match self.0.execute(value) {
            Err(e) => return Err(e),
            Ok(rs) => rs,
        };
        let ghost rv = views(rs@);
        let ghost n = rs.len() as int;
        proof {
            lemma_views(rs@);
            assert(rv.subrange(0, n) =~= rv);
        }
        let mut out: Vec<Value> = Vec::new();
        proof {
            lemma_views(out@);
            assert(Seq::<Json>::empty() + rv =~= rv);
        }
        let mut i: usize = 0;
        while i < rs.len()
            invariant
                i <= rs.len(),
                n == rs.len(),
                rv == views(rs@),
                rv.len() == rs.len(),
                forall|j: int| 0 <= j < rs.len() ==> #[trigger] rv[j] == rs@[j]@,
                eval(self.0, value@) == Ok::<Seq<Json>, QueryError>(rv),
                eval_each(self.1, rv) == match eval_each(self.1, rv.subrange(i as int, n)) {
                    Ok(b) => Ok(views(out@) + b),
                    Err(e) => Err(e),
                },
            decreases rs.len() - i,
        {
            let ghost sub = rv.subrange(i as int, n);
            assert(sub[0] == rv[i as int]);
            assert(sub.drop_first() =~= rv.subrange(i + 1, n));
            match self.1.execute(&rs[i]) {
                Err(e) => {
                    assert(eval_each(self.1, sub) == Err::<Seq<Json>, QueryError>(e));
                    return Err(e);
                },
                Ok(mut ys) => {
                    let ghost before = out@;
                    let ghost yv = ys@;
                    out.append(&mut ys);
                    proof {
                        lemma_views_concat(before, yv);
                        match eval_each(self.1, rv.subrange(i + 1, n)) {
                            Ok(b) => {
                                assert(views(before) + (views(yv) + b) =~= views(out@) + b);
                            },
                            Err(_) => {},
                        }
                    }
                },
            }
            i += 1;
        }
        assert(rv.subrange(n, n) =~= Seq::<Json>::empty());
        assert(views(out@) + Seq::<Json>::empty() =~= views(out@));
        Ok(out)
    }
}

impl Optional {
    pub fn execute(&self, value: &Value) -> (r: QueryResult)
        ensures
            result_view(r) == eval(Query::Optional(Box::new(*self)), value@),
        decreases self,
    {
        match self.0.execute(value) {
            Ok(v) => Ok(v),
            Err(_) => empty(),
        }
    }
}


/// The views of a sequence of strings.
pub open spec fn string_views(ks: Seq<String>) -> Seq<Seq<char>> {
    ks.map_values(|s: String| s@)
}

impl Key {
    /// The candidate keys of this entry on `value`.
    pub fn execute(&self, value: &Value) -> (r: Result<Vec<String>, QueryError>)
        ensures
            match r {
                Ok(ks) => eval_key(*self, value@) == Ok::<Seq<Seq<char>>, QueryError>(
                    string_views(ks@),
                ),
                Err(e) => eval_key(*self, value@) == Err::<Seq<Seq<char>>, QueryError>(e),
            },
        decreases self,
    {
        match self {
            Key::Simple(s) => {
                let ks = vec![s.clone()];
                assert(string_views(ks@) =~= seq![s@]);
                Ok(ks)
            },
            Key::Query(inner) => {
                let rs = match inner.execute(value) {
                    Err(e) => return Err(e),
                    Ok(rs) => rs,
                };
                let ghost rv = views(rs@);
                let ghost n = rs.len() as int;
                proof {
                    lemma_views(rs@);
                    assert(rv.subrange(0, n) =~= rv);
                }
                let mut keys: Vec<String> = Vec::new();
                assert(string_views(keys@) + Seq::<Seq<char>>::empty() =~= Seq::<Seq<char>>::empty());
                let mut i: usize = 0;
                while i < rs.len()
                    invariant
                        i <= rs.len(),
                        n == rs.len(),
                        rv == views(rs@),
                        rv.len() == rs.len(),
                        forall|j: int| 0 <= j < rs.len() ==> #[trigger] rv[j] == rs@[j]@,
                        *self == Key::Query(*inner),
                        eval(*inner, value@) == Ok::<Seq<Json>, QueryError>(rv),
                        key_strings(rv) == match key_strings(rv.subrange(i as int, n)) {
                            Ok(b) => Ok(string_views(keys@) + b),
                            Err(e) => Err(e),
                        },
                    decreases rs.len() - i,
                {
                    let ghost sub = rv.subrange(i as int, n);
                    assert(sub[0] == rv[i as int]);
                    assert(sub.drop_first() =~= rv.subrange(i + 1, n));
                    match &rs[i] {
                        Value::String(k) => {
                            let ghost before = keys@;
                            keys.push(k.clone());
                            proof {
                                match key_strings(rv.subrange(i + 1, n)) {
                                    Ok(b) => {
                                        assert(string_views(before) + (seq![k@] + b)
                                            =~= string_views(keys@) + b);
                                    },
                                    Err(_) => {},
                                }
                            }
                        },
                        other => {
                            assert(key_strings(sub) == Err::<Seq<Seq<char>>, QueryError>(
                                QueryError::ObjectKey(kind_of(other@)),
                            ));
                            return Err(QueryError::ObjectKey(other.kind()));
                        },
                    }
                    i += 1;
                }
                assert(rv.subrange(n, n) =~= Seq::<Json>::empty());
                assert(string_views(keys@) + Seq::<Seq<char>>::empty() =~= string_views(keys@));
                Ok(keys)
            },
        }
    }
}

impl Construct {
    pub fn execute(&self, value: &Value) -> (r: QueryResult)
        ensures
            result_view(r) == eval(Query::Contruct(*self), value@),
        decreases self,
    {
        match self {
            Construct::Array(inner) => match inner.execute(value) {
                Ok(rs) => single(Value::Array(rs)),
                Err(e) => Err(e),
            },
            Construct::Object(kvs) => construct_object(value, kvs),
        }
    }
}

/// `{k: v, ...}`: one object per combination of candidate entries.
pub fn construct_object(value: &Value, kvs: &Vec<(Key, Query)>) -> (r: QueryResult)
    ensures
        result_view(r) == match eval_entries(kvs@, value@) {
            Ok(groups) => Ok(objects(groups)),
            Err(e) => Err::<Seq<Json>, QueryError>(e),
        },
    decreases kvs, 1nat,
{
    let ghost n = kvs.len() as int;
    let mut groups: Vec<Vec<(String, Value)>> = Vec::new();
    assert(kvs@.subrange(0, n) =~= kvs@);
    assert(groups_view(groups@) + Seq::<Seq<(Seq<char>, Json)>>::empty() =~= Seq::<
        Seq<(Seq<char>, Json)>,
    >::empty());
    let mut i: usize = 0;
    while i < kvs.len()
        invariant
            i <= kvs.len(),
            n == kvs.len(),
            eval_entries(kvs@, value@) == match eval_entries(kvs@.subrange(i as int, n), value@) {
                Ok(rest) => Ok(groups_view(groups@) + rest),
                Err(e) => Err(e),
            },
        decreases kvs.len() - i,
    {
        let ghost sub = kvs@.subrange(i as int, n);
        assert(sub[0] == kvs@[i as int]);
        assert(sub.drop_first() =~= kvs@.subrange(i + 1, n));
        proof {
            assert(decreases_to!(*kvs => kvs[i as int]));
            assert(decreases_to!(kvs[i as int] => kvs[i as int].0));
            assert(decreases_to!(kvs[i as int] => kvs[i as int].1));
        }
        let ks = match kvs[i].0.execute(value) {
            Err(e) => return Err(e),
            Ok(ks) => ks,
        };
        let vs = match kvs[i].1.execute(value) {
            Err(e) => return Err(e),
            Ok(vs) => vs,
        };
        let g = pairs_exec(&ks, &vs);
        let ghost before = groups@;
        groups.push(g);
        proof {
            match eval_entries(kvs@.subrange(i + 1, n), value@) {
                Ok(rest) => {
                    assert(groups@.drop_last() =~= before);
                    assert(groups_view(before) + (seq![entry_views(g@)] + rest)
                        =~= groups_view(groups@) + rest);
                },
                Err(_) => {},
            }
        }
        i += 1;
    }
    assert(kvs@.subrange(n, n) =~= Seq::<(Key, Query)>::empty());
    assert(groups_view(groups@) + Seq::<Seq<(Seq<char>, Json)>>::empty() =~= groups_view(
        groups@,
    ));
    Ok(objects_exec(&groups))
}

/// `l <sign> r` for each `r` of `rs` in turn.
pub fn op_row_exec(sign: &Sign, l: &Value, rs: &Vec<Value>) -> (r: QueryResult)
    ensures
        result_view(r) == op_row(*sign, l@, views(rs@)),
{
    let ghost rv = views(rs@);
    let ghost n = rs.len() as int;
    proof {
        lemma_views(rs@);
        assert(rv.subrange(0, n) =~= rv);
    }
    let mut out: Vec<Value> = Vec::new();
    proof {
        lemma_views(out@);
        assert(Seq::<Json>::empty() + op_row(*sign, l@, rv)->Ok_0 =~= op_row(*sign, l@, rv)->Ok_0);
    }
    let mut i: usize = 0;
    while i < rs.len()
        invariant
            i <= rs.len(),
            n == rs.len(),
            rv == views(rs@),
            rv.len() == rs.len(),
            forall|j: int| 0 <= j < rs.len() ==> #[trigger] rv[j] == rs@[j]@,
            op_row(*sign, l@, rv) == match op_row(*sign, l@, rv.subrange(i as int, n)) {
                Ok(b) => Ok(views(out@) + b),
                Err(e) => Err(e),
            },
        decreases rs.len() - i,
    {
        let ghost sub = rv.subrange(i as int, n);
        assert(sub[0] == rv[i as int]);
        assert(sub.drop_first() =~= rv.subrange(i + 1, n));
        match operate(sign, l, &rs[i]) {
            Err(e) => return Err(e),
            Ok(x) => {
                let ghost before = out@;
                let ghost xv = x@;
                out.push(x);
                proof {
                    lemma_views(out@);
                    lemma_views(before);
                    assert(out@.drop_last() =~= before);
                    assert(views(out@) == views(before).push(xv));
                    match op_row(*sign, l@, rv.subrange(i + 1, n)) {
                        Ok(b) => {
                            assert(views(before) + (seq![xv] + b) =~= views(out@) + b);
                        },
                        Err(_) => {},
                    }
                }
            },
        }
        i += 1;
    }
    assert(rv.subrange(n, n) =~= Seq::<Json>::empty());
    assert(views(out@) + Seq::<Json>::empty() =~= views(out@));
    Ok(out)
}

impl Op {
    pub fn execute(&self, value: &Value) -> (r: QueryResult)
        ensures
            result_view(r) == eval(Query::Op(Box::new(*self)), value@),
        decreases self,
    {
        let ls = match self.left.execute(value) {
            Err(e) => return Err(e),
            Ok(ls) => ls,
        };
        let rs = match self.right.execute(value) {
            Err(e) => return Err(e),
            Ok(rs) => rs,
        };
        let ghost lv = views(ls@);
        let ghost rv = views(rs@);
        let ghost n = ls.len() as int;
        proof {
            lemma_views(ls@);
            assert(lv.subrange(0, n) =~= lv);
        }
        let mut out: Vec<Value> = Vec::new();
        proof {
            lemma_views(out@);
            assert(Seq::<Json>::empty() + op_all(self.sign, lv, rv)->Ok_0 =~= op_all(
                self.sign,
                lv,
                rv,
            )->Ok_0);
        }
        let mut i: usize = 0;
        while i < ls.len()
            invariant
                i <= ls.len(),
                n == ls.len(),
                lv == views(ls@),
                rv == views(rs@),
                lv.len() == ls.len(),
                forall|j: int| 0 <= j < ls.len() ==> #[trigger] lv[j] == ls@[j]@,
                eval(self.left, value@) == Ok::<Seq<Json>, QueryError>(lv),
                eval(self.right, value@) == Ok::<Seq<Json>, QueryError>(rv),
                op_all(self.sign, lv, rv) == match op_all(self.sign, lv.subrange(i as int, n), rv) {
                    Ok(b) => Ok(views(out@) + b),
                    Err(e) => Err(e),
                },
            decreases ls.len() - i,
        {
            let ghost sub = lv.subrange(i as int, n);
            assert(sub[0] == lv[i as int]);
            assert(sub.drop_first() =~= lv.subrange(i + 1, n));
            match op_row_exec(&self.sign, &ls[i], &rs) {
                Err(e) => {
                    assert(op_all(self.sign, sub, rv) == Err::<Seq<Json>, QueryError>(e));
                    return Err(e);
                },
                Ok(mut row) => {
                    let ghost before = out@;
                    let ghost rowv = row@;
                    out.append(&mut row);
                    proof {
                        lemma_views_concat(before, rowv);
                        match op_all(self.sign, lv.subrange(i + 1, n), rv) {
                            Ok(b) => {
                                assert(views(before) + (views(rowv) + b) =~= views(out@) + b);
                            },
                            Err(_) => {},
                        }
                    }
                },
            }
            i += 1;
        }
        assert(lv.subrange(n, n) =~= Seq::<Json>::empty());
        assert(views(out@) + Seq::<Json>::empty() =~= views(out@));
        Ok(out)
    }
}

} // verus!
