//! Algebraic facts about evaluation, proved over `eval`.
use vstd::prelude::*;

use crate::combinator::{Chain, Optional};
use crate::construction::{build, combos, extend, objects, pairs, Construct, Entry, Key};
use crate::index::{index_spec, slice_of, Index};
use crate::operators::{difference, merge, operation, strings, Sign};
use crate::query::{
    descendants, descendants_all, descendants_entries, eval, eval_each, eval_entries,
    iterate_spec, op_all, op_row, Query,
};
use crate::range::{Bounds, Range};
use crate::value::{
    all_well_formed, entries_well_formed, insert, keys_unique, lemma_insert_unique, lemma_key_pos,
    lookup, well_formed, Json,
};
use crate::QueryError;

verus! {

/// `c` run on each result of a prior step, or that step's failure.
pub open spec fn then_each(r: Result<Seq<Json>, QueryError>, c: Query) -> Result<
    Seq<Json>,
    QueryError,
> {
    match r {
        Ok(ys) => eval_each(c, ys),
        Err(e) => Err(e),
    }
}

pub open spec fn chain(a: Query, b: Query) -> Query {
    Query::Chain(Box::new(Chain(a, b)))
}

/// The identity query yields its input, alone.
pub proof fn identity_law(v: Json)
    ensures
        eval(Query::Identity, v) == Ok::<Seq<Json>, QueryError>(seq![v]),
{
}

/// Lookups, iteration and recursive descent on `null` yield `null`, alone.
pub proof fn null_absorption(q: Query)
    requires
        q is Index || q is Iterator || q is Recurse,
    ensures
        eval(q, Json::Null) == Ok::<Seq<Json>, QueryError>(seq![Json::Null]),
{
}

/// Running `c` on the results of a concatenation is running it on each part
/// in turn.
pub proof fn lemma_each_concat(c: Query, x: Seq<Json>, y: Seq<Json>)
    ensures
        eval_each(c, x + y) == match eval_each(c, x) {
            Ok(p) => match eval_each(c, y) {
                Ok(q) => Ok(p + q),
                Err(e) => Err(e),
            },
            Err(e) => Err::<Seq<Json>, QueryError>(e),
        },
    decreases x.len(),
{
    if x.len() == 0 {
        assert(x + y =~= y);
        match eval_each(c, y) {
            Ok(q) => {
                assert(Seq::<Json>::empty() + q =~= q);
            },
            Err(_) => {},
        }
    } else {
        lemma_each_concat(c, x.drop_first(), y);
        assert((x + y)[0] == x[0]);
        assert((x + y).drop_first() =~= x.drop_first() + y);
        match eval(c, x[0]) {
            Ok(a) => match eval_each(c, x.drop_first()) {
                Ok(p1) => match eval_each(c, y) {
                    Ok(q) => {
                        assert(a + (p1 + q) =~= (a + p1) + q);
                    },
                    Err(_) => {},
                },
                Err(_) => {},
            },
            Err(_) => {},
        }
    }
}

/// Piping each item through `b | c` succeeds exactly when piping all items
/// through `b` and then all results through `c` does, with the same results.
pub proof fn lemma_chain_each(b: Query, c: Query, rs: Seq<Json>)
    ensures
        eval_each(chain(b, c), rs) is Ok <==> then_each(eval_each(b, rs), c) is Ok,
        eval_each(chain(b, c), rs) is Ok ==> eval_each(chain(b, c), rs) == then_each(
            eval_each(b, rs),
            c,
        ),
    decreases rs.len(),
{
    if rs.len() > 0 {
        let rest = rs.drop_first();
        lemma_chain_each(b, c, rest);
        assert(eval(chain(b, c), rs[0]) == then_each(eval(b, rs[0]), c));
        match eval(b, rs[0]) {
            Ok(zs) => match eval_each(b, rest) {
                Ok(ws) => {
                    lemma_each_concat(c, zs, ws);
                },
                Err(_) => {},
            },
            Err(_) => {},
        }
    }
}

/// Pipes associate: `(a | b) | c` and `a | (b | c)` give the same results,
/// and one fails exactly when the other does (not always with the same error:
/// which failure comes first depends on the order in which the steps run).
pub proof fn chain_associative(a: Query, b: Query, c: Query, v: Json)
    ensures
        eval(chain(chain(a, b), c), v) is Ok <==> eval(chain(a, chain(b, c)), v) is Ok,
        eval(chain(chain(a, b), c), v) is Ok ==> eval(chain(chain(a, b), c), v) == eval(
            chain(a, chain(b, c)),
            v,
        ),
{
    assert(eval(chain(chain(a, b), c), v) == then_each(eval(chain(a, b), v), c));
    assert(eval(chain(a, b), v) == then_each(eval(a, v), b));
    assert(eval(chain(a, chain(b, c)), v) == then_each(eval(a, v), chain(b, c)));
    match eval(a, v) {
        Ok(xs) => {
            lemma_chain_each(b, c, xs);
        },
        Err(_) => {},
    }
}

/// An optional query never fails.
pub proof fn optional_never_fails(q: Query, v: Json)
    ensures
        eval(Query::Optional(Box::new(Optional(q))), v) is Ok,
{
}

/// A slice with in-bounds ends `i <= j` yields exactly the items `i..j`.
pub proof fn slice_round_trip(a: Seq<Json>, i: i32, j: i32)
    requires
        0 <= i <= j <= a.len(),
    ensures
        eval(Query::Index(Index::Slice(Range { bounds: Bounds::Both(i, j) })), Json::Array(a))
            == Ok::<Seq<Json>, QueryError>(seq![Json::Array(a.subrange(i as int, j as int))]),
{
    if i == j {
        assert(a.subrange(i as int, j as int) =~= Seq::<Json>::empty());
    }
}

/// On an array of length `n`, index `-k` is index `n - k` for `0 < k <= n`.
pub proof fn negative_index(a: Seq<Json>, k: i32)
    requires
        0 < k <= a.len(),
        a.len() - k <= i32::MAX,
    ensures
        eval(Query::Index(Index::Integer(-k as i32)), Json::Array(a)) == eval(
            Query::Index(Index::Integer((a.len() - k) as i32)),
            Json::Array(a),
        ),
{
}


/// Every constant embedded in the query is a well-formed document.
pub open spec fn constants_well_formed(q: Query) -> bool
    decreases q,
{
    match q {
        Query::Split(b) => constants_well_formed(b.0) && constants_well_formed(b.1),
        Query::Chain(b) => constants_well_formed(b.0) && constants_well_formed(b.1),
        Query::Optional(b) => constants_well_formed(b.0),
        Query::Contruct(Construct::Array(x)) => constants_well_formed(*x),
        Query::Contruct(Construct::Object(kvs)) => forall|i: int|
            0 <= i < kvs@.len() ==> entry_constants_well_formed(#[trigger] kvs@[i]),
        Query::Raw(r) => well_formed(r.0@),
        Query::Op(b) => constants_well_formed(b.left) && constants_well_formed(b.right),
        _ => true,
    }
}

pub open spec fn entry_constants_well_formed(e: (Key, Query)) -> bool
    decreases e,
{
    constants_well_formed(e.1) && match e.0 {
        Key::Query(k) => constants_well_formed(k),
        Key::Simple(_) => true,
    }
}

pub proof fn lemma_concat_well_formed(a: Seq<Json>, b: Seq<Json>)
    requires
        all_well_formed(a),
        all_well_formed(b),
    ensures
        all_well_formed(a + b),
{
    assert forall|i: int| 0 <= i < (a + b).len() implies well_formed(#[trigger] (a + b)[i]) by {
        if i >= a.len() {
            assert((a + b)[i] == b[i - a.len()]);
        }
    }
}

pub proof fn lemma_index_well_formed(i: Index, v: Json)
    requires
        well_formed(v),
    ensures
        index_spec(i, v) is Ok ==> all_well_formed(index_spec(i, v)->Ok_0),
{
    match (v, i) {
        (Json::Array(a), Index::Slice(r)) => {
            let t = slice_of(a, r);
            assert forall|k: int| 0 <= k < t.len() implies well_formed(#[trigger] t[k]) by {
                let (l, u) = crate::range::span(r, a.len() as int);
                assert(t[k] == a[l + k]);
            }
        },
        (Json::Object(o), Index::String(k)) => {
            lemma_key_pos(o, k@);
        },
        _ => {},
    }
}

pub proof fn lemma_iterate_well_formed(v: Json)
    requires
        well_formed(v),
    ensures
        iterate_spec(v) is Ok ==> all_well_formed(iterate_spec(v)->Ok_0),
{
}

pub proof fn lemma_descendants_well_formed(v: Json)
    requires
        well_formed(v),
    ensures
        all_well_formed(descendants(v)),
    decreases v,
{
    match v {
        Json::Array(a) => {
            lemma_descendants_all_well_formed(a);
            lemma_concat_well_formed(seq![v], descendants_all(a));
        },
        Json::Object(o) => {
            lemma_descendants_entries_well_formed(o);
            lemma_concat_well_formed(seq![v], descendants_entries(o));
        },
        _ => {},
    }
}

pub proof fn lemma_descendants_all_well_formed(s: Seq<Json>)
    requires
        all_well_formed(s),
    ensures
        all_well_formed(descendants_all(s)),
    decreases s,
{
    if s.len() > 0 {
        lemma_descendants_all_well_formed(s.drop_last());
        lemma_descendants_well_formed(s.last());
        lemma_concat_well_formed(descendants_all(s.drop_last()), descendants(s.last()));
    }
}

pub proof fn lemma_descendants_entries_well_formed(o: Seq<(Seq<char>, Json)>)
    requires
        entries_well_formed(o),
    ensures
        all_well_formed(descendants_entries(o)),
    decreases o,
{
    if o.len() > 0 {
        lemma_descendants_entries_well_formed(o.drop_last());
        lemma_descendants_well_formed(o.last().1);
        lemma_concat_well_formed(descendants_entries(o.drop_last()), descendants(o.last().1));
    }
}

/// Insertion of a well-formed value keeps an object's values well formed.
pub proof fn lemma_insert_well_formed(o: Seq<(Seq<char>, Json)>, k: Seq<char>, v: Json)
    requires
        entries_well_formed(o),
        well_formed(v),
    ensures
        entries_well_formed(insert(o, k, v)),
{
    lemma_key_pos(o, k);
    let p = crate::value::key_pos(o, k);
    let r = insert(o, k, v);
    assert forall|i: int| 0 <= i < r.len() implies well_formed(#[trigger] r[i].1) by {
        if i != p {
            assert(r[i] == o[i]);
        }
    }
}

pub proof fn lemma_merge_well_formed(l: Seq<(Seq<char>, Json)>, r: Seq<(Seq<char>, Json)>)
    requires
        keys_unique(l),
        entries_well_formed(l),
        entries_well_formed(r),
    ensures
        keys_unique(merge(l, r)),
        entries_well_formed(merge(l, r)),
    decreases r,
{
    if r.len() > 0 {
        let t = r.drop_last();
        assert(entries_well_formed(t)) by {
            assert forall|i: int| 0 <= i < t.len() implies well_formed(#[trigger] t[i].1) by {
                assert(t[i] == r[i]);
            }
        }
        lemma_merge_well_formed(l, t);
        let (k, v) = r.last();
        assert(well_formed(v)) by {
            assert(r.last() == r[r.len() - 1]);
        }
        lemma_key_pos(l, k);
        let nv = match (lookup(l, k), v) {
            (Some(Json::Object(o)), Json::Object(p)) => {
                assert(well_formed(l[crate::value::key_pos(l, k)].1));
                lemma_merge_well_formed(o, p);
                Json::Object(merge(o, p))
            },
            _ => v,
        };
        assert(well_formed(nv));
        lemma_insert_unique(merge(l, t), k, nv);
        lemma_insert_well_formed(merge(l, t), k, nv);
    }
}

pub proof fn lemma_difference_well_formed(a: Seq<Json>, b: Seq<Json>)
    requires
        all_well_formed(a),
    ensures
        all_well_formed(difference(a, b)),
    decreases a.len(),
{
    if a.len() > 0 {
        let t = a.drop_last();
        assert(all_well_formed(t)) by {
            assert forall|i: int| 0 <= i < t.len() implies well_formed(#[trigger] t[i]) by {
                assert(t[i] == a[i]);
            }
        }
        lemma_difference_well_formed(t, b);
        assert(well_formed(a[a.len() - 1]));
        let d = difference(t, b);
        if !b.contains(a.last()) {
            assert forall|i: int| 0 <= i < d.push(a.last()).len() implies well_formed(
                #[trigger] d.push(a.last())[i],
            ) by {
                if i < d.len() {
                    assert(d.push(a.last())[i] == d[i]);
                }
            }
        }
    }
}

/// Each operator yields a well-formed document from well-formed operands.
pub proof fn lemma_operation_well_formed(sign: Sign, l: Json, r: Json)
    requires
        well_formed(l),
        well_formed(r),
    ensures
        operation(sign, l, r) is Ok ==> well_formed(operation(sign, l, r)->Ok_0),
{
    match (l, r) {
        (Json::Array(a), Json::Array(b)) => {
            lemma_concat_well_formed(a, b);
            lemma_difference_well_formed(a, b);
        },
        (Json::Object(a), Json::Object(b)) => {
            lemma_merge_well_formed(a, b);
        },
        (Json::Str(a), Json::Str(b)) => {
            let t = strings(crate::operators::split(a, b));
            assert forall|i: int| 0 <= i < t.len() implies well_formed(#[trigger] t[i]) by {}
        },
        _ => {},
    }
}

pub proof fn lemma_op_row_well_formed(sign: Sign, l: Json, rs: Seq<Json>)
    requires
        well_formed(l),
        all_well_formed(rs),
    ensures
        op_row(sign, l, rs) is Ok ==> all_well_formed(op_row(sign, l, rs)->Ok_0),
    decreases rs.len(),
{
    if rs.len() > 0 {
        let t = rs.drop_first();
        assert(all_well_formed(t)) by {
            assert forall|i: int| 0 <= i < t.len() implies well_formed(#[trigger] t[i]) by {
                assert(t[i] == rs[i + 1]);
            }
        }
        lemma_operation_well_formed(sign, l, rs[0]);
        lemma_op_row_well_formed(sign, l, t);
        match operation(sign, l, rs[0]) {
            Ok(x) => match op_row(sign, l, t) {
                Ok(b) => {
                    lemma_concat_well_formed(seq![x], b);
                },
                Err(_) => {},
            },
            Err(_) => {},
        }
    }
}

pub proof fn lemma_op_all_well_formed(sign: Sign, ls: Seq<Json>, rs: Seq<Json>)
    requires
        all_well_formed(ls),
        all_well_formed(rs),
    ensures
        op_all(sign, ls, rs) is Ok ==> all_well_formed(op_all(sign, ls, rs)->Ok_0),
    decreases ls.len(),
{
    if ls.len() > 0 {
        let t = ls.drop_first();
        assert(all_well_formed(t)) by {
            assert forall|i: int| 0 <= i < t.len() implies well_formed(#[trigger] t[i]) by {
                assert(t[i] == ls[i + 1]);
            }
        }
        lemma_op_row_well_formed(sign, ls[0], rs);
        lemma_op_all_well_formed(sign, t, rs);
        match op_row(sign, ls[0], rs) {
            Ok(a) => match op_all(sign, t, rs) {
                Ok(b) => {
                    lemma_concat_well_formed(a, b);
                },
                Err(_) => {},
            },
            Err(_) => {},
        }
    }
}

/// Every combination holds well-formed values when every group does.
pub open spec fn groups_well_formed(gs: Seq<Seq<Entry>>) -> bool {
    forall|i: int| 0 <= i < gs.len() ==> entries_well_formed(#[trigger] gs[i])
}

pub proof fn lemma_pairs_well_formed(ks: Seq<Seq<char>>, vs: Seq<Json>)
    requires
        all_well_formed(vs),
    ensures
        entries_well_formed(pairs(ks, vs)),
    decreases ks.len(),
{
    if ks.len() > 0 {
        lemma_pairs_well_formed(ks.drop_last(), vs);
        let a = pairs(ks.drop_last(), vs);
        let b = vs.map_values(|x: Json| (ks.last(), x));
        assert forall|i: int| 0 <= i < (a + b).len() implies well_formed(#[trigger] (a + b)[i].1) by {
            if i >= a.len() {
                assert((a + b)[i] == b[i - a.len()]);
            }
        }
    }
}

pub proof fn lemma_extend_well_formed(cs: Seq<Seq<Entry>>, ps: Seq<Entry>)
    requires
        groups_well_formed(cs),
        entries_well_formed(ps),
    ensures
        groups_well_formed(extend(cs, ps)),
    decreases cs.len(),
{
    if cs.len() > 0 {
        let t = cs.drop_last();
        assert(groups_well_formed(t)) by {
            assert forall|i: int| 0 <= i < t.len() implies entries_well_formed(#[trigger] t[i]) by {
                assert(t[i] == cs[i]);
            }
        }
        lemma_extend_well_formed(t, ps);
        let a = extend(t, ps);
        let c = cs.last();
        assert(entries_well_formed(c)) by {
            assert(c == cs[cs.len() - 1]);
        }
        let b = ps.map_values(|p: Entry| c.push(p));
        assert forall|i: int| 0 <= i < (a + b).len() implies entries_well_formed(
            #[trigger] (a + b)[i],
        ) by {
            if i >= a.len() {
                assert((a + b)[i] == c.push(ps[i - a.len()]));
                assert forall|j: int| 0 <= j < c.push(ps[i - a.len()]).len() implies well_formed(
                    #[trigger] c.push(ps[i - a.len()])[j].1,
                ) by {
                    if j < c.len() {
                        assert(c.push(ps[i - a.len()])[j] == c[j]);
                    }
                }
            }
        }
    }
}

pub proof fn lemma_combos_well_formed(gs: Seq<Seq<Entry>>)
    requires
        groups_well_formed(gs),
    ensures
        groups_well_formed(combos(gs)),
    decreases gs.len(),
{
    if gs.len() == 0 {
        assert(entries_well_formed(Seq::<Entry>::empty()));
        assert(groups_well_formed(seq![Seq::<Entry>::empty()])) by {
            assert forall|i: int| 0 <= i < 1 implies entries_well_formed(
                #[trigger] seq![Seq::<Entry>::empty()][i],
            ) by {
                assert(seq![Seq::<Entry>::empty()][i] == Seq::<Entry>::empty());
            }
        }
    } else {
        let t = gs.drop_last();
        assert(groups_well_formed(t)) by {
            assert forall|i: int| 0 <= i < t.len() implies entries_well_formed(#[trigger] t[i]) by {
                assert(t[i] == gs[i]);
            }
        }
        lemma_combos_well_formed(t);
        assert(entries_well_formed(gs.last())) by {
            assert(gs.last() == gs[gs.len() - 1]);
        }
        lemma_extend_well_formed(combos(t), gs.last());
    }
}

pub proof fn lemma_build_well_formed(c: Seq<Entry>)
    requires
        entries_well_formed(c),
    ensures
        keys_unique(build(c)),
        entries_well_formed(build(c)),
    decreases c.len(),
{
    if c.len() > 0 {
        let t = c.drop_last();
        assert(entries_well_formed(t)) by {
            assert forall|i: int| 0 <= i < t.len() implies well_formed(#[trigger] t[i].1) by {
                assert(t[i] == c[i]);
            }
        }
        lemma_build_well_formed(t);
        assert(well_formed(c.last().1)) by {
            assert(c.last() == c[c.len() - 1]);
        }
        lemma_insert_unique(build(t), c.last().0, c.last().1);
        lemma_insert_well_formed(build(t), c.last().0, c.last().1);
    }
}

pub proof fn lemma_objects_well_formed(gs: Seq<Seq<Entry>>)
    requires
        groups_well_formed(gs),
    ensures
        all_well_formed(objects(gs)),
{
    lemma_combos_well_formed(gs);
    assert forall|i: int| 0 <= i < objects(gs).len() implies well_formed(
        #[trigger] objects(gs)[i],
    ) by {
        lemma_build_well_formed(combos(gs)[i]);
    }
}

pub proof fn lemma_entries_well_formed(kvs: Seq<(Key, Query)>, v: Json)
    requires
        well_formed(v),
        forall|i: int| 0 <= i < kvs.len() ==> entry_constants_well_formed(#[trigger] kvs[i]),
    ensures
        eval_entries(kvs, v) is Ok ==> groups_well_formed(eval_entries(kvs, v)->Ok_0),
    decreases kvs, 0nat,
{
    if kvs.len() > 0 {
        let t = kvs.drop_first();
        assert(entry_constants_well_formed(kvs[0]));
        assert forall|i: int| 0 <= i < t.len() implies entry_constants_well_formed(
            #[trigger] t[i],
        ) by {
            assert(t[i] == kvs[i + 1]);
        }
        lemma_eval_well_formed(kvs[0].1, v);
        lemma_entries_well_formed(t, v);
        match crate::query::eval_key(kvs[0].0, v) {
            Ok(ks) => match eval(kvs[0].1, v) {
                Ok(vs) => match eval_entries(t, v) {
                    Ok(rest) => {
                        lemma_pairs_well_formed(ks, vs);
                        let gs = seq![pairs(ks, vs)] + rest;
                        assert forall|i: int| 0 <= i < gs.len() implies entries_well_formed(
                            #[trigger] gs[i],
                        ) by {
                            if i > 0 {
                                assert(gs[i] == rest[i - 1]);
                            }
                        }
                    },
                    Err(_) => {},
                },
                Err(_) => {},
            },
            Err(_) => {},
        }
    }
}

pub proof fn lemma_each_well_formed(q: Query, rs: Seq<Json>)
    requires
        constants_well_formed(q),
        all_well_formed(rs),
    ensures
        eval_each(q, rs) is Ok ==> all_well_formed(eval_each(q, rs)->Ok_0),
    decreases q, rs.len(),
{
    if rs.len() > 0 {
        let t = rs.drop_first();
        assert(all_well_formed(t)) by {
            assert forall|i: int| 0 <= i < t.len() implies well_formed(#[trigger] t[i]) by {
                assert(t[i] == rs[i + 1]);
            }
        }
        lemma_eval_well_formed(q, rs[0]);
        lemma_each_well_formed(q, t);
        match eval(q, rs[0]) {
            Ok(a) => match eval_each(q, t) {
                Ok(b) => {
                    lemma_concat_well_formed(a, b);
                },
                Err(_) => {},
            },
            Err(_) => {},
        }
    }
}

/// Evaluation keeps documents well formed: on a well-formed input, a query
/// whose constants are well formed yields only well-formed documents.
pub proof fn lemma_eval_well_formed(q: Query, v: Json)
    requires
        well_formed(v),
        constants_well_formed(q),
    ensures
        eval(q, v) is Ok ==> all_well_formed(eval(q, v)->Ok_0),
    decreases q, 0nat,
{
    match q {
        Query::Index(i) => {
            lemma_index_well_formed(i, v);
        },
        Query::Iterator => {
            lemma_iterate_well_formed(v);
        },
        Query::Recurse => {
            lemma_descendants_well_formed(v);
        },
        Query::Split(b) => {
            lemma_eval_well_formed(b.0, v);
            lemma_eval_well_formed(b.1, v);
            match (eval(b.0, v), eval(b.1, v)) {
                (Ok(x), Ok(y)) => {
                    lemma_concat_well_formed(x, y);
                },
                _ => {},
            }
        },
        Query::Chain(b) => {
            lemma_eval_well_formed(b.0, v);
            match eval(b.0, v) {
                Ok(rs) => {
                    lemma_each_well_formed(b.1, rs);
                },
                Err(_) => {},
            }
        },
        Query::Contruct(Construct::Array(x)) => {
            lemma_eval_well_formed(*x, v);
        },
        Query::Contruct(Construct::Object(kvs)) => {
            lemma_entries_well_formed(kvs@, v);
            match eval_entries(kvs@, v) {
                Ok(gs) => {
                    lemma_objects_well_formed(gs);
                },
                Err(_) => {},
            }
        },
        Query::Optional(b) => {
            lemma_eval_well_formed(b.0, v);
        },
        Query::Op(b) => {
            lemma_eval_well_formed(b.left, v);
            lemma_eval_well_formed(b.right, v);
            match (eval(b.left, v), eval(b.right, v)) {
                (Ok(ls), Ok(rs)) => {
                    lemma_op_all_well_formed(b.sign, ls, rs);
                },
                _ => {},
            }
        },
        _ => {},
    }
}

} // verus!
