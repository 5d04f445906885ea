//! Binary arithmetic on pairs of documents, with per-kind meaning.
use vstd::prelude::*;
use vstd::string::*;

use crate::query::Query;
use crate::value::{
    entry_views, find_key, insert, kind_of, lemma_entry_views, lemma_key_pos, lemma_views, lookup,
    views, Json, Number, Value,
};
use crate::QueryError;

verus! {

/// The operator of a binary arithmetic expression.
#[derive(PartialEq, Eq, Structural, Clone, Copy, Debug)]
pub enum Sign {
    Add,
    Sub,
    Mul,
    Div,
    Mod,
}

/// `left <sign> right`, over all pairs of their results.
#[derive(Debug, PartialEq)]
pub struct Op {
    pub left: Query,
    pub sign: Sign,
    pub right: Query,
}

pub open spec fn fits_i64(x: int) -> bool {
    i64::MIN <= x <= i64::MAX
}

pub open spec fn abs(x: int) -> nat {
    if x < 0 {
        (-x) as nat
    } else {
        x as nat
    }
}

/// An exact integer result, or `Numerical` where it does not fit.
pub open spec fn int_result(x: int) -> Result<Json, QueryError> {
    if fits_i64(x) {
        Ok(Json::Int(x as i64))
    } else {
        Err(QueryError::Numerical)
    }
}

pub open spec fn is_number(v: Json) -> bool {
    v is Int || v is Decimal
}

/// Arithmetic on two numbers. Only exact integer arithmetic is done: a
/// quotient that is not an integer, an overflow, a zero divisor, or an
/// operand that is not an integer gives `Numerical`. Division and remainder
/// truncate toward zero.
pub open spec fn numeric(sign: Sign, a: Json, b: Json) -> Result<Json, QueryError> {
    match (a, b) {
        (Json::Int(x), Json::Int(y)) => {
            let (x, y) = (x as int, y as int);
            match sign {
                Sign::Add => int_result(x + y),
                Sign::Sub => int_result(x - y),
                Sign::Mul => int_result(x * y),
                Sign::Div => if y == 0 || abs(x) % abs(y) != 0 {
                    Err(QueryError::Numerical)
                } else if (x < 0) != (y < 0) {
                    int_result(-(abs(x) / abs(y)))
                } else {
                    int_result((abs(x) / abs(y)) as int)
                },
                Sign::Mod => if y == 0 {
                    Err(QueryError::Numerical)
                } else if x < 0 {
                    int_result(-(abs(x) % abs(y)))
                } else {
                    int_result((abs(x) % abs(y)) as int)
                },
            }
        },
        _ => Err(QueryError::Numerical),
    }
}

/// Recursive object merge: entries of `r` overwrite those of `l` in order,
/// except that two objects under the same key are merged in turn.
pub open spec fn merge(l: Seq<(Seq<char>, Json)>, r: Seq<(Seq<char>, Json)>) -> Seq<(Seq<char>, Json)>
    decreases r,
{
    if r.len() == 0 {
        l
    } else {
        let acc = merge(l, r.drop_last());
        let (k, v) = r.last();
        let nv = match (lookup(l, k), v) {
            (Some(Json::Object(o)), Json::Object(p)) => Json::Object(merge(o, p)),
            _ => v,
        };
        insert(acc, k, nv)
    }
}

/// Merging into an object with unique keys keeps them unique.
pub proof fn lemma_merge_unique(l: Seq<(Seq<char>, Json)>, r: Seq<(Seq<char>, Json)>)
    requires
        crate::value::keys_unique(l),
    ensures
        crate::value::keys_unique(merge(l, r)),
    decreases r,
{
    if r.len() > 0 {
        lemma_merge_unique(l, r.drop_last());
        let (k, v) = r.last();
        let nv = match (lookup(l, k), v) {
            (Some(Json::Object(o)), Json::Object(p)) => Json::Object(merge(o, p)),
            _ => v,
        };
        crate::value::lemma_insert_unique(merge(l, r.drop_last()), k, nv);
    }
}

/// The items of `a` that do not occur in `b`, in order.
pub open spec fn difference(a: Seq<Json>, b: Seq<Json>) -> Seq<Json>
    decreases a.len(),
{
    if a.len() == 0 {
        a
    } else if b.contains(a.last()) {
        difference(a.drop_last(), b)
    } else {
        difference(a.drop_last(), b).push(a.last())
    }
}

/// `s` repeated `n` times.
pub open spec fn repeat(s: Seq<char>, n: nat) -> Seq<char>
    decreases n,
{
    if n == 0 {
        Seq::empty()
    } else {
        repeat(s, (n - 1) as nat) + s
    }
}

/// First position `p >= i` at which `t` occurs in `s`, or -1.
pub open spec fn find_from(s: Seq<char>, t: Seq<char>, i: int) -> int
    decreases s.len() - i,
{
    if i < 0 || i + t.len() > s.len() {
        -1
    } else if t.len() == 0 || s.subrange(i, i + t.len()) == t {
        i
    } else {
        find_from(s, t, i + 1)
    }
}

/// The pieces of `s` from position `i` on, cut at each occurrence of the
/// non-empty separator `t` (leftmost first, without overlap).
pub open spec fn split_from(s: Seq<char>, t: Seq<char>, i: int) -> Seq<Seq<char>>
    decreases s.len() - i,
{
    let p = find_from(s, t, i);
    if t.len() == 0 || i < 0 || i > s.len() || p < i || p + t.len() > s.len() {
        seq![s.subrange(i, s.len() as int)]
    } else {
        seq![s.subrange(i, p)] + split_from(s, t, p + t.len())
    }
}

/// `s` split on `t`. An empty separator cuts between all characters and
/// also before the first and after the last.
pub open spec fn split(s: Seq<char>, t: Seq<char>) -> Seq<Seq<char>> {
    if t.len() == 0 {
        seq![Seq::empty()] + s.map_values(|c: char| seq![c]) + seq![Seq::empty()]
    } else {
        split_from(s, t, 0)
    }
}

pub open spec fn strings(ps: Seq<Seq<char>>) -> Seq<Json> {
    ps.map_values(|p: Seq<char>| Json::Str(p))
}

/// The result of `l <sign> r` on two documents.
pub open spec fn operation(sign: Sign, l: Json, r: Json) -> Result<Json, QueryError> {
    let mismatch = Err(QueryError::Operation(sign, kind_of(l), kind_of(r)));
    match sign {
        Sign::Add => if is_number(l) && is_number(r) {
            numeric(sign, l, r)
        } else {
            match (l, r) {
                (Json::Str(a), Json::Str(b)) => Ok(Json::Str(a + b)),
                (Json::Array(a), Json::Array(b)) => Ok(Json::Array(a + b)),
                (Json::Object(a), Json::Object(b)) => Ok(Json::Object(merge(a, b))),
                (Json::Null, _) => Ok(r),
                (_, Json::Null) => Ok(l),
                _ => mismatch,
            }
        },
        Sign::Sub => if is_number(l) && is_number(r) {
            numeric(sign, l, r)
        } else {
            match (l, r) {
                (Json::Array(a), Json::Array(b)) => Ok(Json::Array(difference(a, b))),
                (_, Json::Null) => Ok(l),
                _ => mismatch,
            }
        },
        Sign::Mul => if is_number(l) && is_number(r) {
            numeric(sign, l, r)
        } else {
            match (l, r) {
                (Json::Str(s), Json::Int(n)) => if n < 0 || s.len() * n > usize::MAX {
                    Err(QueryError::Numerical)
                } else if n == 0 {
                    Ok(Json::Null)
                } else {
                    Ok(Json::Str(repeat(s, n as nat)))
                },
                (Json::Str(_), Json::Decimal(_)) => Err(QueryError::Numerical),
                (Json::Object(a), Json::Object(b)) => Ok(Json::Object(merge(a, b))),
                (Json::Null, _) => Ok(r),
                (_, Json::Null) => Ok(l),
                _ => mismatch,
            }
        },
        Sign::Div => if is_number(l) && is_number(r) {
            numeric(sign, l, r)
        } else {
            match (l, r) {
                (Json::Str(a), Json::Str(b)) => Ok(Json::Array(strings(split(a, b)))),
                (_, Json::Null) => Ok(l),
                _ => mismatch,
            }
        },
        Sign::Mod => if is_number(l) && is_number(r) {
            numeric(sign, l, r)
        } else {
            match (l, r) {
                (_, Json::Null) => Ok(l),
                _ => mismatch,
            }
        },
    }
}


/// The view of a single-value result.
pub open spec fn value_result_view(r: Result<Value, QueryError>) -> Result<Json, QueryError> {
    match r {
        Ok(v) => Ok(v@),
        Err(e) => Err(e),
    }
}

fn int_value(x: i128) -> (r: Result<Value, QueryError>)
    ensures
        value_result_view(r) == int_result(x as int),
{
    if x < i64::MIN as i128 || x > i64::MAX as i128 {
        Err(QueryError::Numerical)
    } else {
        Ok(Value::Number(Number::Int(x as i64)))
    }
}

fn magnitude(x: i64) -> (r: u64)
    ensures
        r as int == abs(x as int),
{
    if x < 0 {
        (0i128 - x as i128) as u64
    } else {
        x as u64
    }
}

fn numeric_exec(sign: Sign, a: i64, b: i64) -> (r: Result<Value, QueryError>)
    ensures
        value_result_view(r) == numeric(sign, Json::Int(a), Json::Int(b)),
{
    match sign {
        Sign::Add => int_value(a as i128 + b as i128),
        Sign::Sub => int_value(a as i128 - b as i128),
        Sign::Mul => match a.checked_mul(b) {
            Some(x) => Ok(Value::Number(Number::Int(x))),
            None => Err(QueryError::Numerical),
        },
        Sign::Div => {
            if b == 0 {
                return Err(QueryError::Numerical);
            }
            let ua = magnitude(a);
            let ub = magnitude(b);
            if ua % ub != 0 {
                return Err(QueryError::Numerical);
            }
            let q = ua / ub;
            if (a < 0) != (b < 0) {
                int_value(0i128 - q as i128)
            } else {
                int_value(q as i128)
            }
        },
        Sign::Mod => {
            if b == 0 {
                return Err(QueryError::Numerical);
            }
            let ua = magnitude(a);
            let ub = magnitude(b);
            let m = ua % ub;
            if a < 0 {
                int_value(0i128 - m as i128)
            } else {
                int_value(m as i128)
            }
        },
    }
}

/// Deep copies of the entries of an object.
pub fn copy_entries(o: &Vec<(String, Value)>) -> (r: Vec<(String, Value)>)
    ensures
        entry_views(r@) == entry_views(o@),
{
    let mut out: Vec<(String, Value)> = Vec::new();
    let mut i: usize = 0;
    while i < o.len()
        invariant
            i <= o.len(),
            out@.len() == i,
            forall|j: int|
                #![trigger out@[j]]
                0 <= j < i ==> out@[j].0@ == o@[j].0@ && out@[j].1@ == o@[j].1@,
        decreases o.len() - i,
    {
        let k = o[i].0.clone();
        let v = o[i].1.deep_copy();
        out.push((k, v));
        i += 1;
    }
    proof {
        lemma_entry_views(out@);
        lemma_entry_views(o@);
    }
    assert(entry_views(out@) =~= entry_views(o@));
    out
}

/// Map insertion on an object's entries.
pub fn insert_entry(o: &mut Vec<(String, Value)>, k: String, v: Value)
    ensures
        entry_views(final(o)@) == insert(entry_views(old(o)@), k@, v@),
{
    proof {
        lemma_entry_views(o@);
        lemma_key_pos(entry_views(o@), k@);
    }
    let p = find_key(o, &k);
    let ghost kv = k@;
    let ghost vv = v@;
    if p < o.len() {
        o[p] = (k, v);
        proof {
            lemma_entry_views(o@);
        }
        assert(entry_views(o@) =~= entry_views(old(o)@).update(p as int, (kv, vv)));
    } else {
        o.push((k, v));
        proof {
            lemma_entry_views(o@);
        }
        assert(entry_views(o@) =~= entry_views(old(o)@).push((kv, vv)));
    }
}

/// Recursive merge of two objects' entries.
pub fn merge_objects(l: &Vec<(String, Value)>, r: &Vec<(String, Value)>) -> (out: Vec<
    (String, Value),
>)
    ensures
        entry_views(out@) == merge(entry_views(l@), entry_views(r@)),
    decreases r,
{
    proof {
        lemma_entry_views(l@);
        lemma_entry_views(r@);
    }
    let ghost lv = entry_views(l@);
    let ghost rv = entry_views(r@);
    let mut acc = copy_entries(l);
    let mut i: usize = 0;
    assert(rv.subrange(0, 0).len() == 0);
    while i < r.len()
        invariant
            i <= r.len(),
            lv == entry_views(l@),
            rv == entry_views(r@),
            rv.len() == r.len(),
            lv.len() == l.len(),
            forall|j: int| 0 <= j < r.len() ==> #[trigger] rv[j] == (r@[j].0@, r@[j].1@),
            forall|j: int| 0 <= j < l.len() ==> #[trigger] lv[j] == (l@[j].0@, l@[j].1@),
            entry_views(acc@) == merge(lv, rv.subrange(0, i as int)),
        decreases r.len() - i,
    {
        let k = r[i].0.clone();
        let p = find_key(l, &k);
        proof {
            lemma_key_pos(lv, k@);
        }
        let nv: Value = if p < l.len() {
            match (&l[p].1, &r[i].1) {
                (Value::Object(o), Value::Object(q)) => {
                    proof {
                        assert(decreases_to!(*r => r[i as int]));
                        assert(decreases_to!(r[i as int] => r[i as int].1));
                        assert(decreases_to!(r[i as int].1 => r[i as int].1->Object_0));
                    }
                    Value::Object(merge_objects(o, q))
                },
                _ => r[i].1.deep_copy(),
            }
        } else {
            r[i].1.deep_copy()
        };
        let ghost before = acc@;
        insert_entry(&mut acc, k, nv);
        proof {
            let s1 = rv.subrange(0, i + 1);
            assert(s1.drop_last() =~= rv.subrange(0, i as int));
            assert(s1.last() == rv[i as int]);
        }
        i += 1;
    }
    assert(rv.subrange(0, r.len() as int) =~= rv);
    acc
}

/// Whether `x` occurs in `b`.
pub fn contains_value(b: &Vec<Value>, x: &Value) -> (r: bool)
    ensures
        r == views(b@).contains(x@),
{
    proof {
        lemma_views(b@);
    }
    let mut i: usize = 0;
    while i < b.len()
        invariant
            i <= b.len(),
            views(b@).len() == b.len(),
            forall|j: int| 0 <= j < b.len() ==> #[trigger] views(b@)[j] == b@[j]@,
            forall|j: int| 0 <= j < i ==> b@[j]@ != x@,
        decreases b.len() - i,
    {
        if b[i].equals(x) {
            assert(views(b@)[i as int] == x@);
            return true;
        }
        i += 1;
    }
    false
}

/// The items of `a` that do not occur in `b`.
pub fn subtract_arrays(a: &Vec<Value>, b: &Vec<Value>) -> (r: Vec<Value>)
    ensures
        views(r@) == difference(views(a@), views(b@)),
{
    proof {
        lemma_views(a@);
    }
    let ghost av = views(a@);
    let mut out: Vec<Value> = Vec::new();
    let mut i: usize = 0;
    proof {
        lemma_views(out@);
        assert(av.subrange(0, 0).len() == 0);
    }
    while i < a.len()
        invariant
            i <= a.len(),
            av == views(a@),
            av.len() == a.len(),
            forall|j: int| 0 <= j < a.len() ==> #[trigger] av[j] == a@[j]@,
            views(out@) == difference(av.subrange(0, i as int), views(b@)),
        decreases a.len() - i,
    {
        let ghost s1 = av.subrange(0, i + 1);
        assert(s1.drop_last() =~= av.subrange(0, i as int));
        if !contains_value(b, &a[i]) {
            let ghost before = out@;
            out.push(a[i].deep_copy());
            proof {
                lemma_views(out@);
                lemma_views(before);
                assert(out@.drop_last() =~= before);
            }
        }
        i += 1;
    }
    assert(av.subrange(0, a.len() as int) =~= av);
    out
}

proof fn lemma_repeat_empty(n: nat)
    ensures
        repeat(Seq::<char>::empty(), n) == Seq::<char>::empty(),
    decreases n,
{
    if n > 0 {
        lemma_repeat_empty((n - 1) as nat);
        assert(repeat(Seq::<char>::empty(), (n - 1) as nat) + Seq::<char>::empty() =~= Seq::<
            char,
        >::empty());
    }
}

/// `s` repeated `n` times.
pub fn repeat_string(s: &String, n: u64) -> (r: String)
    ensures
        r@ == repeat(s@, n as nat),
{
    let mut out = String::new();
    if s.as_str().unicode_len() == 0 {
        proof {
            lemma_repeat_empty(n as nat);
            assert(s@ =~= Seq::<char>::empty());
        }
        return out;
    }
    let mut i: u64 = 0;
    while i < n
        invariant
            i <= n,
            out@ == repeat(s@, i as nat),
        decreases n - i,
    {
        out.append(s.as_str());
        i += 1;
    }
    out
}

fn matches_at(s: &Vec<char>, t: &Vec<char>, i: usize) -> (r: bool)
    requires
        i + t.len() <= s.len(),
    ensures
        r == (s@.subrange(i as int, i + t.len()) == t@),
{
    let mut k: usize = 0;
    while k < t.len()
        invariant
            k <= t.len(),
            i + t.len() <= s.len(),
            forall|j: int| 0 <= j < k ==> s@[i + j] == t@[j],
        decreases t.len() - k,
    {
        if s[i + k] != t[k] {
            assert(s@.subrange(i as int, i + t.len())[k as int] != t@[k as int]);
            return false;
        }
        k += 1;
    }
    assert(s@.subrange(i as int, i + t.len()) =~= t@);
    true
}

proof fn lemma_find_from(s: Seq<char>, t: Seq<char>, i: int)
    requires
        0 <= i,
    ensures
        find_from(s, t, i) == -1 || (i <= find_from(s, t, i) && find_from(s, t, i) + t.len()
            <= s.len()),
    decreases s.len() - i,
{
    if i + t.len() <= s.len() && !(t.len() == 0 || s.subrange(i, i + t.len()) == t) {
        lemma_find_from(s, t, i + 1);
    }
}

fn find_exec(s: &Vec<char>, t: &Vec<char>, i: usize) -> (r: Option<usize>)
    requires
        t.len() > 0,
        i <= s.len(),
    ensures
        match r {
            Some(p) => p as int == find_from(s@, t@, i as int),
            None => find_from(s@, t@, i as int) == -1,
        },
{
    if t.len() > s.len() {
        return None;
    }
    let mut j: usize = i;
    while j <= s.len() - t.len()
        invariant
            i <= j <= s.len(),
            t.len() <= s.len(),
            t.len() > 0,
            find_from(s@, t@, i as int) == find_from(s@, t@, j as int),
        decreases s.len() - j,
    {
        if matches_at(s, t, j) {
            return Some(j);
        }
        j += 1;
    }
    None
}

/// The pieces of `s` cut at each occurrence of `t`, as string values.
pub fn split_string(s: &String, t: &String) -> (r: Vec<Value>)
    ensures
        views(r@) == strings(split(s@, t@)),
{
    let sc = crate::value::chars_of(s.as_str());
    let tc = crate::value::chars_of(t.as_str());
    let mut out: Vec<Value> = Vec::new();
    if tc.len() == 0 {
        let ghost pieces = seq![Seq::<char>::empty()] + s@.map_values(|c: char| seq![c]) + seq![
            Seq::<char>::empty(),
        ];
        out.push(Value::String(String::new()));
        assert(out@[0]@ == Json::Str(pieces[0]));
        let mut i: usize = 0;
        while i < sc.len()
            invariant
                i <= sc.len(),
                sc@ == s@,
                out@.len() == i + 1,
                pieces.len() == s@.len() + 2,
                forall|j: int| 0 <= j < s@.len() ==> pieces[j + 1] == seq![s@[j]],
                pieces[0] == Seq::<char>::empty(),
                pieces[s@.len() as int + 1] == Seq::<char>::empty(),
                forall|j: int| 0 <= j <= i ==> #[trigger] out@[j]@ == Json::Str(pieces[j]),
            decreases sc.len() - i,
        {
            let piece = s.as_str().substring_char(i, i + 1).to_owned();
            assert(piece@ =~= seq![s@[i as int]]);
            assert(pieces[i + 1] == seq![s@[i as int]]);
            out.push(Value::String(piece));
            i += 1;
        }
        out.push(Value::String(String::new()));
        proof {
            lemma_views(out@);
            assert(views(out@) =~= strings(pieces));
        }
        return out;
    }
    let mut pos: usize = 0;
    proof {
        lemma_views(out@);
        assert(views(out@) + strings(split_from(s@, t@, 0)) =~= strings(split(s@, t@)));
    }
    loop
        invariant
            sc@ == s@,
            tc@ == t@,
            tc.len() > 0,
            pos <= sc.len(),
            views(out@) + strings(split_from(s@, t@, pos as int)) == strings(split(s@, t@)),
        decreases sc.len() - pos,
    {
        proof {
            lemma_find_from(s@, t@, pos as int);
            lemma_views(out@);
        }
        let ghost before = out@;
        match find_exec(&sc, &tc, pos) {
            None => {
                let piece = s.as_str().substring_char(pos, sc.len()).to_owned();
                out.push(Value::String(piece));
                proof {
                    lemma_views(out@);
                    assert(split_from(s@, t@, pos as int) == seq![
                        s@.subrange(pos as int, s@.len() as int),
                    ]);
                    assert(views(out@) =~= views(before) + strings(
                        split_from(s@, t@, pos as int),
                    ));
                }
                return out;
            },
            Some(p) => {
                let piece = s.as_str().substring_char(pos, p).to_owned();
                out.push(Value::String(piece));
                proof {
                    lemma_views(out@);
                    let rest = split_from(s@, t@, p + t@.len());
                    assert(split_from(s@, t@, pos as int) == seq![s@.subrange(pos as int, p as int)]
                        + rest);
                    assert(views(out@) =~= views(before) + seq![
                        Json::Str(s@.subrange(pos as int, p as int)),
                    ]);
                    assert(strings(split_from(s@, t@, pos as int)) =~= seq![
                        Json::Str(s@.subrange(pos as int, p as int)),
                    ] + strings(rest));
                }
                pos = p + tc.len();
            },
        }
    }
}


/// The items of `a` followed by those of `b`.
pub fn chain_collect(a: &Vec<Value>, b: &Vec<Value>) -> (r: Vec<Value>)
    ensures
        views(r@) == views(a@) + views(b@),
{
    let mut out = crate::index::copy_range(a, 0, a.len());
    let tail = crate::index::copy_range(b, 0, b.len());
    let mut i: usize = 0;
    proof {
        lemma_views(a@);
        lemma_views(b@);
        lemma_views(out@);
        lemma_views(tail@);
        assert(views(a@).subrange(0, a.len() as int) =~= views(a@));
        assert(views(b@).subrange(0, b.len() as int) =~= views(b@));
    }
    while i < tail.len()
        invariant
            i <= tail.len(),
            views(tail@) == views(b@),
            views(tail@).len() == tail.len(),
            forall|j: int| 0 <= j < tail.len() ==> #[trigger] views(tail@)[j] == tail@[j]@,
            views(out@) == views(a@) + views(b@).subrange(0, i as int),
        decreases tail.len() - i,
    {
        let ghost before = out@;
        out.push(tail[i].deep_copy());
        proof {
            lemma_views(out@);
            lemma_views(before);
            assert(out@[out@.len() - 1]@ == views(b@)[i as int]);
            assert(out@.drop_last() =~= before);
            assert(views(out@) == views(before).push(out@[out@.len() - 1]@));
            assert(views(out@) =~= views(a@) + views(b@).subrange(0, i + 1));
        }
        i += 1;
    }
    assert(views(b@).subrange(0, tail.len() as int) =~= views(b@));
    out
}

fn numbers(sign: Sign, a: &Number, b: &Number) -> (r: Result<Value, QueryError>)
    ensures
        value_result_view(r) == numeric(sign, Value::Number(*a)@, Value::Number(*b)@),
{
    match (a, b) {
        (Number::Int(x), Number::Int(y)) => numeric_exec(sign, *x, *y),
        _ => Err(QueryError::Numerical),
    }
}

fn mismatch(sign: Sign, l: &Value, r: &Value) -> (res: Result<Value, QueryError>)
    ensures
        res == Err::<Value, QueryError>(QueryError::Operation(sign, kind_of(l@), kind_of(r@))),
{
    Err(QueryError::Operation(sign, l.kind(), r.kind()))
}

/// `l + r`.
pub fn add(l: &Value, r: &Value) -> (res: Result<Value, QueryError>)
    ensures
        value_result_view(res) == operation(Sign::Add, l@, r@),
{
    match (l, r) {
        (Value::Number(a), Value::Number(b)) => numbers(Sign::Add, a, b),
        (Value::String(a), Value::String(b)) => {
            let mut s = a.clone();
            s.append(b.as_str());
            Ok(Value::String(s))
        },
        (Value::Array(a), Value::Array(b)) => Ok(Value::Array(chain_collect(a, b))),
        (Value::Object(a), Value::Object(b)) => Ok(Value::Object(merge_objects(a, b))),
        (Value::Null, _) => Ok(r.deep_copy()),
        (_, Value::Null) => Ok(l.deep_copy()),
        _ => mismatch(Sign::Add, l, r),
    }
}

/// `l - r`.
pub fn sub(l: &Value, r: &Value) -> (res: Result<Value, QueryError>)
    ensures
        value_result_view(res) == operation(Sign::Sub, l@, r@),
{
    match (l, r) {
        (Value::Number(a), Value::Number(b)) => numbers(Sign::Sub, a, b),
        (Value::Array(a), Value::Array(b)) => Ok(Value::Array(subtract_arrays(a, b))),
        (_, Value::Null) => Ok(l.deep_copy()),
        _ => mismatch(Sign::Sub, l, r),
    }
}

/// `l * r`.
pub fn mul(l: &Value, r: &Value) -> (res: Result<Value, QueryError>)
    ensures
        value_result_view(res) == operation(Sign::Mul, l@, r@),
{
    match (l, r) {
        (Value::Number(a), Value::Number(b)) => numbers(Sign::Mul, a, b),
        (Value::String(s), Value::Number(Number::Int(n))) => {
            let len = s.as_str().unicode_len();
            let m: i64 = *n;
            assert(0 <= m ==> (len as u128) * (m as u128) <= 0xffff_ffff_ffff_ffff_u128
                * 0xffff_ffff_ffff_ffff_u128) by (nonlinear_arith)
                requires
                    len <= 0xffff_ffff_ffff_ffff_u128,
                    m <= 0xffff_ffff_ffff_ffff_i128,
            ;
            if *n < 0 || (len as u128) * (*n as u128) > usize::MAX as u128 {
                Err(QueryError::Numerical)
            } else if *n == 0 {
                Ok(Value::Null)
            } else {
                Ok(Value::String(repeat_string(s, *n as u64)))
            }
        },
        (Value::String(_), Value::Number(Number::Decimal(_))) => Err(QueryError::Numerical),
        (Value::Object(a), Value::Object(b)) => Ok(Value::Object(merge_objects(a, b))),
        (Value::Null, _) => Ok(r.deep_copy()),
        (_, Value::Null) => Ok(l.deep_copy()),
        _ => mismatch(Sign::Mul, l, r),
    }
}

/// `l / r`.
pub fn div(l: &Value, r: &Value) -> (res: Result<Value, QueryError>)
    ensures
        value_result_view(res) == operation(Sign::Div, l@, r@),
{
    match (l, r) {
        (Value::Number(a), Value::Number(b)) => numbers(Sign::Div, a, b),
        (Value::String(a), Value::String(b)) => Ok(Value::Array(split_string(a, b))),
        (_, Value::Null) => Ok(l.deep_copy()),
        _ => mismatch(Sign::Div, l, r),
    }
}

/// `l % r`.
pub fn modulus(l: &Value, r: &Value) -> (res: Result<Value, QueryError>)
    ensures
        value_result_view(res) == operation(Sign::Mod, l@, r@),
{
    match (l, r) {
        (Value::Number(a), Value::Number(b)) => numbers(Sign::Mod, a, b),
        (_, Value::Null) => Ok(l.deep_copy()),
        _ => mismatch(Sign::Mod, l, r),
    }
}

/// `l <sign> r`.
pub fn operate(sign: &Sign, l: &Value, r: &Value) -> (res: Result<Value, QueryError>)
    ensures
        value_result_view(res) == operation(*sign, l@, r@),
{
    match sign {
        Sign::Add => crate::operators::add(l, r),
        Sign::Sub => crate::operators::sub(l, r),
        Sign::Mul => crate::operators::mul(l, r),
        Sign::Div => div(l, r),
        Sign::Mod => modulus(l, r),
    }
}

} // verus!
