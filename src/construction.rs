//! Array and object literals built from the results of inner queries.
use vstd::prelude::*;

use crate::index::Index;
use crate::query::Query;
use crate::value::{entry_views, insert, keys_unique, lemma_entry_views, lemma_insert_unique, Json, Value};

verus! {

/// `[inner]` or `{key: value, ...}`.
#[derive(Debug, PartialEq)]
pub enum Construct {
    Array(Box<Query>),
    Object(Vec<(Key, Query)>),
}

/// The key of an object literal entry: a fixed name or a query whose
/// results must all be strings.
#[derive(Debug, PartialEq)]
pub enum Key {
    Simple(String),
    Query(Query),
}

/// One candidate entry of a constructed object.
pub type Entry = (Seq<char>, Json);

/// Every key paired with every value, keys outermost.
pub open spec fn pairs(ks: Seq<Seq<char>>, vs: Seq<Json>) -> Seq<Entry>
    decreases ks.len(),
{
    if ks.len() == 0 {
        Seq::empty()
    } else {
        pairs(ks.drop_last(), vs) + vs.map_values(|x: Json| (ks.last(), x))
    }
}

/// Each combination in `cs` extended by each entry of `ps`, the entry varying fastest.
pub open spec fn extend(cs: Seq<Seq<Entry>>, ps: Seq<Entry>) -> Seq<Seq<Entry>>
    decreases cs.len(),
{
    if cs.len() == 0 {
        Seq::empty()
    } else {
        extend(cs.drop_last(), ps) + ps.map_values(|p: Entry| cs.last().push(p))
    }
}

/// All ways to pick one entry from each group, in declaration order, the last
/// group varying fastest. No group gives one empty combination.
pub open spec fn combos(groups: Seq<Seq<Entry>>) -> Seq<Seq<Entry>>
    decreases groups.len(),
{
    if groups.len() == 0 {
        seq![Seq::empty()]
    } else {
        extend(combos(groups.drop_last()), groups.last())
    }
}

/// The object that a combination of entries builds: later entries overwrite
/// earlier ones with the same key.
pub open spec fn build(c: Seq<Entry>) -> Seq<Entry>
    decreases c.len(),
{
    if c.len() == 0 {
        Seq::empty()
    } else {
        insert(build(c.drop_last()), c.last().0, c.last().1)
    }
}

/// One object per combination.
pub open spec fn objects(groups: Seq<Seq<Entry>>) -> Seq<Json> {
    combos(groups).map_values(|c: Seq<Entry>| Json::Object(build(c)))
}

/// A constructed object never repeats a key.
pub proof fn lemma_build_unique(c: Seq<Entry>)
    ensures
        keys_unique(build(c)),
    decreases c.len(),
{
    if c.len() > 0 {
        lemma_build_unique(c.drop_last());
        lemma_insert_unique(build(c.drop_last()), c.last().0, c.last().1);
    }
}

/// Every object that an object literal yields has unique keys.
pub proof fn objects_have_unique_keys(groups: Seq<Seq<Entry>>)
    ensures
        forall|i: int|
            0 <= i < objects(groups).len() ==> (#[trigger] objects(groups)[i] is Object
                && keys_unique(objects(groups)[i]->Object_0)),
{
    assert forall|i: int| 0 <= i < objects(groups).len() implies (#[trigger] objects(
        groups,
    )[i] is Object && keys_unique(objects(groups)[i]->Object_0)) by {
        lemma_build_unique(combos(groups)[i]);
    }
}

pub open spec fn groups_view(gs: Seq<Vec<(String, Value)>>) -> Seq<Seq<Entry>> {
    gs.map_values(|g: Vec<(String, Value)>| entry_views(g@))
}

impl Construct {
    /// The entry `name` of `{name}`: the key `name` with the value `.name`.
    pub fn shorthand(s: String) -> (r: (Key, Query))
        ensures
            r.0 == Key::Simple(s),
            r.1 == Query::Index(Index::String(s)),
    {
        let k = Key::Simple(s.clone());
        let q = Query::Index(Index::String(s));
        (k, q)
    }
}

/// The object built from one combination of entries.
pub fn build_object(c: &Vec<(String, Value)>) -> (r: Vec<(String, Value)>)
    ensures
        entry_views(r@) == build(entry_views(c@)),
{
    proof {
        lemma_entry_views(c@);
    }
    let ghost cv = entry_views(c@);
    let mut out: Vec<(String, Value)> = Vec::new();
    let mut i: usize = 0;
    proof {
        lemma_entry_views(out@);
        assert(cv.subrange(0, 0) =~= Seq::<Entry>::empty());
    }
    while i < c.len()
        invariant
            i <= c.len(),
            cv == entry_views(c@),
            cv.len() == c.len(),
            forall|j: int| 0 <= j < c.len() ==> #[trigger] cv[j] == (c@[j].0@, c@[j].1@),
            entry_views(out@) == build(cv.subrange(0, i as int)),
        decreases c.len() - i,
    {
        let ghost s1 = cv.subrange(0, i + 1);
        assert(s1.drop_last() =~= cv.subrange(0, i as int));
        crate::operators::insert_entry(&mut out, c[i].0.clone(), c[i].1.deep_copy());
        i += 1;
    }
    assert(cv.subrange(0, c.len() as int) =~= cv);
    out
}

/// Every key paired with a copy of every value.
pub fn pairs_exec(ks: &Vec<String>, vs: &Vec<Value>) -> (r: Vec<(String, Value)>)
    ensures
        entry_views(r@) == pairs(ks@.map_values(|s: String| s@), crate::value::views(vs@)),
{
    proof {
        crate::value::lemma_views(vs@);
    }
    let ghost kv = ks@.map_values(|s: String| s@);
    let ghost vv = crate::value::views(vs@);
    let mut out: Vec<(String, Value)> = Vec::new();
    let mut i: usize = 0;
    proof {
        lemma_entry_views(out@);
        assert(kv.subrange(0, 0) =~= Seq::<Seq<char>>::empty());
    }
    while i < ks.len()
        invariant
            i <= ks.len(),
            kv == ks@.map_values(|s: String| s@),
            vv == crate::value::views(vs@),
            vv.len() == vs.len(),
            forall|j: int| 0 <= j < vs.len() ==> #[trigger] vv[j] == vs@[j]@,
            entry_views(out@) == pairs(kv.subrange(0, i as int), vv),
        decreases ks.len() - i,
    {
        let ghost s1 = kv.subrange(0, i + 1);
        assert(s1.drop_last() =~= kv.subrange(0, i as int));
        let ghost before = entry_views(out@);
        let mut j: usize = 0;
        while j < vs.len()
            invariant
                i < ks.len(),
                j <= vs.len(),
                vv.len() == vs.len(),
                forall|m: int| 0 <= m < vs.len() ==> #[trigger] vv[m] == vs@[m]@,
                entry_views(out@) == before + vv.subrange(0, j as int).map_values(
                    |x: Json| (ks@[i as int]@, x),
                ),
            decreases vs.len() - j,
        {
            let ghost prev = out@;
            out.push((ks[i].clone(), vs[j].deep_copy()));
            proof {
                lemma_entry_views(out@);
                lemma_entry_views(prev);
                assert(out@.drop_last() =~= prev);
                assert(entry_views(out@) == entry_views(prev).push(
                    (out@[out@.len() - 1].0@, out@[out@.len() - 1].1@),
                ));
                assert(entry_views(out@) =~= before + vv.subrange(0, j + 1).map_values(
                    |x: Json| (ks@[i as int]@, x),
                ));
            }
            j += 1;
        }
        assert(vv.subrange(0, vs.len() as int) =~= vv);
        assert(s1.last() == ks@[i as int]@);
        i += 1;
    }
    assert(kv.subrange(0, ks.len() as int) =~= kv);
    out
}

/// Each combination extended by a copy of each entry of `ps`.
pub fn extend_exec(cs: &Vec<Vec<(String, Value)>>, ps: &Vec<(String, Value)>) -> (r: Vec<
    Vec<(String, Value)>,
>)
    ensures
        groups_view(r@) == extend(groups_view(cs@), entry_views(ps@)),
{
    proof {
        lemma_entry_views(ps@);
    }
    let ghost cv = groups_view(cs@);
    let ghost pv = entry_views(ps@);
    let mut out: Vec<Vec<(String, Value)>> = Vec::new();
    let mut i: usize = 0;
    assert(groups_view(out@) =~= extend(cv.subrange(0, 0), pv));
    while i < cs.len()
        invariant
            i <= cs.len(),
            cv == groups_view(cs@),
            pv == entry_views(ps@),
            pv.len() == ps.len(),
            forall|m: int| 0 <= m < ps.len() ==> #[trigger] pv[m] == (ps@[m].0@, ps@[m].1@),
            groups_view(out@) == extend(cv.subrange(0, i as int), pv),
        decreases cs.len() - i,
    {
        let ghost s1 = cv.subrange(0, i + 1);
        assert(s1.drop_last() =~= cv.subrange(0, i as int));
        let ghost before = groups_view(out@);
        let mut j: usize = 0;
        while j < ps.len()
            invariant
                i < cs.len(),
                j <= ps.len(),
                pv.len() == ps.len(),
                forall|m: int| 0 <= m < ps.len() ==> #[trigger] pv[m] == (ps@[m].0@, ps@[m].1@),
                groups_view(out@) == before + pv.subrange(0, j as int).map_values(
                    |p: Entry| entry_views(cs@[i as int]@).push(p),
                ),
            decreases ps.len() - j,
        {
            let ghost prev = out@;
            let mut c = crate::operators::copy_entries(&cs[i]);
            let k = ps[j].0.clone();
            let v = ps[j].1.deep_copy();
            let ghost cprev = c@;
            c.push((k, v));
            proof {
                lemma_entry_views(c@);
                lemma_entry_views(cprev);
                assert(c@.drop_last() =~= cprev);
                assert(entry_views(c@) == entry_views(cprev).push(pv[j as int]));
            }
            let ghost cv2 = entry_views(c@);
            assert(cv2 == entry_views(cs@[i as int]@).push(pv[j as int]));
            out.push(c);
            assert(out@.drop_last() =~= prev);
            assert(groups_view(out@) =~= groups_view(prev).push(cv2));
            assert(groups_view(out@) =~= before + pv.subrange(0, j + 1).map_values(
                |p: Entry| entry_views(cs@[i as int]@).push(p),
            ));
            j += 1;
        }
        assert(pv.subrange(0, ps.len() as int) =~= pv);
        i += 1;
    }
    assert(cv.subrange(0, cs.len() as int) =~= cv);
    out
}

/// All combinations of one entry per group.
pub fn combos_exec(groups: &Vec<Vec<(String, Value)>>) -> (r: Vec<Vec<(String, Value)>>)
    ensures
        groups_view(r@) == combos(groups_view(groups@)),
{
    let ghost gv = groups_view(groups@);
    let mut out: Vec<Vec<(String, Value)>> = Vec::new();
    out.push(Vec::new());
    proof {
        lemma_entry_views(out@[0]@);
        assert(groups_view(out@) =~= combos(gv.subrange(0, 0)));
    }
    let mut i: usize = 0;
    while i < groups.len()
        invariant
            i <= groups.len(),
            gv == groups_view(groups@),
            groups_view(out@) == combos(gv.subrange(0, i as int)),
        decreases groups.len() - i,
    {
        let ghost s1 = gv.subrange(0, i + 1);
        assert(s1.drop_last() =~= gv.subrange(0, i as int));
        out = extend_exec(&out, &groups[i]);
        i += 1;
    }
    assert(gv.subrange(0, groups.len() as int) =~= gv);
    out
}

/// One object value per combination of entries.
pub fn objects_exec(groups: &Vec<Vec<(String, Value)>>) -> (r: Vec<Value>)
    ensures
        crate::value::views(r@) == objects(groups_view(groups@)),
{
    let cs = combos_exec(groups);
    let ghost cv = groups_view(cs@);
    let mut out: Vec<Value> = Vec::new();
    let mut i: usize = 0;
    while i < cs.len()
        invariant
            i <= cs.len(),
            cv == groups_view(cs@),
            out@.len() == i,
            forall|j: int|
                0 <= j < i ==> #[trigger] out@[j]@ == Json::Object(build(entry_views(cs@[j]@))),
        decreases cs.len() - i,
    {
        out.push(Value::Object(build_object(&cs[i])));
        i += 1;
    }
    proof {
        crate::value::lemma_views(out@);
    }
    assert(crate::value::views(out@) =~= objects(groups_view(groups@)));
    out
}

} // verus!
