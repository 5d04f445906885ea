//! The document model: an immutable tree of null, booleans, numbers,
//! strings, arrays and objects, with its mathematical view.
use vstd::prelude::*;
use vstd::string::*;

verus! {

/// A number of a document. Integers that fit in an `i64` are held exactly;
/// any other number is carried verbatim as its decimal text.
#[derive(Debug, Clone, PartialEq)]
pub enum Number {
    Int(i64),
    Decimal(String),
}

/// A document value. Objects keep their entries in insertion order.
#[derive(Debug, PartialEq)]
pub enum Value {
    Null,
    Bool(bool),
    Number(Number),
    String(String),
    Array(Vec<Value>),
    Object(Vec<(String, Value)>),
}

/// The mathematical view of a document.
pub enum Json {
    Null,
    Bool(bool),
    Int(i64),
    Decimal(Seq<char>),
    Str(Seq<char>),
    Array(Seq<Json>),
    Object(Seq<(Seq<char>, Json)>),
}

impl View for Value {
    type V = Json;

    open spec fn view(&self) -> Json
        decreases self,
    {
        match self {
            Value::Null => Json::Null,
            Value::Bool(b) => Json::Bool(*b),
            Value::Number(Number::Int(i)) => Json::Int(*i),
            Value::Number(Number::Decimal(t)) => Json::Decimal(t@),
            Value::String(s) => Json::Str(s@),
            Value::Array(a) => Json::Array(views(a@)),
            Value::Object(o) => Json::Object(entry_views(o@)),
        }
    }
}

/// The views of a sequence of values, element by element.
pub open spec fn views(s: Seq<Value>) -> Seq<Json>
    decreases s,
{
    if s.len() == 0 {
        Seq::empty()
    } else {
        views(s.drop_last()).push(s.last()@)
    }
}

/// The views of a sequence of object entries, entry by entry.
pub open spec fn entry_views(s: Seq<(String, Value)>) -> Seq<(Seq<char>, Json)>
    decreases s,
{
    if s.len() == 0 {
        Seq::empty()
    } else {
        entry_views(s.drop_last()).push((s.last().0@, s.last().1@))
    }
}


/// The kind of a document value, as named in error reports.
#[derive(PartialEq, Eq, Structural, Clone, Copy, Debug)]
pub enum Kind {
    Null,
    Bool,
    Number,
    String,
    Array,
    Object,
}

pub open spec fn kind_of(v: Json) -> Kind {
    match v {
        Json::Null => Kind::Null,
        Json::Bool(_) => Kind::Bool,
        Json::Int(_) => Kind::Number,
        Json::Decimal(_) => Kind::Number,
        Json::Str(_) => Kind::String,
        Json::Array(_) => Kind::Array,
        Json::Object(_) => Kind::Object,
    }
}

pub open spec fn kind_name(k: Kind) -> Seq<char> {
    match k {
        Kind::Null => "null"@,
        Kind::Bool => "bool"@,
        Kind::Number => "number"@,
        Kind::String => "string"@,
        Kind::Array => "array"@,
        Kind::Object => "object"@,
    }
}

impl Kind {
    /// The lower-case name of the kind.
    pub fn name(&self) -> (r: &'static str)
        ensures
            r@ == kind_name(*self),
    {
        match self {
            Kind::Null => "null",
            Kind::Bool => "bool",
            Kind::Number => "number",
            Kind::String => "string",
            Kind::Array => "array",
            Kind::Object => "object",
        }
    }
}

/// The name of the kind of a value.
pub fn type_str(v: &Value) -> (r: &'static str)
    ensures
        r@ == kind_name(kind_of(v@)),
{
    v.kind().name()
}

/// Index of the first entry with key `k`, or the number of entries if none has it.
pub open spec fn key_pos(o: Seq<(Seq<char>, Json)>, k: Seq<char>) -> int
    decreases o.len(),
{
    if o.len() == 0 {
        0
    } else if o[0].0 == k {
        0
    } else {
        1 + key_pos(o.drop_first(), k)
    }
}

/// The value stored under `k`: that of the first entry with this key.
pub open spec fn lookup(o: Seq<(Seq<char>, Json)>, k: Seq<char>) -> Option<Json> {
    let p = key_pos(o, k);
    if p < o.len() {
        Some(o[p].1)
    } else {
        None
    }
}

/// Map insertion: overwrite the value of an existing key in place, else append.
pub open spec fn insert(o: Seq<(Seq<char>, Json)>, k: Seq<char>, v: Json) -> Seq<(Seq<char>, Json)> {
    let p = key_pos(o, k);
    if p < o.len() {
        o.update(p, (k, v))
    } else {
        o.push((k, v))
    }
}

/// No two entries of an object share a key.
pub open spec fn keys_unique(o: Seq<(Seq<char>, Json)>) -> bool {
    forall|i: int, j: int| 0 <= i < j < o.len() ==> #[trigger] o[i].0 != #[trigger] o[j].0
}

/// A well-formed document: every object in it, at any depth, has unique keys.
pub open spec fn well_formed(v: Json) -> bool
    decreases v,
{
    match v {
        Json::Array(a) => forall|i: int| 0 <= i < a.len() ==> well_formed(#[trigger] a[i]),
        Json::Object(o) => keys_unique(o) && forall|i: int|
            0 <= i < o.len() ==> well_formed(#[trigger] o[i].1),
        _ => true,
    }
}

/// Every document of the sequence is well formed.
pub open spec fn all_well_formed(s: Seq<Json>) -> bool {
    forall|i: int| 0 <= i < s.len() ==> well_formed(#[trigger] s[i])
}

/// Every value of the entries is well formed.
pub open spec fn entries_well_formed(o: Seq<(Seq<char>, Json)>) -> bool {
    forall|i: int| 0 <= i < o.len() ==> well_formed(#[trigger] o[i].1)
}

/// Insertion keeps keys unique, and afterwards the key maps to the new value.
pub proof fn lemma_insert_unique(o: Seq<(Seq<char>, Json)>, k: Seq<char>, v: Json)
    requires
        keys_unique(o),
    ensures
        keys_unique(insert(o, k, v)),
        lookup(insert(o, k, v), k) == Some(v),
{
    lemma_key_pos(o, k);
    let r = insert(o, k, v);
    lemma_key_pos(r, k);
    if key_pos(o, k) < o.len() {
        assert forall|i: int, j: int| 0 <= i < j < r.len() implies #[trigger] r[i].0
            != #[trigger] r[j].0 by {
            assert(o[i].0 != o[j].0);
        }
    } else {
        assert forall|i: int, j: int| 0 <= i < j < r.len() implies #[trigger] r[i].0
            != #[trigger] r[j].0 by {
            if j == o.len() {
                assert(o[i].0 != k);
            } else {
                assert(o[i].0 != o[j].0);
            }
        }
    }
    assert(r[key_pos(o, k)].0 == k);
}

pub proof fn lemma_key_pos(o: Seq<(Seq<char>, Json)>, k: Seq<char>)
    ensures
        0 <= key_pos(o, k) <= o.len(),
        key_pos(o, k) < o.len() ==> o[key_pos(o, k)].0 == k,
        forall|j: int| 0 <= j < key_pos(o, k) ==> o[j].0 != k,
    decreases o.len(),
{
    if o.len() > 0 && o[0].0 != k {
        let t = o.drop_first();
        lemma_key_pos(t, k);
        assert forall|j: int| 0 <= j < key_pos(o, k) implies o[j].0 != k by {
            if j > 0 {
                assert(o[j] == t[j - 1]);
            }
        }
    }
}

pub proof fn lemma_views(s: Seq<Value>)
    ensures
        #[trigger] views(s).len() == s.len(),
        forall|i: int| 0 <= i < s.len() ==> #[trigger] views(s)[i] == s[i]@,
    decreases s.len(),
{
    if s.len() > 0 {
        let t = s.drop_last();
        lemma_views(t);
        assert(views(s) == views(t).push(s.last()@));
        assert forall|i: int| 0 <= i < s.len() implies #[trigger] views(s)[i] == s[i]@ by {
            if i < t.len() {
                assert(views(s)[i] == views(t)[i]);
                assert(t[i] == s[i]);
            }
        }
    }
}

pub proof fn lemma_entry_views(s: Seq<(String, Value)>)
    ensures
        #[trigger] entry_views(s).len() == s.len(),
        forall|i: int|
            0 <= i < s.len() ==> #[trigger] entry_views(s)[i] == (s[i].0@, s[i].1@),
    decreases s.len(),
{
    if s.len() > 0 {
        let t = s.drop_last();
        lemma_entry_views(t);
        assert(entry_views(s) == entry_views(t).push((s.last().0@, s.last().1@)));
        assert forall|i: int| 0 <= i < s.len() implies #[trigger] entry_views(s)[i] == (
        s[i].0@,
        s[i].1@,
        ) by {
            if i < t.len() {
                assert(entry_views(s)[i] == entry_views(t)[i]);
                assert(t[i] == s[i]);
            }
        }
    }
}


impl Value {
    pub fn kind(&self) -> (k: Kind)
        ensures
            k == kind_of(self@),
    {
        match self {
            Value::Null => Kind::Null,
            Value::Bool(_) => Kind::Bool,
            Value::Number(_) => Kind::Number,
            Value::String(_) => Kind::String,
            Value::Array(_) => Kind::Array,
            Value::Object(_) => Kind::Object,
        }
    }

    /// A fresh copy of the whole tree.
    pub fn deep_copy(&self) -> (r: Value)
        ensures
            r@ == self@,
        decreases self,
    {
        match self {
            Value::Null => Value::Null,
            Value::Bool(b) => Value::Bool(*b),
            Value::Number(Number::Int(i)) => Value::Number(Number::Int(*i)),
            Value::Number(Number::Decimal(t)) => Value::Number(Number::Decimal(t.clone())),
            Value::String(s) => Value::String(s.clone()),
            Value::Array(a) => {
                let mut out: Vec<Value> = Vec::new();
                let mut i: usize = 0;
                while i < a.len()
                    invariant
                        *self == Value::Array(*a),
                        i <= a.len(),
                        out@.len() == i,
                        forall|j: int| 0 <= j < i ==> #[trigger] out@[j]@ == a@[j]@,
                    decreases a.len() - i,
                {
                    proof {
                        assert(decreases_to!(*self => self->Array_0));
                        assert(decreases_to!(*a => a[i as int]));
                    }
                    out.push(a[i].deep_copy());
                    i += 1;
                }
                proof {
                    lemma_views(out@);
                    lemma_views(a@);
                }
                assert(views(out@) =~= views(a@));
                Value::Array(out)
            },
            Value::Object(o) => {
                let mut out: Vec<(String, Value)> = Vec::new();
                let mut i: usize = 0;
                while i < o.len()
                    invariant
                        *self == Value::Object(*o),
                        i <= o.len(),
                        out@.len() == i,
                        forall|j: int|
                            #![trigger out@[j]]
                            0 <= j < i ==> out@[j].0@ == o@[j].0@ && out@[j].1@ == o@[j].1@,
                    decreases o.len() - i,
                {
                    proof {
                        assert(decreases_to!(*self => self->Object_0));
                        assert(decreases_to!(*o => o[i as int]));
                        assert(decreases_to!(o@[i as int] => o@[i as int].1));
                    }
                    let kc = o[i].0.clone();
                    let vc = o[i].1.deep_copy();
                    out.push((kc, vc));
                    i += 1;
                }
                proof {
                    lemma_entry_views(out@);
                    lemma_entry_views(o@);
                }
                assert(entry_views(out@) =~= entry_views(o@));
                Value::Object(out)
            },
        }
    }

    /// Structural equality of two documents.
    pub fn equals(&self, other: &Value) -> (r: bool)
        ensures
            r == (self@ == other@),
        decreases self,
    {
        match (self, other) {
            (Value::Null, Value::Null) => true,
            (Value::Bool(a), Value::Bool(b)) => *a == *b,
            (Value::Number(Number::Int(a)), Value::Number(Number::Int(b))) => *a == *b,
            (Value::Number(Number::Decimal(a)), Value::Number(Number::Decimal(b))) => *a == *b,
            (Value::String(a), Value::String(b)) => *a == *b,
            (Value::Array(a), Value::Array(b)) => {
                proof {
                    lemma_views(a@);
                    lemma_views(b@);
                }
                if a.len() != b.len() {
                    assert(views(a@).len() != views(b@).len());
                    return false;
                }
                let mut i: usize = 0;
                while i < a.len()
                    invariant
                        *self == Value::Array(*a),
                        *other == Value::Array(*b),
                        views(a@).len() == a.len(),
                        views(b@).len() == b.len(),
                        forall|j: int| 0 <= j < a.len() ==> #[trigger] views(a@)[j] == a@[j]@,
                        forall|j: int| 0 <= j < b.len() ==> #[trigger] views(b@)[j] == b@[j]@,
                        i <= a.len(),
                        a.len() == b.len(),
                        forall|j: int| 0 <= j < i ==> #[trigger] a@[j]@ == b@[j]@,
                    decreases a.len() - i,
                {
                    proof {
                        assert(decreases_to!(*self => self->Array_0));
                        assert(decreases_to!(*a => a[i as int]));
                    }
                    if !a[i].equals(&b[i]) {
                        assert(views(a@)[i as int] != views(b@)[i as int]);
                        return false;
                    }
                    i += 1;
                }
                assert(views(a@) =~= views(b@));
                true
            },
            (Value::Object(a), Value::Object(b)) => {
                proof {
                    lemma_entry_views(a@);
                    lemma_entry_views(b@);
                }
                if a.len() != b.len() {
                    assert(entry_views(a@).len() != entry_views(b@).len());
                    return false;
                }
                let mut i: usize = 0;
                while i < a.len()
                    invariant
                        *self == Value::Object(*a),
                        *other == Value::Object(*b),
                        entry_views(a@).len() == a.len(),
                        entry_views(b@).len() == b.len(),
                        forall|j: int|
                            0 <= j < a.len() ==> #[trigger] entry_views(a@)[j] == (
                                a@[j].0@,
                                a@[j].1@,
                            ),
                        forall|j: int|
                            0 <= j < b.len() ==> #[trigger] entry_views(b@)[j] == (
                                b@[j].0@,
                                b@[j].1@,
                            ),
                        i <= a.len(),
                        a.len() == b.len(),
                        forall|j: int|
                            #![trigger a@[j]]
                            0 <= j < i ==> a@[j].0@ == b@[j].0@ && a@[j].1@ == b@[j].1@,
                    decreases a.len() - i,
                {
                    proof {
                        assert(decreases_to!(*self => self->Object_0));
                        assert(decreases_to!(*a => a[i as int]));
                        assert(decreases_to!(a@[i as int] => a@[i as int].1));
                    }
                    if a[i].0 != b[i].0 || !a[i].1.equals(&b[i].1) {
                        assert(entry_views(a@)[i as int] != entry_views(b@)[i as int]);
                        return false;
                    }
                    i += 1;
                }
                assert(entry_views(a@) =~= entry_views(b@));
                true
            },
            _ => false,
        }
    }
}

/// Position of the first entry of `o` whose key is `k`, or `o.len()` if there is none.
pub fn find_key(o: &Vec<(String, Value)>, k: &String) -> (r: usize)
    ensures
        r == key_pos(entry_views(o@), k@),
{
    let ghost e = entry_views(o@);
    proof {
        lemma_entry_views(o@);
    }
    assert(e.len() == o.len());
    assert(e.subrange(0, e.len() as int) =~= e);
    let mut i: usize = 0;
    while i < o.len()
        invariant
            i <= o.len(),
            e == entry_views(o@),
            e.len() == o.len(),
            forall|j: int| 0 <= j < o.len() ==> #[trigger] e[j] == (o@[j].0@, o@[j].1@),
            key_pos(e, k@) == i + key_pos(e.subrange(i as int, e.len() as int), k@),
        decreases o.len() - i,
    {
        let ghost rest = e.subrange(i as int, e.len() as int);
        assert(rest.drop_first() =~= e.subrange(i + 1, e.len() as int));
        assert(rest[0] == e[i as int]);
        if o[i].0 == *k {
            return i;
        }
        i += 1;
    }
    i
}

} // verus!

verus! {

pub proof fn lemma_views_concat(x: Seq<Value>, y: Seq<Value>)
    ensures
        views(x + y) == views(x) + views(y),
{
    lemma_views(x);
    lemma_views(y);
    lemma_views(x + y);
    assert(views(x + y) =~= views(x) + views(y));
}

/// The characters of `s`, one by one.
pub fn chars_of(s: &str) -> (r: Vec<char>)
    ensures
        r@ == s@,
{
    let n = s.unicode_len();
    let mut out: Vec<char> = Vec::new();
    let mut i: usize = 0;
    while i < n
        invariant
            i <= n,
            n == s@.len(),
            out@ == s@.subrange(0, i as int),
        decreases n - i,
    {
        out.push(s.get_char(i));
        i += 1;
        assert(out@ =~= s@.subrange(0, i as int));
    }
    assert(out@ =~= s@);
    out
}

} // verus!
