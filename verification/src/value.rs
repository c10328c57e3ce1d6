use vstd::prelude::*;

verus! {

/// The mathematical model of a number.
pub enum JsonNumber {
    /// An exact integer.
    Int(int),
    /// A finite floating-point number, given by its decimal text.
    Float(Seq<char>),
    /// An infinity or a NaN.
    NonFinite,
}

/// The mathematical model of a value: a finite tree.
pub enum Json {
    Null,
    Bool(bool),
    Number(JsonNumber),
    String(Seq<char>),
    Array(Seq<Json>),
    /// The members in order, each a key with its value.
    Object(Seq<(Seq<char>, Json)>),
}

/// A number as the codec holds it.
///
/// Integers are held exactly. A floating-point number is held as its decimal
/// text, the shortest that reads back as the same number; the codec writes
/// that text out as it is.
#[derive(Debug, PartialEq, Eq)]
pub enum Number {
    /// An integer from 0 to `u64::MAX`.
    PosInt(u64),
    /// An integer below zero.
    NegInt(i64),
    /// A finite floating-point number, by its decimal text.
    Float(String),
    /// An infinity or a NaN. It has no text of its own and is written as `null`.
    NonFinite,
}

/// A value: null, a boolean, a number, a string, an array of values, or an
/// object, which is a list of members (key and value) with no key twice.
#[derive(Debug, PartialEq)]
pub enum Value {
    Null,
    Bool(bool),
    Number(Number),
    String(String),
    Array(Vec<Value>),
    Object(Vec<(String, Value)>),
}

impl Value {
    /// The validity of a value: no object in it has a key twice.
    pub open spec fn wf(&self) -> bool {
        self@.wf()
    }
}

impl View for Number {
    type V = JsonNumber;

    open spec fn view(&self) -> JsonNumber {
        match self {
            Number::PosInt(u) => JsonNumber::Int(*u as int),
            Number::NegInt(i) => JsonNumber::Int(*i as int),
            Number::Float(t) => JsonNumber::Float(t@),
            Number::NonFinite => JsonNumber::NonFinite,
        }
    }
}

impl View for Value {
    type V = Json;

    open spec fn view(&self) -> Json
        decreases self,
    {
        match self {
            Value::Null => Json::Null,
            Value::Bool(b) => Json::Bool(*b),
            Value::Number(n) => Json::Number(n@),
            Value::String(s) => Json::String(s@),
            Value::Array(a) => Json::Array(elements_view(a)),
            Value::Object(o) => Json::Object(members_view(o)),
        }
    }
}

/// The models of the elements of an array, in order.
pub open spec fn elements_view(a: &Vec<Value>) -> Seq<Json>
    decreases a,
{
    Seq::new(a.len() as nat, |i: int| if 0 <= i < a.len() { a[i]@ } else { Json::Null })
}

/// The models of the members of an object, in order.
pub open spec fn members_view(o: &Vec<(String, Value)>) -> Seq<(Seq<char>, Json)>
    decreases o,
{
    Seq::new(
        o.len() as nat,
        |i: int| if 0 <= i < o.len() { (o[i].0@, o[i].1@) } else { (Seq::empty(), Json::Null) },
    )
}

/// The keys of a list of members, in order.
pub open spec fn keys(o: Seq<(Seq<char>, Json)>) -> Seq<Seq<char>> {
    Seq::new(o.len(), |i: int| o[i].0)
}

/// The index of the first member at or after `from` that has the key `key`.
pub open spec fn key_index(o: Seq<(Seq<char>, Json)>, key: Seq<char>, from: int) -> Option<int>
    decreases o.len() - from,
{
    if from < 0 || from >= o.len() {
        None
    } else if o[from].0 == key {
        Some(from)
    } else {
        key_index(o, key, from + 1)
    }
}

/// The members `o` after `key` was given the value `v`: where `o` has the
/// key, its member takes the new value and keeps its place; where it has not,
/// the new member comes last.
pub open spec fn inserted(o: Seq<(Seq<char>, Json)>, key: Seq<char>, v: Json) -> Seq<
    (Seq<char>, Json),
> {
    match key_index(o, key, 0) {
        Some(i) => o.update(i, (key, v)),
        None => o.push((key, v)),
    }
}

/// What [`key_index`] finds is the first member with the key.
pub proof fn lemma_key_index(o: Seq<(Seq<char>, Json)>, key: Seq<char>, from: int)
    requires
        0 <= from,
    ensures
        match key_index(o, key, from) {
            Some(i) => from <= i < o.len() && o[i].0 == key && forall|j: int|
                from <= j < i ==> (#[trigger] o[j]).0 != key,
            None => forall|j: int| from <= j < o.len() ==> (#[trigger] o[j]).0 != key,
        },
    decreases o.len() - from,
{
    if from < o.len() && o[from].0 != key {
        lemma_key_index(o, key, from + 1);
    }
}

/// Giving a key a value keeps the keys apart, and keeps valid values valid.
pub proof fn lemma_inserted_wf(o: Seq<(Seq<char>, Json)>, key: Seq<char>, v: Json)
    requires
        Json::Object(o).wf(),
        v.wf(),
    ensures
        Json::Object(inserted(o, key, v)).wf(),
{
    lemma_key_index(o, key, 0);
    let r = inserted(o, key, v);
    assert(Json::Object(o)->Object_0 == o);
    assert(Json::Object(r)->Object_0 == r);
    assert forall|i: int, j: int| 0 <= i < j < r.len() implies keys(r)[i] != keys(r)[j] by {
        match key_index(o, key, 0) {
            Some(k) => {
                assert(keys(o)[i] != keys(o)[j]);
                assert(keys(o)[k] == key);
            },
            None => {
                if j < o.len() {
                    assert(keys(o)[i] != keys(o)[j]);
                } else {
                    assert(o[i].0 != key);
                }
            },
        }
    }
    assert forall|i: int| 0 <= i < r.len() implies (#[trigger] r[i]).1.wf() by {
        if i < o.len() {
            assert(o[i].1.wf());
        }
    }
}

/// Giving a key a finite value keeps the numbers finite.
pub proof fn lemma_inserted_finite(o: Seq<(Seq<char>, Json)>, key: Seq<char>, v: Json)
    requires
        Json::Object(o).all_finite(),
        v.all_finite(),
    ensures
        Json::Object(inserted(o, key, v)).all_finite(),
{
    lemma_key_index(o, key, 0);
    let r = inserted(o, key, v);
    assert(Json::Object(o)->Object_0 == o);
    assert(Json::Object(r)->Object_0 == r);
    assert forall|i: int| 0 <= i < r.len() implies (#[trigger] r[i]).1.all_finite() by {
        if i < o.len() {
            assert(o[i].1.all_finite());
        }
    }
}

impl JsonNumber {
    /// An integer is one that a [`Number`] can hold.
    pub open spec fn wf(self) -> bool {
        match self {
            JsonNumber::Int(i) => i64::MIN <= i <= u64::MAX,
            _ => true,
        }
    }
}

impl Json {
    /// Whether every number in the value is finite.
    pub open spec fn all_finite(self) -> bool
        decreases self,
    {
        match self {
            Json::Number(n) => !(n is NonFinite),
            Json::Array(a) => forall|i: int| 0 <= i < a.len() ==> (#[trigger] a[i]).all_finite(),
            Json::Object(o) => forall|i: int|
                0 <= i < o.len() ==> (#[trigger] o[i]).1.all_finite(),
            _ => true,
        }
    }

    /// The validity of a value: every integer in it fits a [`Number`], and no
    /// object in it has a key twice.
    pub open spec fn wf(self) -> bool
        decreases self,
    {
        match self {
            Json::Number(n) => n.wf(),
            Json::Array(a) => forall|i: int| 0 <= i < a.len() ==> (#[trigger] a[i]).wf(),
            Json::Object(o) => keys(o).no_duplicates() && forall|i: int|
                0 <= i < o.len() ==> (#[trigger] o[i]).1.wf(),
            _ => true,
        }
    }
}

/// Gives `key` the value `value` in `members`, as [`inserted`] says.
pub fn insert_member(members: &mut Vec<(String, Value)>, key: String, value: Value)
    ensures
        members_view(final(members)) == inserted(members_view(old(members)), key@, value@),
{
    let ghost o = members_view(members);
    let mut i: usize = 0;
    while i < members.len()
        invariant
            i <= members.len(),
            o == members_view(members),
            *members == *old(members),
            key_index(o, key@, 0) == key_index(o, key@, i as int),
        decreases members.len() - i,
    {
        if members[i].0 == key {
            members.set(i, (key, value));
            assert(members_view(members) =~= inserted(o, key@, value@));
            return ;
        }
        i = i + 1;
    }
    members.push((key, value));
    assert(members_view(members) =~= inserted(o, key@, value@));
}

} // verus!
