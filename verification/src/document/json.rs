//! A JSON value model for the data that skins are evaluated against.
use vstd::prelude::*;
use crate::text::{same_chars, to_chars};

verus! {

/// A JSON number, held as what the evaluator reads of it: its printed text
/// and whether it counts as true (it is not zero).
#[derive(Debug)]
pub struct JsonNumber {
    pub text: String,
    pub nonzero: bool,
}

/// A JSON value. Object members are kept in a list of `(key, value)` pairs.
#[derive(Debug)]
pub enum JsonValue {
    Null,
    Bool(bool),
    Number(JsonNumber),
    String(String),
    Array(Vec<JsonValue>),
    Object(Vec<(String, JsonValue)>),
}

/// Mathematical model of a [`JsonValue`].
pub enum JsonModel {
    Null,
    Bool(bool),
    Number { text: Seq<char>, nonzero: bool },
    Str(Seq<char>),
    Array(Seq<JsonModel>),
    Object(Seq<(Seq<char>, JsonModel)>),
}

/// The model of one value.
pub open spec fn json_model(v: JsonValue) -> JsonModel
    decreases v, 0nat,
{
    match v {
        JsonValue::Null => JsonModel::Null,
        JsonValue::Bool(b) => JsonModel::Bool(b),
        JsonValue::Number(n) => JsonModel::Number { text: n.text@, nonzero: n.nonzero },
        JsonValue::String(s) => JsonModel::Str(s@),
        JsonValue::Array(a) => JsonModel::Array(values_model(a@)),
        JsonValue::Object(o) => JsonModel::Object(members_model(o@)),
    }
}

/// The model of a sequence of values.
pub open spec fn values_model(s: Seq<JsonValue>) -> Seq<JsonModel>
    decreases s, s.len(),
{
    if s.len() == 0 {
        Seq::empty()
    } else {
        values_model(s.drop_last()).push(json_model(s.last()))
    }
}

/// The model of a sequence of `(key, value)` pairs.
pub open spec fn members_model(s: Seq<(String, JsonValue)>) -> Seq<(Seq<char>, JsonModel)>
    decreases s, s.len(),
{
    if s.len() == 0 {
        Seq::empty()
    } else {
        members_model(s.drop_last()).push((s.last().0@, json_model(s.last().1)))
    }
}

impl View for JsonValue {
    type V = JsonModel;

    open spec fn view(&self) -> JsonModel {
        json_model(*self)
    }
}

proof fn lemma_values_model_len(s: Seq<JsonValue>)
    ensures
        values_model(s).len() == s.len(),
    decreases s.len(),
{
    if s.len() > 0 {
        lemma_values_model_len(s.drop_last());
    }
}

proof fn lemma_values_model_index(s: Seq<JsonValue>, i: int)
    requires
        0 <= i < s.len(),
    ensures
        values_model(s).len() == s.len(),
        values_model(s)[i] == json_model(s[i]),
    decreases s.len(),
{
    lemma_values_model_len(s);
    if i < s.len() - 1 {
        lemma_values_model_index(s.drop_last(), i);
    }
}

proof fn lemma_members_model_len(s: Seq<(String, JsonValue)>)
    ensures
        members_model(s).len() == s.len(),
    decreases s.len(),
{
    if s.len() > 0 {
        lemma_members_model_len(s.drop_last());
    }
}

/// The elements of a value sequence, modelled one by one.
pub proof fn lemma_values_model(s: Seq<JsonValue>)
    ensures
        values_model(s).len() == s.len(),
        forall|i: int| 0 <= i < s.len() ==> #[trigger] values_model(s)[i] == json_model(s[i]),
{
    lemma_values_model_len(s);
    assert forall|i: int| 0 <= i < s.len() implies #[trigger] values_model(s)[i] == json_model(
        s[i],
    ) by {
        lemma_values_model_index(s, i);
    }
}

proof fn lemma_members_model_index(s: Seq<(String, JsonValue)>, i: int)
    requires
        0 <= i < s.len(),
    ensures
        members_model(s).len() == s.len(),
        members_model(s)[i] == (s[i].0@, json_model(s[i].1)),
    decreases s.len(),
{
    lemma_members_model_len(s);
    if i < s.len() - 1 {
        lemma_members_model_index(s.drop_last(), i);
    }
}

/// The members of a pair sequence, modelled one by one.
pub proof fn lemma_members_model(s: Seq<(String, JsonValue)>)
    ensures
        members_model(s).len() == s.len(),
        forall|i: int|
            0 <= i < s.len() ==> #[trigger] members_model(s)[i] == (s[i].0@, json_model(s[i].1)),
{
    lemma_members_model_len(s);
    assert forall|i: int| 0 <= i < s.len() implies #[trigger] members_model(s)[i] == (
        s[i].0@,
        json_model(s[i].1),
    ) by {
        lemma_members_model_index(s, i);
    }
}

/// The value of the first pair in `pairs` whose key is `key`.
pub open spec fn lookup(pairs: Seq<(Seq<char>, JsonModel)>, key: Seq<char>) -> Option<JsonModel>
    decreases pairs.len(),
{
    if pairs.len() == 0 {
        None
    } else if pairs[0].0 == key {
        Some(pairs[0].1)
    } else {
        lookup(pairs.drop_first(), key)
    }
}

/// `v[key]` for an object, nothing for any other value (as `Value::get` with a `&str`).
pub open spec fn get_member(v: JsonModel, key: Seq<char>) -> Option<JsonModel> {
    match v {
        JsonModel::Object(pairs) => lookup(pairs, key),
        _ => None,
    }
}

/// The value of the first pair in `pairs` whose key is `key`.
pub fn lookup_pairs<'a>(pairs: &'a [(String, JsonValue)], key: &[char]) -> (r: Option<&'a JsonValue>)
    ensures
        match r {
            Some(v) => lookup(members_model(pairs@), key@) == Some(v@),
            None => lookup(members_model(pairs@), key@) is None,
        },
{
    let ghost m = members_model(pairs@);
    proof {
        lemma_members_model(pairs@);
        assert(m.skip(0) == m);
    }
    let mut i: usize = 0;
    while i < pairs.len()
        invariant
            m == members_model(pairs@),
            m.len() == pairs@.len(),
            forall|k: int|
                0 <= k < pairs@.len() ==> #[trigger] m[k] == (pairs@[k].0@, json_model(pairs@[k].1)),
            i <= pairs@.len(),
            lookup(m, key@) == lookup(m.skip(i as int), key@),
        decreases pairs@.len() - i,
    {
        let k = to_chars(pairs[i].0.as_str());
        assert(m[i as int] == (pairs@[i as int].0@, json_model(pairs@[i as int].1)));
        assert(m.skip(i as int)[0] == m[i as int]);
        if same_chars(k.as_slice(), key) {
            return Some(&pairs[i].1);
        }
        assert(m.skip(i as int).drop_first() == m.skip(i + 1));
        i += 1;
    }
    None
}

/// `v[key]`: the member `key` of an object value.
pub fn get_member_exec<'a>(v: &'a JsonValue, key: &[char]) -> (r: Option<&'a JsonValue>)
    ensures
        match r {
            Some(x) => get_member(v@, key@) == Some(x@),
            None => get_member(v@, key@) is None,
        },
{
    match v {
        JsonValue::Object(pairs) => lookup_pairs(pairs.as_slice(), key),
        _ => None,
    }
}

/// A copy of a string.
pub fn copy_string(s: &String) -> (r: String)
    ensures
        r@ == s@,
{
    s.clone()
}

/// A deep copy of a value.
#[verifier::loop_isolation(false)]
pub fn clone_json(v: &JsonValue) -> (r: JsonValue)
    ensures
        r@ == v@,
    decreases v,
{
    match v {
        JsonValue::Null => JsonValue::Null,
        JsonValue::Bool(b) => JsonValue::Bool(*b),
        JsonValue::Number(n) => JsonValue::Number(
            JsonNumber { text: copy_string(&n.text), nonzero: n.nonzero },
        ),
        JsonValue::String(s) => JsonValue::String(copy_string(s)),
        JsonValue::Array(a) => {
            let mut out: Vec<JsonValue> = Vec::new();
            let mut i: usize = 0;
            while i < a.len()
                invariant
                    i <= a@.len(),
                    values_model(out@) == values_model(a@.take(i as int)),
                decreases a@.len() - i,
            {
                proof {
                    assert(decreases_to!(*v => a@[i as int]));
                }
                let c = clone_json(&a[i]);
                let ghost before = out@;
                out.push(c);
                proof {
                    assert(out@.drop_last() == before);
                    assert(a@.take(i + 1).drop_last() == a@.take(i as int));
                }
                i += 1;
            }
            assert(a@.take(a@.len() as int) == a@);
            JsonValue::Array(out)
        },
        JsonValue::Object(o) => {
            let mut out: Vec<(String, JsonValue)> = Vec::new();
            let mut i: usize = 0;
            while i < o.len()
                invariant
                    i <= o@.len(),
                    members_model(out@) == members_model(o@.take(i as int)),
                decreases o@.len() - i,
            {
                let k = copy_string(&o[i].0);
                proof {
                    assert(decreases_to!(*v => o@[i as int].1));
                }
                let c = clone_json(&o[i].1);
                let ghost before = out@;
                out.push((k, c));
                proof {
                    assert(out@.drop_last() == before);
                    assert(o@.take(i + 1).drop_last() == o@.take(i as int));
                }
                i += 1;
            }
            assert(o@.take(o@.len() as int) == o@);
            JsonValue::Object(out)
        },
    }
}

/// An object member is the value of the first pair with that key, and
/// nothing exactly when no pair has it.
pub proof fn lemma_lookup_first(pairs: Seq<(Seq<char>, JsonModel)>, key: Seq<char>)
    ensures
        lookup(pairs, key) is None <==> forall|j: int| 0 <= j < pairs.len() ==> pairs[j].0 != key,
        lookup(pairs, key) matches Some(v) ==> exists|i: int|
            {
                &&& 0 <= i < pairs.len()
                &&& pairs[i].0 == key
                &&& pairs[i].1 == v
                &&& forall|j: int| 0 <= j < i ==> pairs[j].0 != key
            },
    decreases pairs.len(),
{
    if pairs.len() > 0 {
        let rest = pairs.drop_first();
        lemma_lookup_first(rest, key);
        assert forall|j: int| 1 <= j < pairs.len() implies pairs[j] == rest[j - 1] by {}
        if pairs[0].0 != key {
            if let Some(v) = lookup(rest, key) {
                let i = choose|i: int|
                    {
                        &&& 0 <= i < rest.len()
                        &&& rest[i].0 == key
                        &&& rest[i].1 == v
                        &&& forall|j: int| 0 <= j < i ==> rest[j].0 != key
                    };
                assert(pairs[i + 1] == rest[i]);
                assert forall|j: int| 0 <= j < i + 1 implies pairs[j].0 != key by {
                    if j > 0 {
                        assert(pairs[j] == rest[j - 1]);
                    }
                }
            }
        } else {
            assert(pairs[0].0 == key);
        }
    }
}

} // verus!
