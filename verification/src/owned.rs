//! A parsed document bundled with the text it came from: one self-contained,
//! freely movable unit whose tree can never be separated from its buffer.

use vstd::prelude::*;

use vstd::utf8::valid_utf8;

use crate::de::parse_json;
use crate::error::JsonError;
use crate::grammar::parse_text;
use crate::index::Index;
use crate::model::ValueModel;
use crate::object_vec::ObjectAsVec;
use crate::value::CowStr;
use crate::value::Value;

verus! {

broadcast use {
    vstd::std_specs::vec::group_vec_axioms,
    vstd::seq::group_seq_axioms,
    crate::value::group_value_model,
    crate::object_vec::group_object_model,
};

/// Relies on String::from_utf8: bytes decode to the string they spell exactly
/// when they are valid UTF-8.
#[verifier::external_body]
fn utf8_to_string(bytes: &[u8]) -> (r: Option<String>)
    ensures
        match r {
            Some(s) => valid_utf8(bytes@) && vstd::utf8::encode_utf8(s@) == bytes@,
            None => !valid_utf8(bytes@),
        },
{
    String::from_utf8(bytes.to_vec()).ok()
}

/// A deep copy of a value in which every string owns its characters, so the
/// copy is tied to no outside buffer.
#[verifier::loop_isolation(false)]
fn own_value(v: &Value<'_>) -> (r: Value<'static>)
    ensures
        r@ == v@,
    decreases v,
{
    match v {
        Value::Null => Value::Null,
        Value::Bool(b) => Value::Bool(*b),
        Value::Number(n) => Value::Number(*n),
        Value::Str(s) => Value::Str(CowStr::Owned(s.as_str().to_owned())),
        Value::Array(a) => {
            let mut out: Vec<Value<'static>> = Vec::new();
            let mut i: usize = 0;
            while i < a.len()
                invariant
                    0 <= i <= a@.len(),
                    out@.len() == i,
                    forall|j: int| 0 <= j < i ==> #[trigger] out@[j]@ == a@[j]@,
                decreases a@.len() - i,
            {
                proof {
                    assert(*v == Value::Array(*a));
                    assert(decreases_to!(*v => *a));
                    assert(decreases_to!(*a => a@));
                    assert(decreases_to!(a@ => a@[i as int]));
                }
                out.push(own_value(&a[i]));
                i += 1;
            }
            proof {
                assert(crate::value::models_of(out@) =~= crate::value::models_of(a@));
            }
            Value::Array(out)
        },
        Value::Object(o) => {
            let mut out: Vec<(CowStr<'static>, Value<'static>)> = Vec::new();
            let mut i: usize = 0;
            while i < o.0.len()
                invariant
                    0 <= i <= o.0@.len(),
                    out@.len() == i,
                    forall|j: int|
                        0 <= j < i ==> #[trigger] out@[j].0@ == o.0@[j].0@ && out@[j].1@
                            == o.0@[j].1@,
                decreases o.0@.len() - i,
            {
                proof {
                    assert(*v == Value::Object(*o));
                    assert(decreases_to!(*v => *o));
                    assert(decreases_to!(*o => o.0));
                    assert(decreases_to!(o.0 => o.0@));
                    assert(decreases_to!(o.0@ => o.0@[i as int]));
                }
                let pair = &o.0[i];
                let key = CowStr::Owned(pair.0.as_str().to_owned());
                let nv = own_value(&pair.1);
                let entry = (key, nv);
                let ghost em = (entry.0@, entry.1@);
                proof {
                    assert(em.0 == o.0@[i as int].0@);
                    assert(em.1 == o.0@[i as int].1@);
                }
                out.push(entry);
                proof {
                    assert(out@[i as int].0@ == em.0 && out@[i as int].1@ == em.1);
                }
                i += 1;
            }
            proof {
                assert(crate::object_vec::entry_models(out@) =~= crate::object_vec::entry_models(
                    o.0@,
                ));
            }
            Value::Object(ObjectAsVec(out))
        },
    }
}

/// A JSON text buffer and the value parsed from it, owned together: the two
/// live and die as one unit, the tree is read only through this struct, and
/// moving the struct moves both. Rather than letting the tree point into the
/// buffer, this variant stores every string of the tree in owned form, which
/// sidesteps self-reference while keeping the buffer available.
#[derive(Debug, PartialEq)]
pub struct OwnedValue {
    data: String,
    value: Value<'static>,
}

impl View for OwnedValue {
    type V = ValueModel;

    closed spec fn view(&self) -> ValueModel {
        self.value@
    }
}

impl Clone for OwnedValue {
    /// A deep copy denoting the same model.
    fn clone(&self) -> (r: Self)
        ensures
            r@ == self@,
    {
        OwnedValue { data: self.data.clone(), value: self.value.clone() }
    }
}

impl OwnedValue {
    /// Validates the bytes as UTF-8, then parses them into a value.
    pub fn from_slice(data: &[u8]) -> (r: Result<Self, JsonError>)
        ensures
            match r {
                Ok(ov) => {
                    &&& valid_utf8(data@)
                    &&& exists|t: Seq<char>|
                        vstd::utf8::encode_utf8(t) == data@ && parse_text(t) == Some(ov@)
                    &&& ov@.wf()
                },
                Err(e) => {
                    ||| (e == JsonError::Encoding && !valid_utf8(data@))
                    ||| (e == JsonError::Parse && exists|t: Seq<char>|
                        vstd::utf8::encode_utf8(t) == data@ && parse_text(t) is None)
                },
            },
    {
        match utf8_to_string(data) {
            Some(text) => {
                let ghost t0 = text@;
                match Self::from_string(text) {
                    Ok(ov) => {
                        proof {
                            assert(exists|t: Seq<char>|
                                vstd::utf8::encode_utf8(t) == data@ && parse_text(t) == Some(
                                    ov@,
                                )) by {
                                assert(vstd::utf8::encode_utf8(t0) == data@ && parse_text(t0)
                                    == Some(ov@));
                            }
                        }
                        Ok(ov)
                    },
                    Err(e) => {
                        proof {
                            assert(exists|t: Seq<char>|
                                vstd::utf8::encode_utf8(t) == data@ && parse_text(t) is None) by {
                                assert(vstd::utf8::encode_utf8(t0) == data@ && parse_text(t0)
                                    is None);
                            }
                        }
                        Err(e)
                    },
                }
            },
            None => Err(JsonError::Encoding),
        }
    }

    /// Parses a borrowed JSON text into a self-contained value; the text is
    /// copied first.
    pub fn from_str(json_str: &str) -> (r: Result<Self, JsonError>)
        ensures
            match r {
                Ok(ov) => parse_text(json_str@) == Some(ov@) && ov@.wf(),
                Err(e) => e == JsonError::Parse && parse_text(json_str@) is None,
            },
    {
        Self::from_string(json_str.to_owned())
    }

    /// Takes ownership of a JSON text and parses it into a value kept
    /// alongside it.
    pub fn from_string(json_str: String) -> (r: Result<Self, JsonError>)
        ensures
            match r {
                Ok(ov) => parse_text(json_str@) == Some(ov@) && ov@.wf(),
                Err(e) => e == JsonError::Parse && parse_text(json_str@) is None,
            },
    {
        let parsed = parse_json(json_str.as_str());
        match parsed {
            Ok(v) => {
                let value = own_value(&v);
                Ok(OwnedValue { data: json_str, value })
            },
            Err(e) => Err(e),
        }
    }

    /// Takes ownership of a JSON text and parses it into a value kept
    /// alongside it.
    pub fn parse_from(json_str: String) -> (r: Result<Self, JsonError>)
        ensures
            match r {
                Ok(ov) => parse_text(json_str@) == Some(ov@) && ov@.wf(),
                Err(e) => e == JsonError::Parse && parse_text(json_str@) is None,
            },
    {
        Self::from_string(json_str)
    }

    /// The parsed value.
    pub fn get_value(&self) -> (r: &Value<'static>)
        ensures
            r@ == self@,
    {
        &self.value
    }

    /// Indexes into the parsed value; the `Null` sentinel stands in for any
    /// miss, as on [`Value::get`].
    pub fn get<I: Index<'static>>(&self, index: I) -> (r: Value<'static>)
        ensures
            r@ == (match index.spec_lookup(self@) {
                Some(m) => m,
                None => ValueModel::Null,
            }),
    {
        self.value.get(index)
    }
}

} // verus!
