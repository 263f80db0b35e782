//! A reusable object deserializer: one guard parses many short-lived texts in
//! turn, with at most one live borrow of the result at a time. While a handle
//! is out, the guard refuses to parse again; handing the handle back clears
//! its storage and returns the guard to idle.

use vstd::prelude::*;

use crate::de::parse_json;
use crate::error::JsonError;
use crate::grammar::parse_text;
use crate::model::entries_lookup;
use crate::model::ValueModel;
use crate::object_vec::ObjectAsVec;
use crate::value::Value;

verus! {

broadcast use {
    vstd::std_specs::vec::group_vec_axioms,
    vstd::seq::group_seq_axioms,
    crate::value::group_value_model,
    crate::object_vec::group_object_model,
};

/// A deserializer for repeated parses of JSON objects. The guard is either
/// idle or borrowed: `deserialize` succeeds only while idle and moves the
/// guard to borrowed; `release` takes the handle back, discards its entries,
/// and returns the guard to idle. A compile-time borrow cannot tie the handle
/// to the guard here, so the exclusive-access discipline is enforced with
/// this explicit state, failing fast on misuse instead of returning stale
/// views.
#[derive(Debug, PartialEq)]
pub struct ReusableMap {
    borrowed: bool,
}

impl ReusableMap {
    /// Whether a handle from this guard is still outstanding.
    pub closed spec fn spec_borrowed(&self) -> bool {
        self.borrowed
    }

    /// A fresh, idle guard.
    pub fn new() -> (r: Self)
        ensures
            !r.spec_borrowed(),
    {
        ReusableMap { borrowed: false }
    }

    /// Parses a JSON object and hands out a borrow of the result. On an idle
    /// guard the call succeeds exactly when the text is valid JSON whose
    /// top-level value is an object; it fails with `Misuse` while a handle is
    /// outstanding, with `Parse` on malformed text, and with `TypeMismatch`
    /// when the text is valid JSON but not an object. Only a success moves
    /// the guard to borrowed.
    pub fn deserialize<'j>(&mut self, json: &'j str) -> (r: Result<BorrowedMap<'j>, JsonError>)
        ensures
            old(self).spec_borrowed() ==> (r == Err::<BorrowedMap<'j>, JsonError>(
                JsonError::Misuse,
            ) && final(self).spec_borrowed()),
            !old(self).spec_borrowed() ==> match r {
                Ok(bm) => {
                    &&& parse_text(json@) == Some(ValueModel::Object(bm@))
                    &&& bm.spec_borrow_decision(json@)
                    &&& final(self).spec_borrowed()
                },
                Err(e) => {
                    &&& !final(self).spec_borrowed()
                    &&& (e == JsonError::Parse || e == JsonError::TypeMismatch)
                    &&& (e == JsonError::Parse <==> parse_text(json@) is None)
                    &&& (e == JsonError::TypeMismatch <==> (parse_text(json@) matches Some(m)
                        && !(m is Object)))
                },
            },
    {
        if self.borrowed {
            return Err(JsonError::Misuse);
        }
        match parse_json(json) {
            Ok(v) => {
                match v {
                    Value::Object(map) => {
                        self.borrowed = true;
                        let bm = BorrowedMap { map };
                        proof {
                            assert(bm.spec_borrow_decision(json@));
                        }
                        Ok(bm)
                    },
                    _ => Err(JsonError::TypeMismatch),
                }
            },
            Err(e) => Err(e),
        }
    }

    /// Takes a handle back: its entries are discarded and the guard is idle
    /// again, so no stale view survives the handle that produced it.
    #[allow(unused_variables)]
    pub fn release(&mut self, handle: BorrowedMap<'_>)
        ensures
            !final(self).spec_borrowed(),
    {
        self.borrowed = false;
    }
}

impl Default for ReusableMap {
    /// The default guard is idle.
    fn default() -> (r: Self)
        ensures
            !r.spec_borrowed(),
    {
        ReusableMap::new()
    }
}

/// A borrow of one deserialized object: read access to its entries, valid
/// until it is handed back with [`ReusableMap::release`].
#[derive(Debug, PartialEq)]
pub struct BorrowedMap<'j> {
    map: ObjectAsVec<'j>,
}

impl<'j> View for BorrowedMap<'j> {
    type V = Seq<(Seq<char>, ValueModel)>;

    closed spec fn view(&self) -> Seq<(Seq<char>, ValueModel)> {
        self.map@
    }
}

impl<'j> BorrowedMap<'j> {
    /// The borrow-versus-copy rule against the text this handle was
    /// deserialized from: every key and string decodes a literal of it,
    /// borrowing exactly where the literal is escape-free.
    pub closed spec fn spec_borrow_decision(&self, src: Seq<char>) -> bool {
        crate::object_vec::obj_borrow_decision(self.map, src)
    }

    /// The number of entries.
    pub fn len(&self) -> (r: usize)
        ensures
            r == self@.len(),
    {
        self.map.len()
    }

    /// Whether the object has no entries.
    pub fn is_empty(&self) -> (r: bool)
        ensures
            r == (self@.len() == 0),
    {
        self.map.is_empty()
    }

    /// The value of the first entry with this key, if any.
    pub fn get(&self, key: &str) -> (r: Option<&Value<'j>>)
        ensures
            match r {
                Some(v) => entries_lookup(self@, key@) == Some(v@),
                None => entries_lookup(self@, key@) is None,
            },
    {
        self.map.get(key)
    }

    /// Whether some entry has this key.
    pub fn contains_key(&self, key: &str) -> (r: bool)
        ensures
            r == (entries_lookup(self@, key@) is Some),
    {
        self.map.contains_key(key)
    }

    /// Read access to the whole object.
    pub fn as_object(&self) -> (r: &ObjectAsVec<'j>)
        ensures
            r@ == self@,
    {
        &self.map
    }
}

} // verus!
