//! Path-style navigation: one polymorphic `get` that accepts a string key
//! against objects and a position against arrays, and returns the `Null`
//! sentinel instead of failing on any miss, so lookups chain freely.

use vstd::prelude::*;

use crate::model::entries_lookup;
use crate::model::ValueModel;
use crate::value::Value;

verus! {

broadcast use {
    vstd::std_specs::vec::group_vec_axioms,
    vstd::seq::group_seq_axioms,
    crate::value::group_value_model,
    crate::object_vec::group_object_model,
};

/// A type that can index into a [`Value`]: a string key (against objects) or
/// a position (against arrays).
pub trait Index<'v>: Sized {
    /// What the lookup finds: the value at this index, or nothing when the
    /// receiver has the wrong shape, the key is absent, or the position is
    /// past the end.
    spec fn spec_lookup(self, m: ValueModel) -> Option<ValueModel>;

    /// The value at this index, or nothing on any miss.
    fn index_into<'x>(self, v: &'x Value<'v>) -> (r: Option<&'x Value<'v>>)
        ensures
            match r {
                Some(w) => self.spec_lookup(v@) == Some(w@),
                None => self.spec_lookup(v@) is None,
            },
    ;
}

impl<'v> Index<'v> for usize {
    open spec fn spec_lookup(self, m: ValueModel) -> Option<ValueModel> {
        match m {
            ValueModel::Array(elems) => if self < elems.len() {
                Some(elems[self as int])
            } else {
                None
            },
            _ => None,
        }
    }

    fn index_into<'x>(self, v: &'x Value<'v>) -> (r: Option<&'x Value<'v>>) {
        match v {
            Value::Array(a) => {
                if self < a.len() {
                    Some(&a[self])
                } else {
                    None
                }
            },
            _ => None,
        }
    }
}

impl<'v, 'a> Index<'v> for &'a str {
    open spec fn spec_lookup(self, m: ValueModel) -> Option<ValueModel> {
        match m {
            ValueModel::Object(entries) => entries_lookup(entries, self@),
            _ => None,
        }
    }

    fn index_into<'x>(self, v: &'x Value<'v>) -> (r: Option<&'x Value<'v>>) {
        match v {
            Value::Object(map) => map.get(self),
            _ => None,
        }
    }
}

impl<'a> Value<'a> {
    /// Indexes with a string key or an array position. On any miss — a
    /// receiver of the wrong shape, an absent key, a position past the end —
    /// the result is the `Null` sentinel, never a failure, so calls chain:
    /// `v.get("a").get(0).get("b")` needs only one check at the end.
    pub fn get<I: Index<'a>>(&self, index: I) -> (r: Value<'a>)
        ensures
            r@ == (match index.spec_lookup(self@) {
                Some(m) => m,
                None => ValueModel::Null,
            }),
    {
        match index.index_into(self) {
            Some(w) => w.clone(),
            None => Value::Null,
        }
    }
}

} // verus!
