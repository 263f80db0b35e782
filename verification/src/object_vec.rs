//! The vector-backed JSON object: ordered `(key, value)` entries with linear
//! lookup. Entry order is preserved and duplicate keys are kept; lookups
//! return the first match.

use vstd::prelude::*;

use crate::model::entries_find;
use crate::model::entries_lookup;
use crate::model::lemma_first_match;
use crate::model::lemma_no_match;
use crate::model::ValueModel;
use crate::value::str_eq;
use crate::value::CowStr;
use crate::value::Value;

verus! {

broadcast use {vstd::std_specs::vec::group_vec_axioms, vstd::seq::group_seq_axioms};

/// A JSON object held as a vector of `(key, value)` pairs rather than a hash
/// table: entry order is kept exactly as built, duplicate keys are preserved,
/// and key lookup is a linear scan that returns the first match.
#[derive(Debug, PartialEq)]
pub struct ObjectAsVec<'a>(pub Vec<(CowStr<'a>, Value<'a>)>);

impl<'a> View for ObjectAsVec<'a> {
    type V = Seq<(Seq<char>, ValueModel)>;

    #[verifier::inline]
    open spec fn view(&self) -> Seq<(Seq<char>, ValueModel)> {
        obj_models(*self)
    }
}

/// The model an object denotes: its entries' models, in order.
pub open spec fn obj_models<'a>(o: ObjectAsVec<'a>) -> Seq<(Seq<char>, ValueModel)>
    decreases o,
{
    entry_models_vec(o.0)
}

/// The models of a vector of object entries, elementwise and in order.
pub open spec fn entry_models_vec<'a>(v: Vec<(CowStr<'a>, Value<'a>)>) -> Seq<
    (Seq<char>, ValueModel),
>
    decreases v,
{
    entry_models(v@)
}

/// The model of one object entry: the key's characters and the value's model.
pub open spec fn entry_model<'a>(p: (CowStr<'a>, Value<'a>)) -> (Seq<char>, ValueModel)
    decreases p,
{
    (p.0@, crate::value::vmodel(p.1))
}

/// The models of a sequence of object entries, elementwise and in order.
pub open spec fn entry_models<'a>(s: Seq<(CowStr<'a>, Value<'a>)>) -> Seq<
    (Seq<char>, ValueModel),
>
    decreases s,
{
    if s.len() <= 0 {
        Seq::empty()
    } else {
        seq![entry_model(s[0])] + entry_models(s.subrange(1, s.len() as int))
    }
}

/// `entry_models_vec` is `entry_models` on the vector's sequence.
pub broadcast proof fn lemma_entry_models_vec<'a>(v: Vec<(CowStr<'a>, Value<'a>)>)
    ensures
        #[trigger] entry_models_vec(v) == entry_models(v@),
{
}

/// `obj_models` is `entry_models` on the backing vector's sequence.
pub broadcast proof fn lemma_obj_models<'a>(o: ObjectAsVec<'a>)
    ensures
        #[trigger] obj_models(o) == entry_models(o.0@),
{
    lemma_entry_models_vec(o.0);
}

/// `entry_models` keeps the length.
pub broadcast proof fn lemma_entry_models_len<'a>(s: Seq<(CowStr<'a>, Value<'a>)>)
    ensures
        (#[trigger] entry_models(s)).len() == s.len(),
    decreases s.len(),
{
    if s.len() > 0 {
        lemma_entry_models_len(s.subrange(1, s.len() as int));
    }
}

/// `entry_models` maps each entry to its model.
pub broadcast proof fn lemma_entry_models_index<'a>(s: Seq<(CowStr<'a>, Value<'a>)>, i: int)
    requires
        0 <= i < s.len(),
    ensures
        #[trigger] entry_models(s)[i] == (s[i].0@, crate::value::vmodel(s[i].1)),
    decreases s.len(),
{
    let rest = s.subrange(1, s.len() as int);
    lemma_entry_models_len(rest);
    assert(entry_models(s) == seq![entry_model(s[0])] + entry_models(rest));
    if i == 0 {
        assert((seq![entry_model(s[0])] + entry_models(rest))[0] == entry_model(s[0]));
    } else {
        lemma_entry_models_index(rest, i - 1);
        assert((seq![entry_model(s[0])] + entry_models(rest))[i] == entry_models(rest)[i - 1]);
        assert(rest[i - 1] == s[i]);
    }
}

/// Appending an entry appends its model.
pub broadcast proof fn lemma_entry_models_push<'a>(
    s: Seq<(CowStr<'a>, Value<'a>)>,
    e: (CowStr<'a>, Value<'a>),
)
    ensures
        #[trigger] entry_models(s.push(e)) == entry_models(s) + seq![entry_model(e)],
    decreases s.len(),
{
    let w = s.push(e);
    assert(w.len() == s.len() + 1);
    if s.len() == 0 {
        assert(entry_models(w) == seq![entry_model(w[0])] + entry_models(
            w.subrange(1, w.len() as int),
        ));
        assert(w.subrange(1, w.len() as int) =~= Seq::<(CowStr<'a>, Value<'a>)>::empty());
        assert(entry_models(w) =~= entry_models(s) + seq![entry_model(e)]);
    } else {
        assert(w.subrange(1, w.len() as int) =~= s.subrange(1, s.len() as int).push(e));
        lemma_entry_models_push(s.subrange(1, s.len() as int), e);
        assert(entry_models(w) == seq![entry_model(w[0])] + entry_models(
            w.subrange(1, w.len() as int),
        ));
        assert(entry_models(s) == seq![entry_model(s[0])] + entry_models(
            s.subrange(1, s.len() as int),
        ));
        assert(w[0] == s[0]);
        assert(entry_models(w) =~= entry_models(s) + seq![entry_model(e)]);
    }
}

/// Updating an entry updates its model pointwise.
pub broadcast proof fn lemma_entry_models_update<'a>(
    s: Seq<(CowStr<'a>, Value<'a>)>,
    ix: int,
    e: (CowStr<'a>, Value<'a>),
)
    requires
        0 <= ix < s.len(),
    ensures
        #[trigger] entry_models(s.update(ix, e)) == entry_models(s).update(
            ix,
            (e.0@, crate::value::vmodel(e.1)),
        ),
{
    broadcast use {lemma_entry_models_len, lemma_entry_models_index};

    let w = s.update(ix, e);
    assert(entry_models(w) =~= entry_models(s).update(ix, (e.0@, crate::value::vmodel(e.1))))
        by {
        assert forall|k: int| 0 <= k < s.len() implies #[trigger] entry_models(w)[k]
            == entry_models(s).update(ix, (e.0@, crate::value::vmodel(e.1)))[k] by {
            if k == ix {
                assert(w[k] == e);
            } else {
                assert(w[k] == s[k]);
            }
        }
    }
}

/// Updating the element just appended is the same as appending the update.
pub broadcast proof fn lemma_push_then_update<'a>(
    s: Seq<(CowStr<'a>, Value<'a>)>,
    x: (CowStr<'a>, Value<'a>),
    y: (CowStr<'a>, Value<'a>),
)
    ensures
        #[trigger] s.push(x).update(s.len() as int, y) == s.push(y),
{
    assert(s.push(x).update(s.len() as int, y) =~= s.push(y));
}

/// The borrow-versus-copy rule over an object: every key and every string
/// below the entries decodes a literal of the source, borrowing exactly on
/// escape-free literals.
pub open spec fn obj_borrow_decision<'a>(o: ObjectAsVec<'a>, src: Seq<char>) -> bool
    decreases o,
{
    entries_vec_borrow_decision(o.0, src)
}

/// `obj_borrow_decision` over a vector of entries.
pub open spec fn entries_vec_borrow_decision<'a>(
    v: Vec<(CowStr<'a>, Value<'a>)>,
    src: Seq<char>,
) -> bool
    decreases v,
{
    entries_borrow_decision(v@, src)
}

/// The borrow-versus-copy rule for one entry: its key and its value.
pub open spec fn entry_borrow_decision<'a>(p: (CowStr<'a>, Value<'a>), src: Seq<char>) -> bool
    decreases p,
{
    crate::value::str_decision(p.0, src) && crate::value::borrow_decision(p.1, src)
}

/// `entry_borrow_decision` over a sequence of entries.
pub open spec fn entries_borrow_decision<'a>(
    s: Seq<(CowStr<'a>, Value<'a>)>,
    src: Seq<char>,
) -> bool
    decreases s,
{
    s.len() == 0 || (entry_borrow_decision(s[0], src) && entries_borrow_decision(
        s.subrange(1, s.len() as int),
        src,
    ))
}

/// `obj_borrow_decision` is `entries_borrow_decision` on the backing vector.
pub broadcast proof fn lemma_obj_borrow_decision<'a>(o: ObjectAsVec<'a>, src: Seq<char>)
    ensures
        #[trigger] obj_borrow_decision(o, src) == entries_borrow_decision(o.0@, src),
{
    lemma_entries_vec_borrow_decision(o.0, src);
}

/// How one entry's claim reads: its key's and its value's.
pub broadcast proof fn lemma_entry_borrow_decision<'a>(
    p: (CowStr<'a>, Value<'a>),
    src: Seq<char>,
)
    ensures
        #[trigger] entry_borrow_decision(p, src) == (crate::value::str_decision(p.0, src)
            && crate::value::borrow_decision(p.1, src)),
{
}

/// `entries_vec_borrow_decision` is `entries_borrow_decision` on the
/// vector's sequence.
pub broadcast proof fn lemma_entries_vec_borrow_decision<'a>(
    v: Vec<(CowStr<'a>, Value<'a>)>,
    src: Seq<char>,
)
    ensures
        #[trigger] entries_vec_borrow_decision(v, src) == entries_borrow_decision(v@, src),
{
}

/// `entries_borrow_decision` holds exactly when it holds of every entry.
pub broadcast proof fn lemma_entries_borrow_decision<'a>(
    s: Seq<(CowStr<'a>, Value<'a>)>,
    src: Seq<char>,
)
    ensures
        #[trigger] entries_borrow_decision(s, src) <==> (forall|i: int|
            0 <= i < s.len() ==> entry_borrow_decision(#[trigger] s[i], src)),
    decreases s.len(),
{
    broadcast use vstd::seq::group_seq_axioms;

    let rest = s.subrange(1, s.len() as int);
    if s.len() > 0 {
        lemma_entries_borrow_decision(rest, src);
        if entries_borrow_decision(s, src) {
            assert forall|i: int| 0 <= i < s.len() implies entry_borrow_decision(
                #[trigger] s[i],
                src,
            ) by {
                if i > 0 {
                    assert(rest[i - 1] == s[i]);
                }
            }
        } else {
            if forall|i: int| 0 <= i < s.len() ==> entry_borrow_decision(#[trigger] s[i], src) {
                assert forall|i: int| 0 <= i < rest.len() implies entry_borrow_decision(
                    #[trigger] rest[i],
                    src,
                ) by {
                    assert(rest[i] == s[i + 1]);
                }
                assert(entries_borrow_decision(s, src));
            }
        }
    }
}

/// Every fact modules need to reason about object models.
pub broadcast group group_object_model {
    lemma_obj_borrow_decision,
    lemma_entry_borrow_decision,
    lemma_entries_vec_borrow_decision,
    lemma_entries_borrow_decision,
    lemma_entry_models_update,
    lemma_push_then_update,
    lemma_entry_models_push,
    lemma_obj_models,
    lemma_entry_models_vec,
    lemma_entry_models_len,
    lemma_entry_models_index,
}

impl<'a> Default for ObjectAsVec<'a> {
    /// The default object is empty.
    fn default() -> (r: Self)
        ensures
            r@ == Seq::<(Seq<char>, ValueModel)>::empty(),
    {
        broadcast use {group_object_model, crate::value::group_value_model};

        let r = ObjectAsVec(Vec::new());
        proof {
            assert(r@ =~= Seq::<(Seq<char>, ValueModel)>::empty());
        }
        r
    }
}

impl<'a> Clone for ObjectAsVec<'a> {
    /// A deep copy denoting the same entry sequence.
    #[verifier::loop_isolation(false)]
    fn clone(&self) -> (r: Self)
        ensures
            r@ == self@,
        decreases self,
    {
        broadcast use {group_object_model, crate::value::group_value_model};

        let mut out: Vec<(CowStr<'a>, Value<'a>)> = Vec::new();
        let mut i: usize = 0;
        while i < self.0.len()
            invariant
                0 <= i <= self.0@.len(),
                out@.len() == i,
                forall|j: int|
                    0 <= j < i ==> #[trigger] out@[j].0@ == self.0@[j].0@ && out@[j].1@
                        == self.0@[j].1@,
            decreases self.0@.len() - i,
        {
            proof {
                assert(decreases_to!(self.0 => self.0@));
                assert(decreases_to!(self.0@ => self.0@[i as int]));
            }
            let pair = &self.0[i];
            out.push((pair.0.clone(), pair.1.clone()));
            i += 1;
        }
        let r = ObjectAsVec(out);
        proof {
            assert(r@ =~= self@);
        }
        r
    }
}

/// A mutable borrow of the value stored at a position of an entry vector,
/// related to the vector's final state.
fn value_at_mut<'x, 'a>(v: &'x mut Vec<(CowStr<'a>, Value<'a>)>, ix: usize) -> (r: &'x mut Value<
    'a,
>)
    requires
        ix < old(v)@.len(),
    ensures
        *r == old(v)@[ix as int].1,
        final(v)@ == old(v)@.update(ix as int, (old(v)@[ix as int].0, *final(r))),
{
    let pair = vstd::std_specs::vec::vec_index_mut(v, ix);
    &mut pair.1
}

/// An entry found in an object: its position in the backing vector, its key,
/// and its value.
pub struct ObjectEntry<'o, 'a> {
    /// The position in the backing vector.
    pub index: usize,
    /// The key string.
    pub key: &'o str,
    /// The value.
    pub value: &'o Value<'a>,
}

impl<'a> ObjectAsVec<'a> {
    /// Builds an object from `(key, value)` pairs, keys borrowed, order kept.
    #[verifier::loop_isolation(false)]
    pub fn from_entries(entries: Vec<(&'a str, Value<'a>)>) -> (r: Self)
        ensures
            r@.len() == entries@.len(),
            forall|i: int|
                0 <= i < entries@.len() ==> #[trigger] r@[i] == (entries@[i].0@, entries@[i].1@),
    {
        broadcast use {group_object_model, crate::value::group_value_model};

        let mut out: Vec<(CowStr<'a>, Value<'a>)> = Vec::new();
        let mut i: usize = 0;
        while i < entries.len()
            invariant
                0 <= i <= entries@.len(),
                out@.len() == i,
                forall|j: int|
                    0 <= j < i ==> #[trigger] out@[j].0@ == entries@[j].0@ && out@[j].1@
                        == entries@[j].1@,
            decreases entries@.len() - i,
        {
            let pair = &entries[i];
            out.push((CowStr::Borrowed(pair.0), pair.1.clone()));
            i += 1;
        }
        ObjectAsVec(out)
    }

    /// Read access to the backing vector.
    pub fn as_vec(&self) -> (r: &Vec<(CowStr<'a>, Value<'a>)>)
        ensures
            r@.len() == self@.len(),
            forall|i: int| 0 <= i < self@.len() ==> #[trigger] self@[i] == (r@[i].0@, r@[i].1@),
    {
        proof {
            broadcast use {group_object_model, crate::value::group_value_model};

        }
        &self.0
    }

    /// The backing vector itself, consuming the object.
    pub fn into_vec(self) -> (r: Vec<(CowStr<'a>, Value<'a>)>)
        ensures
            r@.len() == self@.len(),
            forall|i: int| 0 <= i < self@.len() ==> #[trigger] self@[i] == (r@[i].0@, r@[i].1@),
    {
        proof {
            broadcast use {group_object_model, crate::value::group_value_model};

        }
        self.0
    }

    /// The number of entries.
    pub fn len(&self) -> (r: usize)
        ensures
            r == self@.len(),
    {
        proof {
            broadcast use {group_object_model, crate::value::group_value_model};

        }
        self.0.len()
    }

    /// Whether the object has no entries.
    pub fn is_empty(&self) -> (r: bool)
        ensures
            r == (self@.len() == 0),
    {
        proof {
            broadcast use {group_object_model, crate::value::group_value_model};

        }
        self.0.is_empty()
    }

    /// The value of the first entry whose key is `key`, or nothing when no
    /// entry has that key. Linear scan.
    #[verifier::loop_isolation(false)]
    pub fn get(&self, key: &str) -> (r: Option<&Value<'a>>)
        ensures
            match r {
                Some(v) => entries_lookup(self@, key@) == Some(v@),
                None => entries_lookup(self@, key@) is None,
            },
    {
        broadcast use {group_object_model, crate::value::group_value_model};

        let mut i: usize = 0;
        while i < self.0.len()
            invariant
                0 <= i <= self@.len(),
                self@.len() == self.0@.len(),
                forall|j: int| 0 <= j < i ==> (#[trigger] self@[j]).0 != key@,
            decreases self@.len() - i,
        {
            let pair = &self.0[i];
            if str_eq(pair.0.as_str(), key) {
                proof {
                    lemma_first_match(self@, key@, i as int);
                }
                return Some(&pair.1);
            }
            i += 1;
        }
        proof {
            lemma_no_match(self@, key@);
        }
        None
    }

    /// The first entry whose key is `key`, as a `(key, value)` pair.
    #[verifier::loop_isolation(false)]
    pub fn get_key_value(&self, key: &str) -> (r: Option<(&str, &Value<'a>)>)
        ensures
            match r {
                Some(kv) => kv.0@ == key@ && entries_lookup(self@, key@) == Some(kv.1@),
                None => entries_lookup(self@, key@) is None,
            },
    {
        broadcast use {group_object_model, crate::value::group_value_model};

        let mut i: usize = 0;
        while i < self.0.len()
            invariant
                0 <= i <= self@.len(),
                self@.len() == self.0@.len(),
                forall|j: int| 0 <= j < i ==> (#[trigger] self@[j]).0 != key@,
            decreases self@.len() - i,
        {
            let pair = &self.0[i];
            if str_eq(pair.0.as_str(), key) {
                proof {
                    lemma_first_match(self@, key@, i as int);
                }
                return Some((pair.0.as_str(), &pair.1));
            }
            i += 1;
        }
        proof {
            lemma_no_match(self@, key@);
        }
        None
    }

    /// The first entry whose key is `key`, together with its position in the
    /// backing vector; the position can be used with `get_key_value_at` for
    /// direct access later.
    #[verifier::loop_isolation(false)]
    pub fn get_entry(&self, key: &str) -> (r: Option<ObjectEntry<'_, 'a>>)
        ensures
            match r {
                Some(e) => {
                    &&& e.index == entries_find(self@, key@)
                    &&& e.index < self@.len()
                    &&& e.key@ == key@
                    &&& entries_lookup(self@, key@) == Some(e.value@)
                },
                None => entries_lookup(self@, key@) is None,
            },
    {
        broadcast use {group_object_model, crate::value::group_value_model};

        let mut i: usize = 0;
        while i < self.0.len()
            invariant
                0 <= i <= self@.len(),
                self@.len() == self.0@.len(),
                forall|j: int| 0 <= j < i ==> (#[trigger] self@[j]).0 != key@,
            decreases self@.len() - i,
        {
            let pair = &self.0[i];
            if str_eq(pair.0.as_str(), key) {
                proof {
                    lemma_first_match(self@, key@, i as int);
                }
                return Some(ObjectEntry { index: i, key: pair.0.as_str(), value: &pair.1 });
            }
            i += 1;
        }
        proof {
            lemma_no_match(self@, key@);
        }
        None
    }

    /// The entry at a position in the backing vector, or nothing when the
    /// position is past the end.
    pub fn get_key_value_at(&self, index: usize) -> (r: Option<(&str, &Value<'a>)>)
        ensures
            match r {
                Some(kv) => index < self@.len() && self@[index as int] == (kv.0@, kv.1@),
                None => index >= self@.len(),
            },
    {
        broadcast use {group_object_model, crate::value::group_value_model};

        if index < self.0.len() {
            let pair = &self.0[index];
            Some((pair.0.as_str(), &pair.1))
        } else {
            None
        }
    }

    /// All keys, in entry order.
    #[verifier::loop_isolation(false)]
    pub fn keys(&self) -> (r: Vec<&str>)
        ensures
            r@.len() == self@.len(),
            forall|i: int| 0 <= i < self@.len() ==> #[trigger] r@[i]@ == self@[i].0,
    {
        broadcast use {group_object_model, crate::value::group_value_model};

        let mut out: Vec<&str> = Vec::new();
        let mut i: usize = 0;
        while i < self.0.len()
            invariant
                0 <= i <= self@.len(),
                self@.len() == self.0@.len(),
                out@.len() == i,
                forall|j: int| 0 <= j < i ==> #[trigger] out@[j]@ == self@[j].0,
            decreases self@.len() - i,
        {
            out.push(self.0[i].0.as_str());
            i += 1;
        }
        out
    }

    /// All values, in entry order.
    #[verifier::loop_isolation(false)]
    pub fn values(&self) -> (r: Vec<&Value<'a>>)
        ensures
            r@.len() == self@.len(),
            forall|i: int| 0 <= i < self@.len() ==> #[trigger] r@[i]@ == self@[i].1,
    {
        broadcast use {group_object_model, crate::value::group_value_model};

        let mut out: Vec<&Value<'a>> = Vec::new();
        let mut i: usize = 0;
        while i < self.0.len()
            invariant
                0 <= i <= self@.len(),
                self@.len() == self.0@.len(),
                out@.len() == i,
                forall|j: int| 0 <= j < i ==> #[trigger] out@[j]@ == self@[j].1,
            decreases self@.len() - i,
        {
            out.push(&self.0[i].1);
            i += 1;
        }
        out
    }

    /// All `(key, value)` pairs, in entry order.
    #[verifier::loop_isolation(false)]
    pub fn iter(&self) -> (r: Vec<(&str, &Value<'a>)>)
        ensures
            r@.len() == self@.len(),
            forall|i: int| 0 <= i < self@.len() ==> #[trigger] self@[i] == (r@[i].0@, r@[i].1@),
    {
        broadcast use {group_object_model, crate::value::group_value_model};

        let mut out: Vec<(&str, &Value<'a>)> = Vec::new();
        let mut i: usize = 0;
        while i < self.0.len()
            invariant
                0 <= i <= self@.len(),
                self@.len() == self.0@.len(),
                out@.len() == i,
                forall|j: int| 0 <= j < i ==> #[trigger] self@[j] == (out@[j].0@, out@[j].1@),
            decreases self@.len() - i,
        {
            let pair = &self.0[i];
            out.push((pair.0.as_str(), &pair.1));
            i += 1;
        }
        out
    }

    /// Whether some entry has this key. Linear scan.
    pub fn contains_key(&self, key: &str) -> (r: bool)
        ensures
            r == (entries_lookup(self@, key@) is Some),
    {
        match self.get(key) {
            Some(_) => true,
            None => false,
        }
    }

    /// Inserts a key/value pair. When an entry with the key exists, the first
    /// such entry's value is replaced and the old value returned; otherwise
    /// the pair is appended and nothing is returned.
    #[verifier::loop_isolation(false)]
    pub fn insert(&mut self, key: &'a str, value: Value<'a>) -> (r: Option<Value<'a>>)
        ensures
            match r {
                Some(old_v) => {
                    &&& entries_lookup(old(self)@, key@) == Some(old_v@)
                    &&& final(self)@ == old(self)@.update(
                        entries_find(old(self)@, key@),
                        (key@, value@),
                    )
                },
                None => {
                    &&& entries_lookup(old(self)@, key@) is None
                    &&& final(self)@ == old(self)@.push((key@, value@))
                },
            },
    {
        broadcast use {group_object_model, crate::value::group_value_model};

        let ghost orig = self@;
        let ghost new_model = value@;
        let mut i: usize = 0;
        while i < self.0.len()
            invariant
                0 <= i <= self@.len(),
                self@.len() == self.0@.len(),
                self@ == orig,
                new_model == value@,
                forall|j: int| 0 <= j < i ==> (#[trigger] self@[j]).0 != key@,
            decreases self@.len() - i,
        {
            let found = str_eq(self.0[i].0.as_str(), key);
            if found {
                proof {
                    lemma_first_match(self@, key@, i as int);
                }
                let mut v = value;
                let pair = vstd::std_specs::vec::vec_index_mut(&mut self.0, i);
                core::mem::swap(&mut pair.1, &mut v);
                proof {
                    assert(self@ =~= orig.update(i as int, (key@, new_model)));
                }
                return Some(v);
            }
            i += 1;
        }
        proof {
            lemma_no_match(self@, key@);
        }
        self.0.push((CowStr::Borrowed(key), value));
        proof {
            assert(self@ =~= orig.push((key@, new_model)));
        }
        None
    }

    /// A mutable borrow of the value of the first entry whose key is `key`,
    /// if any. Linear scan. While the borrow lasts the entry's value may
    /// change; its key stays.
    pub fn get_mut(&mut self, key: &str) -> (r: Option<&mut Value<'a>>)
        ensures
            match r {
                Some(vref) => {
                    &&& entries_find(old(self)@, key@) < old(self)@.len()
                    &&& entries_lookup(old(self)@, key@) == Some((*vref)@)
                    &&& final(self)@ == old(self)@.update(
                        entries_find(old(self)@, key@),
                        (key@, final(vref)@),
                    )
                },
                None => {
                    &&& entries_lookup(old(self)@, key@) is None
                    &&& final(self)@ == old(self)@
                },
            },
    {
        broadcast use {group_object_model, crate::value::group_value_model};

        let ghost orig = self@;
        let idx_opt: Option<usize> = match self.get_entry(key) {
            Some(e) => Some(e.index),
            None => None,
        };
        match idx_opt {
            Some(ix) => {
                proof {
                    crate::model::lemma_entries_find(orig, key@);
                    assert(orig[ix as int].0 == key@);
                    assert(self.0@[ix as int].0@ == key@);
                }
                let vref = value_at_mut(&mut self.0, ix);
                Some(vref)
            },
            None => None,
        }
    }

    /// A mutable borrow of the value under `key`, inserting `value` first
    /// when no entry has the key.
    pub fn insert_or_get_mut(&mut self, key: &'a str, value: Value<'a>) -> (r: &mut Value<'a>)
        ensures
            entries_find(old(self)@, key@) < old(self)@.len() ==> {
                &&& entries_lookup(old(self)@, key@) == Some((*r)@)
                &&& final(self)@ == old(self)@.update(
                    entries_find(old(self)@, key@),
                    (key@, final(r)@),
                )
            },
            entries_find(old(self)@, key@) >= old(self)@.len() ==> {
                &&& (*r)@ == value@
                &&& final(self)@ == old(self)@.push((key@, final(r)@))
            },
    {
        broadcast use {group_object_model, crate::value::group_value_model};

        let ghost orig = self@;
        let ghost new_model = value@;
        let idx_opt: Option<usize> = match self.get_entry(key) {
            Some(e) => Some(e.index),
            None => None,
        };
        match idx_opt {
            Some(ix) => {
                proof {
                    crate::model::lemma_entries_find(orig, key@);
                    assert(orig[ix as int].0 == key@);
                    assert(self.0@[ix as int].0@ == key@);
                }
                let vref = value_at_mut(&mut self.0, ix);
                vref
            },
            None => {
                proof {
                    crate::model::lemma_entries_find(orig, key@);
                }
                self.0.push((CowStr::Borrowed(key), value));
                let last = self.0.len() - 1;
                proof {
                    assert(self.0@ == old(self).0@.push((CowStr::Borrowed(key), value)));
                    assert(self.0@[last as int].0@ == key@);
                    assert(self.0@[last as int].1 == value);
                }
                let vref = value_at_mut(&mut self.0, last);
                vref
            },
        }
    }

    /// Appends the pair and returns a mutable borrow of the appended value.
    /// The key is not looked up first: an existing entry with the same key
    /// stays, and the object then holds the key twice.
    pub fn insert_unchecked_and_get_mut(&mut self, key: &'a str, value: Value<'a>) -> (r:
        &mut Value<'a>)
        ensures
            (*r)@ == value@,
            final(self)@ == old(self)@.push((key@, final(r)@)),
    {
        broadcast use {group_object_model, crate::value::group_value_model};

        let ghost orig = self@;
        self.0.push((CowStr::Borrowed(key), value));
        let last = self.0.len() - 1;
        proof {
            assert(self.0@ == old(self).0@.push((CowStr::Borrowed(key), value)));
            assert(self.0@[last as int].0@ == key@);
            assert(self.0@[last as int].1 == value);
        }
        let vref = value_at_mut(&mut self.0, last);
        vref
    }

    /// Removes every entry.
    pub fn clear(&mut self)
        ensures
            final(self)@ == Seq::<(Seq<char>, ValueModel)>::empty(),
    {
        broadcast use {group_object_model, crate::value::group_value_model};

        self.0.clear();
        proof {
            assert(self@ =~= Seq::<(Seq<char>, ValueModel)>::empty());
        }
    }
}

} // verus!
