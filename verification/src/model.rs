//! The mathematical model of a JSON document: what a [`crate::Value`] tree
//! denotes, with strings as character sequences and objects as ordered entry
//! sequences. Contracts throughout the crate speak of these models.

use vstd::prelude::*;

verus! {

/// The model of a JSON number: a non-negative integer, a strictly negative
/// integer, or a finite double given by its IEEE-754 bit pattern.
#[verifier::ext_equal]
pub enum NumberModel {
    PosInt(u64),
    NegInt(i64),
    Float(u64),
}

/// The model of a JSON value. String content is a character sequence; whether
/// a string borrows from the source buffer or owns its storage is a
/// representation choice that the model deliberately erases.
#[verifier::ext_equal]
pub enum ValueModel {
    Null,
    Bool(bool),
    Number(NumberModel),
    Str(Seq<char>),
    Array(Seq<ValueModel>),
    Object(Seq<(Seq<char>, ValueModel)>),
}

impl NumberModel {
    /// A number is well formed when a negative encoding is strictly negative
    /// and a float encoding is finite and not the negative-zero pattern.
    pub open spec fn wf(self) -> bool {
        match self {
            NumberModel::PosInt(_) => true,
            NumberModel::NegInt(i) => i < 0,
            NumberModel::Float(bits) => crate::is_finite_bits(bits) && bits != crate::neg_zero_bits(),
        }
    }
}

impl ValueModel {
    /// Well-formedness of a whole tree: every number in it is well formed.
    pub open spec fn wf(self) -> bool
        decreases self,
    {
        match self {
            ValueModel::Null => true,
            ValueModel::Bool(_) => true,
            ValueModel::Number(n) => n.wf(),
            ValueModel::Str(_) => true,
            ValueModel::Array(a) => wf_seq(a),
            ValueModel::Object(o) => wf_entries(o),
        }
    }
}

/// Well-formedness of every element of a sequence of models.
pub open spec fn wf_seq(s: Seq<ValueModel>) -> bool
    decreases s,
{
    s.len() == 0 || (s[0].wf() && wf_seq(s.subrange(1, s.len() as int)))
}

/// Well-formedness of every value of a sequence of object entries.
pub open spec fn wf_entries(s: Seq<(Seq<char>, ValueModel)>) -> bool
    decreases s,
{
    s.len() == 0 || (s[0].1.wf() && wf_entries(s.subrange(1, s.len() as int)))
}

/// A sequence of models is well formed exactly when each element is.
pub broadcast proof fn lemma_wf_seq(s: Seq<ValueModel>)
    ensures
        #[trigger] wf_seq(s) <==> (forall|i: int| 0 <= i < s.len() ==> (#[trigger] s[i]).wf()),
    decreases s.len(),
{
    broadcast use vstd::seq::group_seq_axioms;

    let rest = s.subrange(1, s.len() as int);
    if s.len() > 0 {
        lemma_wf_seq(rest);
        if wf_seq(s) {
            assert forall|i: int| 0 <= i < s.len() implies (#[trigger] s[i]).wf() by {
                if i > 0 {
                    assert(rest[i - 1] == s[i]);
                }
            }
        } else {
            if forall|i: int| 0 <= i < s.len() ==> (#[trigger] s[i]).wf() {
                assert forall|i: int| 0 <= i < rest.len() implies (#[trigger] rest[i]).wf() by {
                    assert(rest[i] == s[i + 1]);
                }
                assert(wf_seq(s));
            }
        }
    }
}

/// A sequence of entries is well formed exactly when each value is.
pub broadcast proof fn lemma_wf_entries(s: Seq<(Seq<char>, ValueModel)>)
    ensures
        #[trigger] wf_entries(s) <==> (forall|i: int|
            0 <= i < s.len() ==> (#[trigger] s[i]).1.wf()),
    decreases s.len(),
{
    broadcast use vstd::seq::group_seq_axioms;

    let rest = s.subrange(1, s.len() as int);
    if s.len() > 0 {
        lemma_wf_entries(rest);
        if wf_entries(s) {
            assert forall|i: int| 0 <= i < s.len() implies (#[trigger] s[i]).1.wf() by {
                if i > 0 {
                    assert(rest[i - 1] == s[i]);
                }
            }
        } else {
            if forall|i: int| 0 <= i < s.len() ==> (#[trigger] s[i]).1.wf() {
                assert forall|i: int| 0 <= i < rest.len() implies (#[trigger] rest[i]).1.wf() by {
                    assert(rest[i] == s[i + 1]);
                }
                assert(wf_entries(s));
            }
        }
    }
}

/// First-match lookup among ordered object entries: the value of the first
/// entry whose key equals `key`, or `None` when no entry has that key.
pub open spec fn entries_lookup(entries: Seq<(Seq<char>, ValueModel)>, key: Seq<char>) -> Option<
    ValueModel,
>
    decreases entries.len(),
{
    if entries.len() == 0 {
        None
    } else if entries[0].0 == key {
        Some(entries[0].1)
    } else {
        entries_lookup(entries.drop_first(), key)
    }
}

/// The index of the first entry whose key equals `key`, or the length when no
/// entry has that key.
pub open spec fn entries_find(entries: Seq<(Seq<char>, ValueModel)>, key: Seq<char>) -> int
    decreases entries.len(),
{
    if entries.len() == 0 {
        0
    } else if entries[0].0 == key {
        0
    } else {
        1 + entries_find(entries.drop_first(), key)
    }
}

/// `entries_find` locates exactly the first match: everything before it has a
/// different key, and the entry there (if any) has the key looked for.
pub proof fn lemma_entries_find(entries: Seq<(Seq<char>, ValueModel)>, key: Seq<char>)
    ensures
        0 <= entries_find(entries, key) <= entries.len(),
        forall|i: int| 0 <= i < entries_find(entries, key) ==> (#[trigger] entries[i]).0 != key,
        entries_find(entries, key) < entries.len() ==> entries[entries_find(entries, key)].0
            == key,
        entries_lookup(entries, key) == (if entries_find(entries, key) < entries.len() {
            Some(entries[entries_find(entries, key)].1)
        } else {
            None::<ValueModel>
        }),
    decreases entries.len(),
{
    if entries.len() == 0 {
    } else if entries[0].0 == key {
    } else {
        lemma_entries_find(entries.drop_first(), key);
        assert forall|i: int| 0 <= i < entries_find(entries, key) implies (#[trigger] entries[i]).0
            != key by {
            if i > 0 {
                assert(entries.drop_first()[i - 1] == entries[i]);
            }
        }
    }
}

/// A well-formed array has well-formed elements.
pub proof fn lemma_wf_array(a: Seq<ValueModel>, i: int)
    requires
        (ValueModel::Array(a)).wf(),
        0 <= i < a.len(),
    ensures
        a[i].wf(),
{
    lemma_wf_seq(a);
}

/// A well-formed object has well-formed entry values.
pub proof fn lemma_wf_object(entries: Seq<(Seq<char>, ValueModel)>, i: int)
    requires
        (ValueModel::Object(entries)).wf(),
        0 <= i < entries.len(),
    ensures
        entries[i].1.wf(),
{
    lemma_wf_entries(entries);
}

/// The entry at `i` is the first whose key is `key`: the lookup returns it.
pub proof fn lemma_first_match(entries: Seq<(Seq<char>, ValueModel)>, key: Seq<char>, i: int)
    requires
        0 <= i < entries.len(),
        entries[i].0 == key,
        forall|j: int| 0 <= j < i ==> (#[trigger] entries[j]).0 != key,
    ensures
        entries_find(entries, key) == i,
        entries_lookup(entries, key) == Some(entries[i].1),
{
    lemma_entries_find(entries, key);
    let f = entries_find(entries, key);
    if f < i {
        assert(entries[f].0 != key);
    }
}

/// No entry has the key: the lookup misses.
pub proof fn lemma_no_match(entries: Seq<(Seq<char>, ValueModel)>, key: Seq<char>)
    requires
        forall|j: int| 0 <= j < entries.len() ==> (#[trigger] entries[j]).0 != key,
    ensures
        entries_lookup(entries, key) is None,
        entries_find(entries, key) == entries.len(),
{
    lemma_entries_find(entries, key);
}

} // verus!
