//! The tagged JSON value types: copy-on-write strings and numbers.

use vstd::prelude::*;

use crate::model::NumberModel;
use crate::model::ValueModel;
use crate::object_vec::ObjectAsVec;

verus! {

broadcast use {vstd::std_specs::vec::group_vec_axioms, vstd::seq::group_seq_axioms};

/// Character-by-character equality of two string slices.
pub fn str_eq(a: &str, b: &str) -> (r: bool)
    ensures
        r == (a@ == b@),
{
    let alen = a.unicode_len();
    let blen = b.unicode_len();
    if alen != blen {
        return false;
    }
    let mut i: usize = 0;
    while i < alen
        invariant
            alen == a@.len(),
            blen == b@.len(),
            alen == blen,
            0 <= i <= alen,
            forall|j: int| 0 <= j < i ==> a@[j] == b@[j],
        decreases alen - i,
    {
        if a.get_char(i) != b.get_char(i) {
            return false;
        }
        i += 1;
    }
    proof {
        assert(a@ =~= b@);
    }
    true
}

/// A string that either borrows from an outside buffer (a zero-copy view into
/// the parsed text) or owns its characters (used where escape sequences had to
/// be decoded). Two values compare equal by content, regardless of which form
/// holds it.
#[derive(Debug)]
pub enum CowStr<'a> {
    Borrowed(&'a str),
    Owned(String),
}

impl<'a> View for CowStr<'a> {
    type V = Seq<char>;

    open spec fn view(&self) -> Seq<char> {
        match self {
            CowStr::Borrowed(s) => s@,
            CowStr::Owned(s) => s@,
        }
    }
}

impl<'a> CowStr<'a> {
    /// The string content, whichever form holds it.
    pub fn as_str(&self) -> (r: &str)
        ensures
            r@ == self@,
    {
        match self {
            CowStr::Borrowed(s) => s,
            CowStr::Owned(s) => s.as_str(),
        }
    }

    /// Whether this string is a borrowed view rather than an owned copy.
    pub fn is_borrowed(&self) -> (r: bool)
        ensures
            r == (self matches CowStr::Borrowed(_)),
    {
        match self {
            CowStr::Borrowed(_) => true,
            CowStr::Owned(_) => false,
        }
    }
}

impl<'a> Clone for CowStr<'a> {
    fn clone(&self) -> (r: Self)
        ensures
            r == *self,
    {
        match self {
            CowStr::Borrowed(s) => CowStr::Borrowed(s),
            CowStr::Owned(s) => CowStr::Owned(s.clone()),
        }
    }
}

impl<'a> PartialEq for CowStr<'a> {
    fn eq(&self, other: &Self) -> (r: bool) {
        str_eq(self.as_str(), other.as_str())
    }
}

impl<'a> vstd::std_specs::cmp::PartialEqSpecImpl for CowStr<'a> {
    open spec fn obeys_eq_spec() -> bool {
        true
    }

    open spec fn eq_spec(&self, other: &Self) -> bool {
        self@ == other@
    }
}

impl<'a> From<&'a str> for CowStr<'a> {
    fn from(s: &'a str) -> (r: Self) {
        CowStr::Borrowed(s)
    }
}

impl<'a> vstd::std_specs::convert::FromSpecImpl<&'a str> for CowStr<'a> {
    open spec fn obeys_from_spec() -> bool {
        true
    }

    open spec fn from_spec(s: &'a str) -> Self {
        CowStr::Borrowed(s)
    }
}

/// A JSON number: one of three disjoint encodings. A non-negative integer, a
/// strictly negative integer, or a finite double held as its IEEE-754 bit
/// pattern, never the negative-zero pattern (that value is stored as positive
/// zero, so that equal values have equal bits). Two numbers are equal exactly
/// when they have the same encoding with the same payload: equality is never
/// defined across encodings.
#[derive(Debug, Clone, Copy, Eq, Hash)]
pub struct Number {
    n: N,
}

impl PartialEq for Number {
    fn eq(&self, other: &Self) -> (r: bool) {
        match (self.n, other.n) {
            (N::PosInt(a), N::PosInt(b)) => a == b,
            (N::NegInt(a), N::NegInt(b)) => a == b,
            (N::Float(a), N::Float(b)) => a == b,
            _ => false,
        }
    }
}

impl vstd::std_specs::cmp::PartialEqSpecImpl for Number {
    open spec fn obeys_eq_spec() -> bool {
        true
    }

    open spec fn eq_spec(&self, other: &Self) -> bool {
        self@ == other@
    }
}

impl Number {
    /// Every number is well formed: the constructors keep negative encodings
    /// strictly negative and float encodings finite with one zero pattern.
    #[verifier::type_invariant]
    pub open spec fn inv(self) -> bool {
        self@.wf()
    }
}

#[derive(Debug, Clone, Copy, PartialEq, Eq, Hash, Structural)]
enum N {
    PosInt(u64),
    NegInt(i64),
    Float(u64),
}

impl View for Number {
    type V = NumberModel;

    closed spec fn view(&self) -> NumberModel {
        match self.n {
            N::PosInt(v) => NumberModel::PosInt(v),
            N::NegInt(v) => NumberModel::NegInt(v),
            N::Float(bits) => NumberModel::Float(bits),
        }
    }
}

impl NumberModel {
    /// What `as_u64` returns: the value of the non-negative encoding only.
    pub open spec fn spec_as_u64(self) -> Option<u64> {
        match self {
            NumberModel::PosInt(v) => Some(v),
            _ => None,
        }
    }

    /// What `as_i64` returns: any integer encoding whose value fits in i64.
    pub open spec fn spec_as_i64(self) -> Option<i64> {
        match self {
            NumberModel::PosInt(v) => if v <= i64::MAX as u64 {
                Some(v as i64)
            } else {
                None
            },
            NumberModel::NegInt(v) => Some(v),
            NumberModel::Float(_) => None,
        }
    }

    pub open spec fn spec_is_u64(self) -> bool {
        self matches NumberModel::PosInt(_)
    }

    pub open spec fn spec_is_i64(self) -> bool {
        match self {
            NumberModel::PosInt(v) => v <= i64::MAX as u64,
            NumberModel::NegInt(_) => true,
            NumberModel::Float(_) => false,
        }
    }

    pub open spec fn spec_is_f64(self) -> bool {
        self matches NumberModel::Float(_)
    }
}

impl Number {
    /// A number holding a non-negative integer.
    pub fn from_u64(v: u64) -> (r: Self)
        ensures
            r@ == NumberModel::PosInt(v),
    {
        Number { n: N::PosInt(v) }
    }

    /// A number holding a signed integer. Non-negative inputs take the
    /// non-negative encoding, keeping the negative encoding strictly negative.
    pub fn from_i64(v: i64) -> (r: Self)
        ensures
            v < 0 ==> r@ == NumberModel::NegInt(v),
            v >= 0 ==> r@ == NumberModel::PosInt(v as u64),
    {
        if v < 0 {
            Number { n: N::NegInt(v) }
        } else {
            Number { n: N::PosInt(v as u64) }
        }
    }

    /// A number holding a finite double, given by its bit pattern. The
    /// negative-zero pattern is stored as positive zero: the two compare equal
    /// as doubles, and one representative keeps equality and hashing aligned.
    pub fn from_f64_bits(bits: u64) -> (r: Self)
        requires
            crate::is_finite_bits(bits),
        ensures
            r@ == NumberModel::Float(crate::norm_float_bits(bits)),
            r@.wf(),
    {
        if bits == 0x8000_0000_0000_0000u64 {
            proof {
                assert((0u64 >> 52) & 0x7ff != 0x7ff) by (bit_vector);
            }
            Number { n: N::Float(0) }
        } else {
            Number { n: N::Float(bits) }
        }
    }

    /// The value as a u64, for the non-negative integer encoding only.
    pub fn as_u64(&self) -> (r: Option<u64>)
        ensures
            r == self@.spec_as_u64(),
    {
        match self.n {
            N::PosInt(v) => Some(v),
            _ => None,
        }
    }

    /// The value as an i64, for either integer encoding when it fits.
    pub fn as_i64(&self) -> (r: Option<i64>)
        ensures
            r == self@.spec_as_i64(),
    {
        match self.n {
            N::PosInt(v) => if v <= i64::MAX as u64 {
                Some(v as i64)
            } else {
                None
            },
            N::NegInt(v) => Some(v),
            N::Float(_) => None,
        }
    }

    /// Whether the number is held as a float.
    pub fn is_f64(&self) -> (r: bool)
        ensures
            r == self@.spec_is_f64(),
    {
        matches!(self.n, N::Float(_))
    }

    /// Whether the number is held as a non-negative integer.
    pub fn is_u64(&self) -> (r: bool)
        ensures
            r == self@.spec_is_u64(),
    {
        matches!(self.n, N::PosInt(_))
    }

    /// Whether the number is an integer that fits in i64.
    pub fn is_i64(&self) -> (r: bool)
        ensures
            r == self@.spec_is_i64(),
    {
        match self.n {
            N::PosInt(v) => v <= i64::MAX as u64,
            N::NegInt(_) => true,
            N::Float(_) => false,
        }
    }

    /// The bit pattern of the float encoding, and nothing for the integer
    /// encodings.
    pub fn float_bits(&self) -> (r: Option<u64>)
        ensures
            match self@ {
                NumberModel::Float(bits) => r == Some(bits),
                _ => r is None,
            },
    {
        match self.n {
            N::Float(bits) => Some(bits),
            _ => None,
        }
    }
}

/// Any JSON value: the closed set of variants a document is built from.
///
/// A value that holds borrowed strings is valid only while the buffer they
/// point into is; one built purely from owned strings carries no such tie.
#[derive(Debug, PartialEq)]
pub enum Value<'a> {
    /// A JSON `null`.
    Null,
    /// A JSON boolean.
    Bool(bool),
    /// A JSON number, integer or floating point.
    Number(Number),
    /// A JSON string, borrowed from the parsed text where possible.
    Str(CowStr<'a>),
    /// A JSON array: an ordered sequence of values.
    Array(Vec<Value<'a>>),
    /// A JSON object: ordered key/value entries backed by a vector.
    Object(ObjectAsVec<'a>),
}

impl<'a> View for Value<'a> {
    type V = ValueModel;

    #[verifier::inline]
    open spec fn view(&self) -> ValueModel {
        vmodel(*self)
    }
}

/// The model a value denotes.
pub open spec fn vmodel<'a>(v: Value<'a>) -> ValueModel
    decreases v,
{
    match v {
        Value::Null => ValueModel::Null,
        Value::Bool(b) => ValueModel::Bool(b),
        Value::Number(n) => ValueModel::Number(n@),
        Value::Str(s) => ValueModel::Str(s@),
        Value::Array(a) => ValueModel::Array(vec_models(a)),
        Value::Object(o) => ValueModel::Object(crate::object_vec::obj_models(o)),
    }
}

/// The models of a vector of values, elementwise and in order.
pub open spec fn vec_models<'a>(v: Vec<Value<'a>>) -> Seq<ValueModel>
    decreases v,
{
    models_of(v@)
}

/// The models of a sequence of values, elementwise and in order.
pub open spec fn models_of<'a>(s: Seq<Value<'a>>) -> Seq<ValueModel>
    decreases s,
{
    if s.len() <= 0 {
        Seq::empty()
    } else {
        seq![vmodel(s[0])] + models_of(s.subrange(1, s.len() as int))
    }
}

/// How `vmodel` evaluates, one constructor at a time.
pub broadcast proof fn lemma_vmodel<'a>(v: Value<'a>)
    ensures
        #[trigger] vmodel(v) == (match v {
            Value::Null => ValueModel::Null,
            Value::Bool(b) => ValueModel::Bool(b),
            Value::Number(n) => ValueModel::Number(n@),
            Value::Str(s) => ValueModel::Str(s@),
            Value::Array(a) => ValueModel::Array(vec_models(a)),
            Value::Object(o) => ValueModel::Object(crate::object_vec::obj_models(o)),
        }),
{
}

/// `vec_models` is `models_of` on the vector's sequence.
pub broadcast proof fn lemma_vec_models<'a>(v: Vec<Value<'a>>)
    ensures
        #[trigger] vec_models(v) == models_of(v@),
{
}

/// `models_of` keeps the length.
pub broadcast proof fn lemma_models_of_len<'a>(s: Seq<Value<'a>>)
    ensures
        (#[trigger] models_of(s)).len() == s.len(),
    decreases s.len(),
{
    if s.len() > 0 {
        lemma_models_of_len(s.subrange(1, s.len() as int));
    }
}

/// `models_of` maps each element to its model.
pub broadcast proof fn lemma_models_of_index<'a>(s: Seq<Value<'a>>, i: int)
    requires
        0 <= i < s.len(),
    ensures
        #[trigger] models_of(s)[i] == vmodel(s[i]),
    decreases s.len(),
{
    let rest = s.subrange(1, s.len() as int);
    lemma_models_of_len(rest);
    assert(models_of(s) == seq![vmodel(s[0])] + models_of(rest));
    if i == 0 {
        assert((seq![vmodel(s[0])] + models_of(rest))[0] == vmodel(s[0]));
    } else {
        lemma_models_of_index(rest, i - 1);
        assert((seq![vmodel(s[0])] + models_of(rest))[i] == models_of(rest)[i - 1]);
        assert(rest[i - 1] == s[i]);
    }
}

/// Appending a value appends its model.
pub broadcast proof fn lemma_models_of_push<'a>(s: Seq<Value<'a>>, v: Value<'a>)
    ensures
        #[trigger] models_of(s.push(v)) == models_of(s) + seq![vmodel(v)],
    decreases s.len(),
{
    let w = s.push(v);
    assert(w.len() == s.len() + 1);
    if s.len() == 0 {
        assert(models_of(w) == seq![vmodel(w[0])] + models_of(w.subrange(1, w.len() as int)));
        assert(w.subrange(1, w.len() as int) =~= Seq::<Value<'a>>::empty());
        assert(models_of(w) =~= models_of(s) + seq![vmodel(v)]);
    } else {
        assert(w.subrange(1, w.len() as int) =~= s.subrange(1, s.len() as int).push(v));
        lemma_models_of_push(s.subrange(1, s.len() as int), v);
        assert(models_of(w) == seq![vmodel(w[0])] + models_of(w.subrange(1, w.len() as int)));
        assert(models_of(s) == seq![vmodel(s[0])] + models_of(s.subrange(1, s.len() as int)));
        assert(w[0] == s[0]);
        assert(models_of(w) =~= models_of(s) + seq![vmodel(v)]);
    }
}

/// The borrow-versus-copy rule for one string: the string decodes some
/// literal of the source text, it is a borrowed view exactly when that
/// literal holds no escape (every character up to its closing quote stands
/// plain), and what it borrows is that very stretch of the source.
pub open spec fn str_decision<'a>(cs: CowStr<'a>, src: Seq<char>) -> bool {
    exists|i: int|
        #[trigger] crate::grammar::parse_string(src, i) matches Some((content, j)) && content
            == cs@ && (crate::grammar::plain_run(src, i, j - 1) <==> cs matches CowStr::Borrowed(
            _,
        )) && (cs matches CowStr::Borrowed(b) ==> b@ == src.subrange(i, j - 1))
}

/// The borrow-versus-copy rule, over a whole value: every string in it —
/// keys included — decodes a literal of the source text, borrows from the
/// source exactly when its literal is escape-free, and points into the
/// source wherever it borrows.
pub open spec fn borrow_decision<'a>(v: Value<'a>, src: Seq<char>) -> bool
    decreases v,
{
    match v {
        Value::Null => true,
        Value::Bool(_) => true,
        Value::Number(_) => true,
        Value::Str(cs) => str_decision(cs, src),
        Value::Array(a) => vec_borrow_decision(a, src),
        Value::Object(o) => crate::object_vec::obj_borrow_decision(o, src),
    }
}

/// `borrow_decision` over a vector of values.
pub open spec fn vec_borrow_decision<'a>(v: Vec<Value<'a>>, src: Seq<char>) -> bool
    decreases v,
{
    seq_borrow_decision(v@, src)
}

/// `borrow_decision` over a sequence of values.
pub open spec fn seq_borrow_decision<'a>(s: Seq<Value<'a>>, src: Seq<char>) -> bool
    decreases s,
{
    s.len() == 0 || (borrow_decision(s[0], src) && seq_borrow_decision(
        s.subrange(1, s.len() as int),
        src,
    ))
}

/// How `borrow_decision` evaluates, one constructor at a time.
pub broadcast proof fn lemma_borrow_decision<'a>(v: Value<'a>, src: Seq<char>)
    ensures
        #[trigger] borrow_decision(v, src) == (match v {
            Value::Null => true,
            Value::Bool(_) => true,
            Value::Number(_) => true,
            Value::Str(cs) => str_decision(cs, src),
            Value::Array(a) => vec_borrow_decision(a, src),
            Value::Object(o) => crate::object_vec::obj_borrow_decision(o, src),
        }),
{
}

/// `vec_borrow_decision` is `seq_borrow_decision` on the vector's sequence.
pub broadcast proof fn lemma_vec_borrow_decision<'a>(v: Vec<Value<'a>>, src: Seq<char>)
    ensures
        #[trigger] vec_borrow_decision(v, src) == seq_borrow_decision(v@, src),
{
}

/// `seq_borrow_decision` holds exactly when it holds of every element.
pub broadcast proof fn lemma_seq_borrow_decision<'a>(s: Seq<Value<'a>>, src: Seq<char>)
    ensures
        #[trigger] seq_borrow_decision(s, src) <==> (forall|i: int|
            0 <= i < s.len() ==> borrow_decision(#[trigger] s[i], src)),
    decreases s.len(),
{
    broadcast use vstd::seq::group_seq_axioms;

    let rest = s.subrange(1, s.len() as int);
    if s.len() > 0 {
        lemma_seq_borrow_decision(rest, src);
        if seq_borrow_decision(s, src) {
            assert forall|i: int| 0 <= i < s.len() implies borrow_decision(
                #[trigger] s[i],
                src,
            ) by {
                if i > 0 {
                    assert(rest[i - 1] == s[i]);
                }
            }
        } else {
            if forall|i: int| 0 <= i < s.len() ==> borrow_decision(#[trigger] s[i], src) {
                assert forall|i: int| 0 <= i < rest.len() implies borrow_decision(
                    #[trigger] rest[i],
                    src,
                ) by {
                    assert(rest[i] == s[i + 1]);
                }
                assert(seq_borrow_decision(s, src));
            }
        }
    }
}

/// Every fact modules need to reason about value models.
pub broadcast group group_value_model {
    lemma_borrow_decision,
    lemma_vec_borrow_decision,
    lemma_seq_borrow_decision,
    lemma_vmodel,
    lemma_vec_models,
    lemma_models_of_len,
    lemma_models_of_index,
    lemma_models_of_push,
}

impl<'a> Default for Value<'a> {
    /// The default value is `Null`.
    fn default() -> (r: Self)
        ensures
            r@ == ValueModel::Null,
    {
        Value::Null
    }
}

impl<'a> Clone for Value<'a> {
    /// A deep copy denoting the same model; borrowed strings stay borrowed.
    #[verifier::loop_isolation(false)]
    fn clone(&self) -> (r: Self)
        ensures
            r@ == self@,
        decreases self,
    {
        match self {
            Value::Null => Value::Null,
            Value::Bool(b) => Value::Bool(*b),
            Value::Number(n) => Value::Number(*n),
            Value::Str(s) => Value::Str(s.clone()),
            Value::Array(a) => {
                let mut out: Vec<Value<'a>> = Vec::new();
                let mut i: usize = 0;
                while i < a.len()
                    invariant
                        0 <= i <= a@.len(),
                        out@.len() == i,
                        forall|j: int| 0 <= j < i ==> #[trigger] out@[j]@ == a@[j]@,
                    decreases a@.len() - i,
                {
                    proof {
                        assert(*self == Value::Array(*a));
                        assert(decreases_to!(*self => *a));
                        assert(decreases_to!(*a => a@));
                        assert(decreases_to!(a@ => a@[i as int]));
                    }
                    out.push(a[i].clone());
                    i += 1;
                }
                let r = Value::Array(out);
                proof {
                    broadcast use {group_value_model, crate::object_vec::group_object_model};

                    assert(vec_models(out) =~= vec_models(*a));
                }
                r
            },
            Value::Object(o) => Value::Object(o.clone()),
        }
    }
}

impl<'a> Value<'a> {
    /// Whether this is `Null`.
    pub fn is_null(&self) -> (r: bool)
        ensures
            r == (self@ matches ValueModel::Null),
    {
        matches!(self, Value::Null)
    }

    /// Whether this is an array.
    pub fn is_array(&self) -> (r: bool)
        ensures
            r == (self@ matches ValueModel::Array(_)),
    {
        matches!(self, Value::Array(_))
    }

    /// Whether this is an object.
    pub fn is_object(&self) -> (r: bool)
        ensures
            r == (self@ matches ValueModel::Object(_)),
    {
        matches!(self, Value::Object(_))
    }

    /// Whether this is a boolean.
    pub fn is_bool(&self) -> (r: bool)
        ensures
            r == (self@ matches ValueModel::Bool(_)),
    {
        matches!(self, Value::Bool(_))
    }

    /// Whether this is a number.
    pub fn is_number(&self) -> (r: bool)
        ensures
            r == (self@ matches ValueModel::Number(_)),
    {
        matches!(self, Value::Number(_))
    }

    /// Whether this is a string.
    pub fn is_string(&self) -> (r: bool)
        ensures
            r == (self@ matches ValueModel::Str(_)),
    {
        matches!(self, Value::Str(_))
    }

    /// Whether this is a number that fits in i64; `as_i64` then returns it.
    pub fn is_i64(&self) -> (r: bool)
        ensures
            r == (self@ matches ValueModel::Number(n) && n.spec_is_i64()),
    {
        match self {
            Value::Number(n) => n.is_i64(),
            _ => false,
        }
    }

    /// Whether this is a number held as a non-negative integer.
    pub fn is_u64(&self) -> (r: bool)
        ensures
            r == (self@ matches ValueModel::Number(n) && n.spec_is_u64()),
    {
        match self {
            Value::Number(n) => n.is_u64(),
            _ => false,
        }
    }

    /// Whether this is a number held as a float.
    pub fn is_f64(&self) -> (r: bool)
        ensures
            r == (self@ matches ValueModel::Number(n) && n.spec_is_f64()),
    {
        match self {
            Value::Number(n) => n.is_f64(),
            _ => false,
        }
    }

    /// The elements if this is an array, and nothing otherwise.
    pub fn as_array(&self) -> (r: Option<&Vec<Value<'a>>>)
        ensures
            match r {
                Some(a) => self@ == ValueModel::Array(vec_models(*a)),
                None => !(self@ matches ValueModel::Array(_)),
            },
    {
        match self {
            Value::Array(a) => Some(a),
            _ => None,
        }
    }

    /// The object if this is one, and nothing otherwise.
    pub fn as_object(&self) -> (r: Option<&ObjectAsVec<'a>>)
        ensures
            match r {
                Some(o) => self@ == ValueModel::Object(o@),
                None => !(self@ matches ValueModel::Object(_)),
            },
    {
        match self {
            Value::Object(o) => Some(o),
            _ => None,
        }
    }

    /// The boolean if this is one, and nothing otherwise.
    pub fn as_bool(&self) -> (r: Option<bool>)
        ensures
            match r {
                Some(b) => self@ == ValueModel::Bool(b),
                None => !(self@ matches ValueModel::Bool(_)),
            },
    {
        match self {
            Value::Bool(b) => Some(*b),
            _ => None,
        }
    }

    /// The string content if this is a string, and nothing otherwise.
    pub fn as_str(&self) -> (r: Option<&str>)
        ensures
            match r {
                Some(s) => self@ == ValueModel::Str(s@),
                None => !(self@ matches ValueModel::Str(_)),
            },
    {
        match self {
            Value::Str(s) => Some(s.as_str()),
            _ => None,
        }
    }

    /// The number as an i64 where the integer encoding fits, and nothing
    /// otherwise.
    pub fn as_i64(&self) -> (r: Option<i64>)
        ensures
            match self@ {
                ValueModel::Number(n) => r == n.spec_as_i64(),
                _ => r is None,
            },
    {
        match self {
            Value::Number(n) => n.as_i64(),
            _ => None,
        }
    }

    /// The number as a u64 for the non-negative integer encoding, and nothing
    /// otherwise.
    pub fn as_u64(&self) -> (r: Option<u64>)
        ensures
            match self@ {
                ValueModel::Number(n) => r == n.spec_as_u64(),
                _ => r is None,
            },
    {
        match self {
            Value::Number(n) => n.as_u64(),
            _ => None,
        }
    }

    /// The elements, one reference each, if this is an array.
    #[verifier::loop_isolation(false)]
    pub fn iter_array(&self) -> (r: Option<Vec<&Value<'a>>>)
        ensures
            match r {
                Some(list) => {
                    &&& self@ matches ValueModel::Array(m)
                    &&& m.len() == list@.len()
                    &&& forall|i: int| 0 <= i < list@.len() ==> m[i] == #[trigger] list@[i]@
                },
                None => !(self@ matches ValueModel::Array(_)),
            },
    {
        broadcast use {group_value_model, crate::object_vec::group_object_model};

        match self {
            Value::Array(a) => {
                let mut out: Vec<&Value<'a>> = Vec::new();
                let mut i: usize = 0;
                while i < a.len()
                    invariant
                        0 <= i <= a@.len(),
                        out@.len() == i,
                        forall|j: int| 0 <= j < i ==> #[trigger] out@[j]@ == a@[j]@,
                    decreases a@.len() - i,
                {
                    out.push(&a[i]);
                    i += 1;
                }
                Some(out)
            },
            _ => None,
        }
    }

    /// The entries, as key and value references, if this is an object.
    pub fn iter_object(&self) -> (r: Option<Vec<(&str, &Value<'a>)>>)
        ensures
            match r {
                Some(list) => {
                    &&& self@ matches ValueModel::Object(m)
                    &&& m.len() == list@.len()
                    &&& forall|i: int|
                        0 <= i < list@.len() ==> m[i] == (#[trigger] list@[i].0@, list@[i].1@)
                },
                None => !(self@ matches ValueModel::Object(_)),
            },
    {
        match self {
            Value::Object(o) => Some(o.iter()),
            _ => None,
        }
    }
}

} // verus!
