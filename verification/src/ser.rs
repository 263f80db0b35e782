//! The executable JSON serializer: re-emits a value as text, proved to
//! produce exactly what the grammar's serialization specification says.

use vstd::prelude::*;

use crate::chars::push_char;
use crate::grammar::dec_digits;
use crate::grammar::esc_of;
use crate::grammar::escape_chars;
use crate::grammar::float_bits_of_token;
use crate::grammar::float_token_of;
use crate::grammar::lemma_escape_snoc;
use crate::grammar::lemma_ser_items_snoc;
use crate::grammar::lemma_ser_members_snoc;
use crate::grammar::ser_items;
use crate::grammar::ser_member;
use crate::grammar::ser_members;
use crate::grammar::ser_value;
use crate::model::NumberModel;
use crate::model::ValueModel;
use crate::value::Number;
use crate::value::Value;

verus! {

broadcast use {
    vstd::std_specs::vec::group_vec_axioms,
    vstd::seq::group_seq_axioms,
    vstd::string::group_string_axioms,
    crate::value::group_value_model,
    crate::object_vec::group_object_model,
};

/// Relies on serde_json's float printing (`Number::from_f64` and its text
/// form, a shortest-round-trip formatter underneath) together with its
/// full-precision number reader: the canonical shortest decimal text of a
/// finite double, which reads back to the very same value. The text depends
/// on the bits alone; it is named `float_token_of`. The body first
/// reassembles the double from its sign, exponent and mantissa fields. The
/// exponent, between -1074 and 971, is applied in two halves so that each
/// power of two lies within the normal range (magnitude at most 537), where
/// it is computed and inverted exactly; the mantissa times the first half
/// stays normal and finite, so both products round to nothing and the
/// reassembled value is exactly the double the bits denote.
#[verifier::external_body]
fn float_text(bits: u64) -> (r: String)
    requires
        crate::is_finite_bits(bits),
    ensures
        r@ == float_token_of(bits),
        float_bits_of_token(r@) == Some(bits),
{
    let frac = bits & 0x000F_FFFF_FFFF_FFFF;
    let expf = ((bits >> 52) & 0x7FF) as i32;
    let m = if expf == 0 { frac } else { frac | (1u64 << 52) };
    let e = if expf == 0 { -1074 } else { expf - 1075 };
    let mf = serde_json::Number::from(m).as_f64().unwrap();
    let two = serde_json::Number::from(2u64).as_f64().unwrap();
    let mag = mf * two.powi(e / 2) * two.powi(e - e / 2);
    let val = if bits >> 63 == 1 { -mag } else { mag };
    serde_json::Number::from_f64(val).unwrap().to_string()
}

/// One decimal digit as a character.
fn digit_char(d: u64) -> (r: char)
    requires
        d < 10,
    ensures
        r as int == d + '0' as int,
{
    match char::from_u32((d as u32) + 48) {
        Some(c) => c,
        None => {
            proof {
                assert(false);
            }
            ' '
        },
    }
}

/// Appends the decimal text of a non-negative integer.
fn push_u64(out: &mut String, n: u64)
    ensures
        final(out)@ == old(out)@ + dec_digits(n as int),
    decreases n,
{
    if n < 10 {
        push_char(out, digit_char(n));
        proof {
            assert(old(out)@ + dec_digits(n as int) =~= old(out)@.push(
                ((n + '0' as int) as char),
            ));
        }
    } else {
        push_u64(out, n / 10);
        push_char(out, digit_char(n % 10));
        proof {
            assert(old(out)@ + dec_digits(n as int) =~= (old(out)@ + dec_digits(n as int / 10))
                .push(((n as int % 10 + '0' as int) as char)));
        }
    }
}

/// A hexadecimal digit as a lower-case character.
fn hex_char(d: u32) -> (r: char)
    requires
        d < 16,
    ensures
        r as int == if d < 10 {
            d + '0' as int
        } else {
            d - 10 + 'a' as int
        },
{
    let code: u32 = if d < 10 {
        d + 48
    } else {
        d - 10 + 97
    };
    match char::from_u32(code) {
        Some(c) => c,
        None => {
            proof {
                assert(false);
            }
            ' '
        },
    }
}

/// Appends one character in its serialized form, escaped as needed.
fn push_escaped(out: &mut String, c: char)
    ensures
        final(out)@ == old(out)@ + esc_of(c),
{
    let cu = c as u32;
    if c == '"' {
        push_char(out, '\\');
        push_char(out, '"');
        proof {
            assert(old(out)@ + esc_of(c) =~= old(out)@.push('\\').push('"'));
        }
    } else if c == '\\' {
        push_char(out, '\\');
        push_char(out, '\\');
        proof {
            assert(old(out)@ + esc_of(c) =~= old(out)@.push('\\').push('\\'));
        }
    } else if cu == 8 {
        push_char(out, '\\');
        push_char(out, 'b');
        proof {
            assert(old(out)@ + esc_of(c) =~= old(out)@.push('\\').push('b'));
        }
    } else if c == '\t' {
        push_char(out, '\\');
        push_char(out, 't');
        proof {
            assert(old(out)@ + esc_of(c) =~= old(out)@.push('\\').push('t'));
        }
    } else if c == '\n' {
        push_char(out, '\\');
        push_char(out, 'n');
        proof {
            assert(old(out)@ + esc_of(c) =~= old(out)@.push('\\').push('n'));
        }
    } else if cu == 12 {
        push_char(out, '\\');
        push_char(out, 'f');
        proof {
            assert(old(out)@ + esc_of(c) =~= old(out)@.push('\\').push('f'));
        }
    } else if c == '\r' {
        push_char(out, '\\');
        push_char(out, 'r');
        proof {
            assert(old(out)@ + esc_of(c) =~= old(out)@.push('\\').push('r'));
        }
    } else if cu < 0x20 {
        push_char(out, '\\');
        push_char(out, 'u');
        push_char(out, '0');
        push_char(out, '0');
        push_char(out, hex_char(cu / 16));
        push_char(out, hex_char(cu % 16));
        proof {
            assert(old(out)@ + esc_of(c) =~= old(out)@.push('\\').push('u').push('0').push(
                '0',
            ).push(((c as int / 16 + '0' as int) as char)).push(
                (if c as int % 16 < 10 {
                    (c as int % 16 + '0' as int) as char
                } else {
                    (c as int % 16 - 10 + 'a' as int) as char
                }),
            ));
        }
    } else {
        push_char(out, c);
        proof {
            assert(old(out)@ + esc_of(c) =~= old(out)@.push(c));
        }
    }
}

/// Appends the serialized form of a string: quote, escaped body, quote.
#[verifier::loop_isolation(false)]
fn push_string_body(out: &mut String, text: &str)
    ensures
        final(out)@ == old(out)@ + escape_chars(text@),
{
    broadcast use lemma_escape_snoc;

    let len = text.unicode_len();
    let mut i: usize = 0;
    while i < len
        invariant
            0 <= i <= len,
            len == text@.len(),
            out@ == old(out)@ + escape_chars(text@.subrange(0, i as int)),
        decreases len - i,
    {
        let c = text.get_char(i);
        push_escaped(out, c);
        proof {
            assert(text@.subrange(0, i + 1) =~= text@.subrange(0, i as int).push(text@[i as int]));
            assert(out@ =~= old(out)@ + escape_chars(text@.subrange(0, i + 1)));
        }
        i += 1;
    }
    proof {
        assert(text@.subrange(0, len as int) =~= text@);
    }
}

/// Appends the serialized text of a value: no whitespace, entries and
/// elements in stored order, numbers in canonical form.
#[verifier::loop_isolation(false)]
#[verifier::rlimit(60)]
fn write_value(out: &mut String, v: &Value<'_>)
    requires
        v@.wf(),
    ensures
        final(out)@ == old(out)@ + ser_value(v@),
    decreases v,
{
    match v {
        Value::Null => {
            out.append("null");
            proof {
                reveal_strlit("null");
                assert("null"@ =~= seq!['n', 'u', 'l', 'l']);
            }
        },
        Value::Bool(b) => {
            if *b {
                out.append("true");
                proof {
                    reveal_strlit("true");
                    assert("true"@ =~= seq!['t', 'r', 'u', 'e']);
                }
            } else {
                out.append("false");
                proof {
                    reveal_strlit("false");
                    assert("false"@ =~= seq!['f', 'a', 'l', 's', 'e']);
                }
            }
        },
        Value::Number(n) => {
            write_number(out, n);
        },
        Value::Str(cs) => {
            push_char(out, '"');
            push_string_body(out, cs.as_str());
            push_char(out, '"');
            proof {
                assert(old(out)@ + ser_value(v@) =~= ((old(out)@.push('"')) + escape_chars(cs@))
                    .push('"'));
            }
        },
        Value::Array(a) => {
            let ghost models = crate::value::models_of(a@);
            push_char(out, '[');
            let ghost base = out@;
            let mut i: usize = 0;
            while i < a.len()
                invariant
                    0 <= i <= a@.len(),
                    models == crate::value::models_of(a@),
                    models.len() == a@.len(),
                    v@.wf(),
                    *v == Value::Array(*a),
                    base == old(out)@.push('['),
                    out@ == base + ser_items(models.subrange(0, i as int)),
                decreases a@.len() - i,
            {
                broadcast use {lemma_ser_items_snoc};

                if i > 0 {
                    push_char(out, ',');
                }
                proof {
                    assert(decreases_to!(*v => *a));
                    assert(decreases_to!(*a => a@));
                    assert(decreases_to!(a@ => a@[i as int]));
                    assert(models[i as int] == a@[i as int]@);
                    assert(v@ == ValueModel::Array(models));
                    crate::model::lemma_wf_array(models, i as int);
                }
                write_value(out, &a[i]);
                proof {
                    assert(models.subrange(0, i + 1) =~= models.subrange(0, i as int).push(
                        models[i as int],
                    ));
                    if i == 0 {
                        assert(models.subrange(0, 0int) =~= Seq::<ValueModel>::empty());
                        assert(out@ =~= base + ser_items(models.subrange(0, i + 1)));
                    } else {
                        assert(out@ =~= base + ser_items(models.subrange(0, i + 1)));
                    }
                }
                i += 1;
            }
            push_char(out, ']');
            proof {
                assert(models.subrange(0, models.len() as int) =~= models);
                assert(out@ =~= old(out)@ + ser_value(v@));
            }
        },
        Value::Object(o) => {
            let ghost models = crate::object_vec::entry_models(o.0@);
            push_char(out, '{');
            let ghost base = out@;
            let mut i: usize = 0;
            while i < o.0.len()
                invariant
                    0 <= i <= o.0@.len(),
                    models == crate::object_vec::entry_models(o.0@),
                    models.len() == o.0@.len(),
                    v@.wf(),
                    *v == Value::Object(*o),
                    base == old(out)@.push('{'),
                    out@ == base + ser_members(models.subrange(0, i as int)),
                decreases o.0@.len() - i,
            {
                broadcast use {lemma_ser_members_snoc};

                if i > 0 {
                    push_char(out, ',');
                }
                let ghost mid = out@;
                let pair = &o.0[i];
                push_char(out, '"');
                push_string_body(out, pair.0.as_str());
                push_char(out, '"');
                push_char(out, ':');
                proof {
                    assert(decreases_to!(*v => *o));
                    assert(decreases_to!(*o => o.0));
                    assert(decreases_to!(o.0 => o.0@));
                    assert(decreases_to!(o.0@ => o.0@[i as int]));
                    assert(models[i as int] == (o.0@[i as int].0@, o.0@[i as int].1@));
                    assert(v@ == ValueModel::Object(models));
                    crate::model::lemma_wf_object(models, i as int);
                }
                write_value(out, &pair.1);
                proof {
                    let e = models[i as int];
                    assert(out@ =~= mid + ser_member(e));
                    assert(models.subrange(0, i + 1) =~= models.subrange(0, i as int).push(e));
                    if i == 0 {
                        assert(models.subrange(0, 0int) =~= Seq::<(Seq<char>, ValueModel)>::empty());
                        assert(out@ =~= base + ser_members(models.subrange(0, i + 1)));
                    } else {
                        assert(out@ =~= base + ser_members(models.subrange(0, i + 1)));
                    }
                }
                i += 1;
            }
            push_char(out, '}');
            proof {
                assert(models.subrange(0, models.len() as int) =~= models);
                assert(out@ =~= old(out)@ + ser_value(v@));
            }
        },
    }
}

/// Appends the canonical text of a number, by its own encoding.
fn write_number(out: &mut String, n: &Number)
    requires
        NumberModel::wf(n@),
    ensures
        final(out)@ == old(out)@ + ser_value(ValueModel::Number(n@)),
{
    match n.as_u64() {
        Some(u) => {
            push_u64(out, u);
        },
        None => {
            match n.as_i64() {
                Some(iv) => {
                    push_char(out, '-');
                    let mag: u64 = if iv == i64::MIN {
                        0x8000_0000_0000_0000u64
                    } else {
                        (-iv) as u64
                    };
                    push_u64(out, mag);
                    proof {
                        assert(old(out)@ + (seq!['-'] + dec_digits(mag as int)) =~= (old(
                            out,
                        )@.push('-')) + dec_digits(mag as int));
                    }
                },
                None => {
                    match n.float_bits() {
                        Some(bits) => {
                            let t = float_text(bits);
                            out.append(t.as_str());
                        },
                        None => {
                            proof {
                                assert(false);
                            }
                        },
                    }
                },
            }
        },
    }
}

impl Number {
    /// The number widened to a double, by its bit pattern: the float encoding
    /// gives its own bits; an integer encoding reads its decimal text back
    /// through the number grammar, yielding the nearest double. The widening
    /// never fails.
    pub fn as_f64(&self) -> (r: Option<u64>)
        ensures
            r == crate::grammar::spec_widened_bits(self@),
            r is Some,
    {
        proof {
            use_type_invariant(*self);
        }
        match self.as_u64() {
            Some(u) => {
                proof {
                    assert(self@ == NumberModel::PosInt(u));
                }
                let mut t = String::new();
                push_u64(&mut t, u);
                proof {
                    assert(t@ =~= dec_digits(u as int));
                    assert(exists|n: u64| t@ == dec_digits(n as int)) by {
                        assert(t@ == dec_digits(u as int));
                    }
                }
                crate::de::parse_float_bits(t.as_str())
            },
            None => {
                match self.as_i64() {
                    Some(v) => {
                        proof {
                            assert(self@ == NumberModel::NegInt(v));
                            assert(v < 0);
                        }
                        let mut t = String::new();
                        push_char(&mut t, '-');
                        let mag: u64 = if v == i64::MIN {
                            0x8000_0000_0000_0000u64
                        } else {
                            (-v) as u64
                        };
                        push_u64(&mut t, mag);
                        proof {
                            assert(Seq::<char>::empty().push('-') =~= seq!['-']);
                            assert(t@ =~= seq!['-'] + dec_digits(mag as int));
                            assert(exists|n: u64|
                                0 < n <= 0x8000_0000_0000_0000 && t@ == seq!['-'] + dec_digits(
                                    n as int,
                                )) by {
                                assert(0 < mag <= 0x8000_0000_0000_0000 && t@ == seq!['-']
                                    + dec_digits(mag as int));
                            }
                        }
                        crate::de::parse_float_bits(t.as_str())
                    },
                    None => {
                        match self.float_bits() {
                            Some(b) => {
                                proof {
                                    assert(self@ == NumberModel::Float(b));
                                }
                                Some(b)
                            },
                            None => {
                                proof {
                                    assert(false);
                                }
                                None
                            },
                        }
                    },
                }
            },
        }
    }
}

impl<'a> Value<'a> {
    /// The number widened to a double where this is a number, by its bit
    /// pattern, and nothing otherwise.
    pub fn as_f64(&self) -> (r: Option<u64>)
        ensures
            match self@ {
                ValueModel::Number(n) => r == crate::grammar::spec_widened_bits(n) && r is Some,
                _ => r is None,
            },
    {
        match self {
            Value::Number(n) => n.as_f64(),
            _ => None,
        }
    }

    /// The value as JSON text: `null`, `true`/`false`, numbers in their
    /// encoding's canonical form, strings with standard escaping, arrays and
    /// objects in stored order with duplicate keys kept. For float-free
    /// values, parsing the text gives this value back.
    pub fn to_json_string(&self) -> (r: String)
        requires
            self@.wf(),
        ensures
            r@ == ser_value(self@),
            crate::laws::float_free(self@) ==> crate::grammar::parse_text(r@) == Some(self@),
    {
        let mut out = String::new();
        write_value(&mut out, self);
        proof {
            assert(Seq::<char>::empty() + ser_value(self@) =~= ser_value(self@));
            if crate::laws::float_free(self@) {
                crate::laws::lemma_round_trip(self@);
            }
        }
        out
    }
}

} // verus!
