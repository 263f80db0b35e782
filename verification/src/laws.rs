//! The round-trip law: parsing the serialized text of a value yields the
//! value back. Stated over the grammar's own parse and serialization
//! functions, which the executable parser and serializer are proved to match.

use vstd::prelude::*;

use crate::grammar::dec_digits;
use crate::grammar::digit_of;
use crate::grammar::digits_end;
use crate::grammar::digits_val;
use crate::grammar::is_digit;
use crate::grammar::esc_of;
use crate::grammar::escape_chars;
use crate::grammar::hex4;
use crate::grammar::hex_val;
use crate::grammar::is_ws;
use crate::grammar::parse_escape;
use crate::grammar::parse_string;
use crate::grammar::lemma_digits_end;
use crate::grammar::parse_number;
use crate::grammar::parse_value;
use crate::grammar::ser_items;
use crate::grammar::ser_member;
use crate::grammar::ser_members;
use crate::grammar::ser_value;
use crate::grammar::skip_ws;
use crate::model::NumberModel;
use crate::model::ValueModel;

verus! {

broadcast use vstd::seq::group_seq_axioms;

/// Every character's code is a valid Unicode scalar value.
proof fn lemma_char_range(c: char)
    ensures
        0 <= c as int <= 0x10FFFF,
{
}

/// A character that ends a number token: anything that cannot extend it.
pub open spec fn is_delim(c: char) -> bool {
    !is_digit(c) && c != '.' && c != 'e' && c != 'E' && c != '+' && c != '-'
}

/// A model with no float leaf anywhere.
pub open spec fn float_free(m: ValueModel) -> bool
    decreases m,
{
    match m {
        ValueModel::Null => true,
        ValueModel::Bool(_) => true,
        ValueModel::Number(n) => !(n is Float),
        ValueModel::Str(_) => true,
        ValueModel::Array(a) => ff_seq(a),
        ValueModel::Object(o) => ff_entries(o),
    }
}

/// No float leaf in any element of a sequence of models.
pub open spec fn ff_seq(s: Seq<ValueModel>) -> bool
    decreases s,
{
    s.len() == 0 || (float_free(s[0]) && ff_seq(s.subrange(1, s.len() as int)))
}

/// No float leaf in any value of a sequence of object entries.
pub open spec fn ff_entries(s: Seq<(Seq<char>, ValueModel)>) -> bool
    decreases s,
{
    s.len() == 0 || (float_free(s[0].1) && ff_entries(s.subrange(1, s.len() as int)))
}

/// The decimal text of a non-negative integer: at least one character, all of
/// them digits, no leading zero unless the number is zero, and the first
/// character is a digit.
proof fn lemma_dec_digits_shape(n: int)
    requires
        n >= 0,
    ensures
        dec_digits(n).len() >= 1,
        forall|k: int| 0 <= k < dec_digits(n).len() ==> is_digit(#[trigger] dec_digits(n)[k]),
        n > 0 ==> dec_digits(n)[0] != '0',
        n == 0 ==> dec_digits(n) =~= seq!['0'],
        n < 10 ==> dec_digits(n).len() == 1,
    decreases n,
{
    if n < 10 {
        assert(dec_digits(n) == seq![((n + '0' as int) as char)]);
        assert(((n + '0' as int) as char) as int == n + '0' as int);
        assert(is_digit(dec_digits(n)[0]));
    } else {
        lemma_dec_digits_shape(n / 10);
        let last = ((n % 10 + '0' as int) as char);
        assert(last as int == n % 10 + '0' as int);
        assert(dec_digits(n) == dec_digits(n / 10) + seq![last]);
        assert(dec_digits(n)[0] == dec_digits(n / 10)[0]);
        assert forall|k: int| 0 <= k < dec_digits(n).len() implies is_digit(
            #[trigger] dec_digits(n)[k],
        ) by {
            if k < dec_digits(n / 10).len() {
                assert(dec_digits(n)[k] == dec_digits(n / 10)[k]);
            } else {
                assert(dec_digits(n)[k] == last);
            }
        }
    }
}

/// A run of digits bounded on the right by a non-digit or the end scans to
/// exactly its bound.
proof fn lemma_digits_end_run(s: Seq<char>, i: int, j: int)
    requires
        0 <= i <= j <= s.len(),
        forall|k: int| i <= k < j ==> is_digit(#[trigger] s[k]),
        j == s.len() || !is_digit(s[j]),
    ensures
        digits_end(s, i) == j,
    decreases j - i,
{
    if i < j {
        lemma_digits_end_run(s, i + 1, j);
    }
}

/// Reading back the decimal text of a non-negative integer gives the integer.
proof fn lemma_digits_val_of_dec(s: Seq<char>, i: int, n: int)
    requires
        n >= 0,
        0 <= i,
        i + dec_digits(n).len() <= s.len(),
        s.subrange(i, i + dec_digits(n).len()) == dec_digits(n),
    ensures
        digits_val(s, i, i + dec_digits(n).len()) == n,
    decreases n,
{
    lemma_dec_digits_shape(n);
    let len = dec_digits(n).len() as int;
    if n < 10 {
        assert(s[i] == dec_digits(n)[0]);
        assert(digits_val(s, i, i + 1) == digits_val(s, i, i) * 10 + digit_of(s[i]));
        assert(s[i] as int == n + '0' as int);
    } else {
        lemma_dec_digits_shape(n / 10);
        let plen = dec_digits(n / 10).len() as int;
        assert(dec_digits(n) == dec_digits(n / 10) + seq![((n % 10 + '0' as int) as char)]);
        assert(len == plen + 1);
        assert(s.subrange(i, i + plen) =~= dec_digits(n / 10)) by {
            assert forall|k: int| 0 <= k < plen implies #[trigger] s.subrange(i, i + plen)[k]
                == dec_digits(n / 10)[k] by {
                assert(s[i + k] == s.subrange(i, i + len)[k]);
                assert(dec_digits(n)[k] == dec_digits(n / 10)[k]);
            }
        }
        lemma_digits_val_of_dec(s, i, n / 10);
        assert(s[i + plen] == dec_digits(n)[plen]);
        assert(s[i + plen] as int == n % 10 + '0' as int);
        assert(digits_val(s, i, i + len) == digits_val(s, i, i + plen) * 10 + digit_of(
            s[i + plen],
        ));
    }
}

/// Parsing the serialized text of a well-formed integer number, bounded by a
/// delimiter, gives the number back and consumes exactly its text.
proof fn lemma_parse_ser_number(s: Seq<char>, i: int, n: NumberModel)
    requires
        n.wf(),
        !(n is Float),
        0 <= i,
        i + ser_value(ValueModel::Number(n)).len() <= s.len(),
        s.subrange(i, i + ser_value(ValueModel::Number(n)).len()) == ser_value(
            ValueModel::Number(n),
        ),
        i + ser_value(ValueModel::Number(n)).len() == s.len() || is_delim(
            s[i + ser_value(ValueModel::Number(n)).len()],
        ),
    ensures
        parse_number(s, i) == Some(
            (ValueModel::Number(n), i + ser_value(ValueModel::Number(n)).len()),
        ),
{
    let t = ser_value(ValueModel::Number(n));
    let len = t.len() as int;
    match n {
        NumberModel::PosInt(u) => {
            lemma_dec_digits_shape(u as int);
            assert(t == dec_digits(u as int));
            assert forall|k: int| i <= k < i + len implies is_digit(#[trigger] s[k]) by {
                assert(s[k] == t[k - i]);
            }
            assert(s[i] == t[0]);
            assert(is_digit(s[i]));
            assert(s[i] != '-');
            lemma_digits_end_run(s, i, i + len);
            lemma_digits_val_of_dec(s, i, u as int);
            if s[i] == '0' {
                assert(t[0] == '0');
                assert(u == 0) by {
                    if u > 0 {
                        assert(t[0] != '0');
                    }
                }
                assert(len == 1);
            } else {
                assert(digits_end(s, i) == i + len);
            }
            let int_end = if s[i] == '0' {
                i + 1
            } else {
                digits_end(s, i)
            };
            assert(int_end == i + len);
            assert(int_end == s.len() || is_delim(s[int_end]));
            assert(digits_val(s, i, int_end) == u as int);
        },
        NumberModel::NegInt(v) => {
            let mag = -(v as int);
            lemma_dec_digits_shape(mag);
            assert(t == seq!['-'] + dec_digits(mag));
            assert(s[i] == t[0]);
            assert(s[i] == '-');
            let d0 = i + 1;
            let dlen = dec_digits(mag).len() as int;
            assert(len == dlen + 1);
            assert(s.subrange(d0, d0 + dlen) =~= dec_digits(mag)) by {
                assert forall|k: int| 0 <= k < dlen implies #[trigger] s.subrange(d0, d0 + dlen)[k]
                    == dec_digits(mag)[k] by {
                    assert(s[d0 + k] == t[k + 1]);
                    assert(t[k + 1] == dec_digits(mag)[k]);
                }
            }
            assert forall|k: int| d0 <= k < d0 + dlen implies is_digit(#[trigger] s[k]) by {
                assert(s[k] == dec_digits(mag)[k - d0]);
            }
            assert(is_digit(s[d0]));
            lemma_digits_end_run(s, d0, d0 + dlen);
            lemma_digits_val_of_dec(s, d0, mag);
            if s[d0] == '0' {
                assert(dec_digits(mag)[0] == '0');
                assert(mag == 0) by {
                    if mag > 0 {
                        assert(dec_digits(mag)[0] != '0');
                    }
                }
                assert(false);
            }
            let int_end = digits_end(s, d0);
            assert(int_end == i + len);
            assert(int_end == s.len() || is_delim(s[int_end]));
            assert(digits_val(s, d0, int_end) == mag);
            assert(0 < mag <= 0x8000_0000_0000_0000);
            assert((-digits_val(s, d0, int_end)) as i64 == v);
        },
        NumberModel::Float(_) => {
            assert(false);
        },
    }
}

/// Parsing the serialized body of a string (escaped characters, then the
/// closing quote) decodes back to exactly the original characters.
proof fn lemma_string_body(s: Seq<char>, i: int, chars: Seq<char>)
    requires
        0 <= i,
        i + escape_chars(chars).len() + 1 <= s.len(),
        s.subrange(i, i + escape_chars(chars).len() + 1) == escape_chars(chars) + seq!['"'],
    ensures
        parse_string(s, i) == Some((chars, i + escape_chars(chars).len() + 1)),
    decreases chars.len(),
{
    let body = escape_chars(chars);
    let t = body + seq!['"'];
    let tl = t.len() as int;
    assert forall|k: int| 0 <= k < tl implies s[i + k] == #[trigger] t[k] by {
        assert(s.subrange(i, i + tl)[k] == s[i + k]);
    }
    if chars.len() == 0 {
        assert(body =~= Seq::<char>::empty());
        assert(t[0] == '"');
        assert(s[i] == '"');
        assert(parse_string(s, i) == Some((Seq::<char>::empty(), i + 1)));
        assert(Seq::<char>::empty() =~= chars);
    } else {
        let c = chars[0];
        let rest = chars.subrange(1, chars.len() as int);
        assert(chars =~= seq![c] + rest);
        assert(body == esc_of(c) + escape_chars(rest));
        let e = esc_of(c);
        let el = e.len() as int;
        let rbl = escape_chars(rest).len() as int;
        assert forall|k: int| 0 <= k < el implies s[i + k] == #[trigger] e[k] by {
            assert(t[k] == e[k]);
        }
        // The tail holds the rest's body followed by the quote.
        assert(s.subrange(i + el, i + el + rbl + 1) =~= escape_chars(rest) + seq!['"']) by {
            assert forall|k: int| 0 <= k < rbl + 1 implies #[trigger] s.subrange(
                i + el,
                i + el + rbl + 1,
            )[k] == (escape_chars(rest) + seq!['"'])[k] by {
                assert(s[i + el + k] == t[el + k]);
                if k < rbl {
                    assert(t[el + k] == escape_chars(rest)[k]);
                } else {
                    assert(t[el + k] == '"');
                }
            }
        }
        lemma_string_body(s, i + el, rest);
        let after = i + el + rbl + 1;
        assert(parse_string(s, i + el) == Some((rest, after)));
        if c == '"' {
            assert(e =~= seq!['\\', '"']);
            assert(s[i] == '\\' && s[i + 1] == '"');
            assert(parse_escape(s, i + 1) == Some(('"', i + 2)));
            assert(parse_string(s, i) == Some((seq![c] + rest, after)));
        } else if c == '\\' {
            assert(e =~= seq!['\\', '\\']);
            assert(s[i] == '\\' && s[i + 1] == '\\');
            assert(parse_escape(s, i + 1) == Some(('\\', i + 2)));
            assert(parse_string(s, i) == Some((seq![c] + rest, after)));
        } else if c as int == 8 {
            assert(e =~= seq!['\\', 'b']);
            assert(s[i] == '\\' && s[i + 1] == 'b');
            assert(parse_escape(s, i + 1) == Some((((8int) as char), i + 2)));
            assert(((8int) as char) == c);
            assert(parse_string(s, i) == Some((seq![c] + rest, after)));
        } else if c == '\t' {
            assert(e =~= seq!['\\', 't']);
            assert(s[i] == '\\' && s[i + 1] == 't');
            assert(parse_escape(s, i + 1) == Some(('\t', i + 2)));
            assert(parse_string(s, i) == Some((seq![c] + rest, after)));
        } else if c == '\n' {
            assert(e =~= seq!['\\', 'n']);
            assert(s[i] == '\\' && s[i + 1] == 'n');
            assert(parse_escape(s, i + 1) == Some(('\n', i + 2)));
            assert(parse_string(s, i) == Some((seq![c] + rest, after)));
        } else if c as int == 12 {
            assert(e =~= seq!['\\', 'f']);
            assert(s[i] == '\\' && s[i + 1] == 'f');
            assert(parse_escape(s, i + 1) == Some((((12int) as char), i + 2)));
            assert(((12int) as char) == c);
            assert(parse_string(s, i) == Some((seq![c] + rest, after)));
        } else if c == '\r' {
            assert(e =~= seq!['\\', 'r']);
            assert(s[i] == '\\' && s[i + 1] == 'r');
            assert(parse_escape(s, i + 1) == Some(('\r', i + 2)));
            assert(parse_string(s, i) == Some((seq![c] + rest, after)));
        } else if (c as int) < 0x20 {
            let hi = c as int / 16;
            let lo = c as int % 16;
            let hic = ((hi + '0' as int) as char);
            let loc = (if lo < 10 {
                (lo + '0' as int) as char
            } else {
                (lo - 10 + 'a' as int) as char
            });
            lemma_char_range(c);
            assert(c as int >= 0);
            assert(0 <= hi < 2) by (nonlinear_arith)
                requires
                    0 <= (c as int) && (c as int) < 0x20,
                    hi == (c as int) / 16,
            ;
            assert(0 <= lo < 16);
            assert(e =~= seq!['\\', 'u', '0', '0'] + seq![hic, loc]);
            assert(e[0] == '\\' && e[1] == 'u' && e[2] == '0' && e[3] == '0' && e[4] == hic
                && e[5] == loc);
            assert(s[i] == '\\' && s[i + 1] == 'u');
            assert(s[i + 2] == '0' && s[i + 3] == '0' && s[i + 4] == hic && s[i + 5] == loc);
            assert(hex_val('0') == 0);
            assert(hic as int == hi + '0' as int);
            assert(hex_val(hic) == hi);
            if lo < 10 {
                assert(loc as int == lo + '0' as int);
                assert(hex_val(loc) == lo);
            } else {
                assert(loc as int == lo - 10 + 'a' as int);
                assert(hex_val(loc) == lo);
            }
            assert(hex4(s, i + 2) == Some(hi * 0x10 + lo));
            assert(hi * 0x10 + lo == c as int);
            assert(parse_escape(s, i + 1) == Some((((c as int) as char), i + 6)));
            assert(((c as int) as char) == c);
            assert(parse_string(s, i) == Some((seq![c] + rest, after)));
        } else {
            assert(e =~= seq![c]);
            assert(s[i] == c);
            assert(c != '"' && c != '\\' && c as int >= 0x20);
            assert(parse_string(s, i) == Some((seq![s[i]] + rest, after)));
        }
        assert(seq![c] + rest =~= chars);
    }
}

/// `ff_seq` holds exactly when every element is float free.
proof fn lemma_ff_seq(s: Seq<ValueModel>)
    ensures
        ff_seq(s) <==> (forall|i: int| 0 <= i < s.len() ==> float_free(#[trigger] s[i])),
    decreases s.len(),
{
    let rest = s.subrange(1, s.len() as int);
    if s.len() > 0 {
        lemma_ff_seq(rest);
        if ff_seq(s) {
            assert forall|i: int| 0 <= i < s.len() implies float_free(#[trigger] s[i]) by {
                if i > 0 {
                    assert(rest[i - 1] == s[i]);
                }
            }
        } else {
            if forall|i: int| 0 <= i < s.len() ==> float_free(#[trigger] s[i]) {
                assert forall|i: int| 0 <= i < rest.len() implies float_free(
                    #[trigger] rest[i],
                ) by {
                    assert(rest[i] == s[i + 1]);
                }
                assert(ff_seq(s));
            }
        }
    }
}

/// `ff_entries` holds exactly when every entry value is float free.
proof fn lemma_ff_entries(s: Seq<(Seq<char>, ValueModel)>)
    ensures
        ff_entries(s) <==> (forall|i: int| 0 <= i < s.len() ==> float_free((#[trigger] s[i]).1)),
    decreases s.len(),
{
    let rest = s.subrange(1, s.len() as int);
    if s.len() > 0 {
        lemma_ff_entries(rest);
        if ff_entries(s) {
            assert forall|i: int| 0 <= i < s.len() implies float_free((#[trigger] s[i]).1) by {
                if i > 0 {
                    assert(rest[i - 1] == s[i]);
                }
            }
        } else {
            if forall|i: int| 0 <= i < s.len() ==> float_free((#[trigger] s[i]).1) {
                assert forall|i: int| 0 <= i < rest.len() implies float_free(
                    (#[trigger] rest[i]).1,
                ) by {
                    assert(rest[i] == s[i + 1]);
                }
                assert(ff_entries(s));
            }
        }
    }
}

/// Skipping whitespace at a non-whitespace position, or at the end, stays put.
proof fn lemma_skip_here(s: Seq<char>, x: int)
    requires
        0 <= x <= s.len(),
        x == s.len() || !is_ws(s[x]),
    ensures
        skip_ws(s, x) == x,
{
}

/// The serialized text of a float-free value is non-empty, starts with the
/// character its variant dictates, and never starts with whitespace, a comma
/// or a closing bracket.
proof fn lemma_ser_first(m: ValueModel)
    requires
        m.wf(),
        float_free(m) || !(m matches ValueModel::Number(NumberModel::Float(_))),
    ensures
        ser_value(m).len() >= 1,
        !is_ws(ser_value(m)[0]),
        ser_value(m)[0] != ']' && ser_value(m)[0] != '}' && ser_value(m)[0] != ','
            && ser_value(m)[0] != ':',
        m is Null ==> ser_value(m)[0] == 'n',
        m matches ValueModel::Bool(b) ==> ser_value(m)[0] == (if b {
            't'
        } else {
            'f'
        }),
        m matches ValueModel::Number(n) ==> (ser_value(m)[0] == '-' || is_digit(ser_value(m)[0])),
        m matches ValueModel::Str(_) ==> ser_value(m)[0] == '"',
        m matches ValueModel::Array(_) ==> ser_value(m)[0] == '[',
        m matches ValueModel::Object(_) ==> ser_value(m)[0] == '{',
{
    match m {
        ValueModel::Number(n) => {
            match n {
                NumberModel::PosInt(u) => {
                    lemma_dec_digits_shape(u as int);
                },
                NumberModel::NegInt(v) => {
                    lemma_dec_digits_shape(-(v as int));
                    assert(ser_value(m)[0] == '-');
                },
                NumberModel::Float(_) => {
                    assert(false);
                },
            }
        },
        _ => {},
    }
}

/// Parsing at the start of a serialized float-free value, bounded by a
/// delimiter or the end of text, gives the value back and consumes exactly
/// its text.
#[verifier::rlimit(100)]
proof fn lemma_parse_ser(s: Seq<char>, i: int, m: ValueModel)
    requires
        m.wf(),
        float_free(m),
        0 <= i,
        i + ser_value(m).len() <= s.len(),
        s.subrange(i, i + ser_value(m).len()) == ser_value(m),
        i + ser_value(m).len() == s.len() || is_delim(s[i + ser_value(m).len()]),
    ensures
        parse_value(s, i) == Some((m, i + ser_value(m).len())),
    decreases m, 0int,
{
    let t = ser_value(m);
    let len = t.len() as int;
    lemma_ser_first(m);
    assert forall|k: int| 0 <= k < len implies s[i + k] == #[trigger] t[k] by {
        assert(s.subrange(i, i + len)[k] == s[i + k]);
    }
    assert(s[i] == t[0]);
    match m {
        ValueModel::Null => {
            assert(t =~= seq!['n', 'u', 'l', 'l']);
            assert(s[i] == 'n' && s[i + 1] == 'u' && s[i + 2] == 'l' && s[i + 3] == 'l');
        },
        ValueModel::Bool(b) => {
            if b {
                assert(t =~= seq!['t', 'r', 'u', 'e']);
                assert(s[i] == 't' && s[i + 1] == 'r' && s[i + 2] == 'u' && s[i + 3] == 'e');
            } else {
                assert(t =~= seq!['f', 'a', 'l', 's', 'e']);
                assert(s[i] == 'f' && s[i + 1] == 'a' && s[i + 2] == 'l' && s[i + 3] == 's' && s[i
                    + 4] == 'e');
            }
        },
        ValueModel::Number(n) => {
            lemma_parse_ser_number(s, i, n);
        },
        ValueModel::Str(chars) => {
            assert(s[i] == '"');
            let body = escape_chars(chars);
            let bl = body.len() as int;
            assert(t == seq!['"'] + body + seq!['"']);
            assert(s.subrange(i + 1, i + 1 + bl + 1) =~= body + seq!['"']) by {
                assert forall|k: int| 0 <= k < bl + 1 implies #[trigger] s.subrange(
                    i + 1,
                    i + 1 + bl + 1,
                )[k] == (body + seq!['"'])[k] by {
                    assert(s[i + 1 + k] == t[1 + k]);
                    if k < bl {
                        assert(t[1 + k] == body[k]);
                    } else {
                        assert(t[1 + k] == '"');
                    }
                }
            }
            lemma_string_body(s, i + 1, chars);
        },
        ValueModel::Array(elems) => {
            assert(s[i] == '[');
            let items = ser_items(elems);
            let il = items.len() as int;
            assert(t == seq!['['] + items + seq![']']);
            assert(s[i + 1 + il] == t[1 + il] && t[1 + il] == ']');
            if elems.len() == 0 {
                assert(items =~= Seq::<char>::empty());
                assert(s[i + 1] == ']');
                lemma_skip_here(s, i + 1);
                assert(parse_value(s, i) == Some((ValueModel::Array(Seq::empty()), i + 2)));
                assert(elems =~= Seq::<ValueModel>::empty());
                assert(ValueModel::Array(Seq::<ValueModel>::empty()) == m);
            } else {
                lemma_ff_seq(elems);
                crate::model::lemma_wf_seq(elems);
                assert(decreases_to!(m => elems));
                lemma_ser_first(elems[0]);
                assert(items[0] == ser_value(elems[0])[0]) by {
                    if elems.len() == 1 {
                    } else {
                        assert(items == ser_value(elems[0]) + seq![','] + ser_items(
                            elems.subrange(1, elems.len() as int),
                        ));
                    }
                }
                assert(t[1] == (seq!['['] + items)[1]);
                assert((seq!['['] + items)[1] == items[0]);
                assert(s[i + 1] == items[0]);
                assert(!is_ws(s[i + 1]) && s[i + 1] != ']');
                lemma_skip_here(s, i + 1);
                assert(s.subrange(i + 1, i + 1 + il + 1) =~= items + seq![']']) by {
                    assert forall|k: int| 0 <= k < il + 1 implies #[trigger] s.subrange(
                        i + 1,
                        i + 1 + il + 1,
                    )[k] == (items + seq![']'])[k] by {
                        assert(s[i + 1 + k] == t[1 + k]);
                        if k < il {
                            assert(t[1 + k] == items[k]);
                        } else {
                            assert(t[1 + k] == ']');
                        }
                    }
                }
                lemma_parse_ser_items(s, i + 1, elems);
            }
        },
        ValueModel::Object(entries) => {
            assert(s[i] == '{');
            let items = ser_members(entries);
            let il = items.len() as int;
            assert(t == seq!['{'] + items + seq!['}']);
            assert(s[i + 1 + il] == t[1 + il] && t[1 + il] == '}');
            if entries.len() == 0 {
                assert(items =~= Seq::<char>::empty());
                assert(s[i + 1] == '}');
                lemma_skip_here(s, i + 1);
                assert(parse_value(s, i) == Some(
                    (ValueModel::Object(Seq::empty()), i + 2),
                ));
                assert(entries =~= Seq::<(Seq<char>, ValueModel)>::empty());
                assert(ValueModel::Object(Seq::<(Seq<char>, ValueModel)>::empty()) == m);
            } else {
                lemma_ff_entries(entries);
                crate::model::lemma_wf_entries(entries);
                assert(decreases_to!(m => entries));
                assert(items.len() >= 1 && items[0] == '"') by {
                    assert(ser_member(entries[0]) == seq!['"'] + escape_chars(entries[0].0)
                        + seq!['"', ':'] + ser_value(entries[0].1));
                    assert(ser_member(entries[0]).len() >= 1);
                    assert(ser_member(entries[0])[0] == '"');
                    if entries.len() == 1 {
                    } else {
                        assert(items == ser_member(entries[0]) + seq![','] + ser_members(
                            entries.subrange(1, entries.len() as int),
                        ));
                    }
                }
                assert(t[1] == (seq!['{'] + items)[1]);
                assert((seq!['{'] + items)[1] == items[0]);
                assert(s[i + 1] == items[0]);
                assert(!is_ws(s[i + 1]));
                lemma_skip_here(s, i + 1);
                assert(s[i + 1] != '}');
                assert(s.subrange(i + 1, i + 1 + il + 1) =~= items + seq!['}']) by {
                    assert forall|k: int| 0 <= k < il + 1 implies #[trigger] s.subrange(
                        i + 1,
                        i + 1 + il + 1,
                    )[k] == (items + seq!['}'])[k] by {
                        assert(s[i + 1 + k] == t[1 + k]);
                        if k < il {
                            assert(t[1 + k] == items[k]);
                        } else {
                            assert(t[1 + k] == '}');
                        }
                    }
                }
                lemma_parse_ser_members(s, i + 1, entries);
            }
        },
    }
}

/// Parsing at the start of serialized array elements followed by the closing
/// bracket gives the elements back.
proof fn lemma_parse_ser_items(s: Seq<char>, p: int, elems: Seq<ValueModel>)
    requires
        elems.len() >= 1,
        forall|q: int| 0 <= q < elems.len() ==> (#[trigger] elems[q]).wf(),
        forall|q: int| 0 <= q < elems.len() ==> float_free(#[trigger] elems[q]),
        0 <= p,
        p + ser_items(elems).len() + 1 <= s.len(),
        s.subrange(p, p + ser_items(elems).len() + 1) == ser_items(elems) + seq![']'],
    ensures
        crate::grammar::parse_items(s, p) == Some((elems, p + ser_items(elems).len() + 1)),
    decreases elems, 1int,
{
    let items = ser_items(elems);
    let il = items.len() as int;
    let t = items + seq![']'];
    assert forall|k: int| 0 <= k < il + 1 implies s[p + k] == #[trigger] t[k] by {
        assert(s.subrange(p, p + il + 1)[k] == s[p + k]);
    }
    let v0 = elems[0];
    let e0 = ser_value(v0);
    let el = e0.len() as int;
    assert(decreases_to!(elems => elems[0]));
    lemma_ser_first(v0);
    if elems.len() == 1 {
        assert(items == e0);
        assert(s.subrange(p, p + el) =~= e0) by {
            assert forall|k: int| 0 <= k < el implies #[trigger] s.subrange(p, p + el)[k]
                == e0[k] by {
                assert(s[p + k] == t[k]);
            }
        }
        assert(t[el] == ']');
        assert(s[p + el] == ']');
        assert(is_delim(']'));
        lemma_parse_ser(s, p, v0);
        lemma_skip_here(s, p + el);
        assert(crate::grammar::parse_items(s, p) == Some((seq![v0], p + el + 1)));
        assert(seq![v0] =~= elems);
    } else {
        let rest = elems.subrange(1, elems.len() as int);
        assert(rest.len() >= 1);
        assert forall|q: int| 0 <= q < rest.len() implies (#[trigger] rest[q]).wf()
            && float_free(rest[q]) by {
            assert(rest[q] == elems[q + 1]);
        }
        let ritems = ser_items(rest);
        let rl = ritems.len() as int;
        assert(items == e0 + seq![','] + ritems);
        assert(il == el + 1 + rl);
        assert(s.subrange(p, p + el) =~= e0) by {
            assert forall|k: int| 0 <= k < el implies #[trigger] s.subrange(p, p + el)[k]
                == e0[k] by {
                assert(s[p + k] == t[k]);
                assert(t[k] == e0[k]);
            }
        }
        assert(s[p + el] == t[el] && t[el] == ',');
        assert(is_delim(','));
        lemma_parse_ser(s, p, v0);
        lemma_skip_here(s, p + el);
        let n = p + el + 1;
        assert(decreases_to!(elems => rest)) by {
            assert(rest.len() < elems.len());
        }
        assert(s.subrange(n, n + rl + 1) =~= ritems + seq![']']) by {
            assert forall|k: int| 0 <= k < rl + 1 implies #[trigger] s.subrange(n, n + rl + 1)[k]
                == (ritems + seq![']'])[k] by {
                assert(s[n + k] == t[el + 1 + k]);
                if k < rl {
                    assert(t[el + 1 + k] == ritems[k]);
                } else {
                    assert(t[el + 1 + k] == ']');
                }
            }
        }
        assert(decreases_to!(elems => elems.subrange(1, elems.len() as int)));
        lemma_parse_ser_items(s, n, rest);
        let rfc = ser_value(rest[0])[0];
        assert(decreases_to!(elems => elems[1]));
        assert(rest[0] == elems[1]);
        lemma_ser_first(rest[0]);
        assert(ritems[0] == rfc) by {
            if rest.len() == 1 {
            } else {
                assert(ritems == ser_value(rest[0]) + seq![','] + ser_items(
                    rest.subrange(1, rest.len() as int),
                ));
            }
        }
        assert(s[n] == t[el + 1] && t[el + 1] == ritems[0]);
        assert(!is_ws(s[n]));
        lemma_skip_here(s, n);
        assert(crate::grammar::parse_items(s, p) == Some(
            (seq![v0] + rest, p + il + 1),
        ));
        assert(seq![v0] + rest =~= elems);
    }
}

/// Parsing at the start of serialized object members followed by the closing
/// brace gives the members back.
proof fn lemma_parse_ser_members(s: Seq<char>, p: int, entries: Seq<(Seq<char>, ValueModel)>)
    requires
        entries.len() >= 1,
        forall|q: int| 0 <= q < entries.len() ==> (#[trigger] entries[q]).1.wf(),
        forall|q: int| 0 <= q < entries.len() ==> float_free((#[trigger] entries[q]).1),
        0 <= p,
        p + ser_members(entries).len() + 1 <= s.len(),
        s.subrange(p, p + ser_members(entries).len() + 1) == ser_members(entries) + seq!['}'],
    ensures
        crate::grammar::parse_members(s, p) == Some(
            (entries, p + ser_members(entries).len() + 1),
        ),
    decreases entries, 1int,
{
    let items = ser_members(entries);
    let il = items.len() as int;
    let t = items + seq!['}'];
    assert forall|k: int| 0 <= k < il + 1 implies s[p + k] == #[trigger] t[k] by {
        assert(s.subrange(p, p + il + 1)[k] == s[p + k]);
    }
    let e0 = entries[0];
    let key = e0.0;
    let v0 = e0.1;
    let m0 = ser_member(e0);
    let ml = m0.len() as int;
    let body = escape_chars(key);
    let bl = body.len() as int;
    let vt = ser_value(v0);
    let vl = vt.len() as int;
    assert(m0 == seq!['"'] + body + seq!['"', ':'] + vt);
    assert(ml == bl + 3 + vl);
    assert(decreases_to!(entries => entries[0]));
    assert(decreases_to!(entries[0] => entries[0].1));
    lemma_ser_first(v0);
    let sep = if entries.len() == 1 {
        '}'
    } else {
        ','
    };
    assert(items[0] == m0[0] && m0[0] == '"') by {
        if entries.len() > 1 {
            assert(items == m0 + seq![','] + ser_members(
                entries.subrange(1, entries.len() as int),
            ));
        }
    }
    // The member's own characters inside s.
    assert forall|k: int| 0 <= k < ml implies s[p + k] == #[trigger] m0[k] by {
        if entries.len() == 1 {
            assert(t[k] == m0[k]);
        } else {
            assert(items == m0 + seq![','] + ser_members(
                entries.subrange(1, entries.len() as int),
            ));
            assert(t[k] == items[k]);
            assert(items[k] == m0[k]);
        }
    }
    assert(s[p] == '"');
    // Key string.
    assert(s.subrange(p + 1, p + 1 + bl + 1) =~= body + seq!['"']) by {
        assert forall|k: int| 0 <= k < bl + 1 implies #[trigger] s.subrange(
            p + 1,
            p + 1 + bl + 1,
        )[k] == (body + seq!['"'])[k] by {
            assert(s[p + 1 + k] == m0[1 + k]);
            if k < bl {
                assert(m0[1 + k] == body[k]);
            } else {
                assert(m0[1 + k] == '"');
            }
        }
    }
    lemma_string_body(s, p + 1, key);
    let j = p + 1 + bl + 1;
    assert(s[j] == m0[bl + 2] && m0[bl + 2] == ':');
    lemma_skip_here(s, j);
    let va = j + 1;
    assert forall|k: int| 0 <= k < vl implies s[va + k] == #[trigger] vt[k] by {
        assert(s[va + k] == m0[bl + 3 + k]);
        assert(m0[bl + 3 + k] == vt[k]);
    }
    assert(s.subrange(va, va + vl) =~= vt) by {
        assert forall|k: int| 0 <= k < vl implies #[trigger] s.subrange(va, va + vl)[k]
            == vt[k] by {
            assert(s.subrange(va, va + vl)[k] == s[va + k]);
        }
    }
    assert(s[va] == vt[0]);
    assert(!is_ws(s[va]));
    lemma_skip_here(s, va);
    let m2 = va + vl;
    assert(m2 == p + ml);
    assert(s[m2] == sep) by {
        if entries.len() == 1 {
            assert(t[ml] == '}');
        } else {
            assert(items == m0 + seq![','] + ser_members(
                entries.subrange(1, entries.len() as int),
            ));
            assert(t[ml] == items[ml]);
            assert(items[ml] == ',');
        }
    }
    assert(is_delim(sep));
    lemma_parse_ser(s, va, v0);
    lemma_skip_here(s, m2);
    if entries.len() == 1 {
        assert(crate::grammar::parse_members(s, p) == Some((seq![(key, v0)], m2 + 1)));
        assert(seq![(key, v0)] =~= entries);
        assert((key, v0) == entries[0]);
    } else {
        let rest = entries.subrange(1, entries.len() as int);
        assert(rest.len() >= 1);
        assert forall|q: int| 0 <= q < rest.len() implies (#[trigger] rest[q]).1.wf()
            && float_free(rest[q].1) by {
            assert(rest[q] == entries[q + 1]);
        }
        let ritems = ser_members(rest);
        let rl = ritems.len() as int;
        assert(items == m0 + seq![','] + ritems);
        assert(il == ml + 1 + rl);
        let nk = m2 + 1;
        assert(s.subrange(nk, nk + rl + 1) =~= ritems + seq!['}']) by {
            assert forall|k: int| 0 <= k < rl + 1 implies #[trigger] s.subrange(
                nk,
                nk + rl + 1,
            )[k] == (ritems + seq!['}'])[k] by {
                assert(s[nk + k] == t[ml + 1 + k]);
                if k < rl {
                    assert(t[ml + 1 + k] == ritems[k]);
                } else {
                    assert(t[ml + 1 + k] == '}');
                }
            }
        }
        assert(decreases_to!(entries => entries.subrange(1, entries.len() as int)));
        lemma_parse_ser_members(s, nk, rest);
        assert(ritems[0] == '"') by {
            assert(ser_member(rest[0])[0] == '"');
            if rest.len() > 1 {
                assert(ritems == ser_member(rest[0]) + seq![','] + ser_members(
                    rest.subrange(1, rest.len() as int),
                ));
            }
        }
        assert(s[nk] == t[ml + 1] && t[ml + 1] == ritems[0]);
        assert(!is_ws(s[nk]));
        lemma_skip_here(s, nk);
        assert(crate::grammar::parse_members(s, p) == Some(
            (seq![(key, v0)] + rest, p + il + 1),
        ));
        assert((key, v0) == entries[0]);
        assert(seq![(key, v0)] + rest =~= entries);
    }
}

/// The round-trip law: parsing the serialized text of a well-formed,
/// float-free value yields exactly that value. Floats are covered separately:
/// their text is produced by a trusted helper whose contract states that it
/// reads back to the same bits, a fact available to callers of the serializer
/// but not to this spec-level proof.
pub proof fn lemma_round_trip(m: ValueModel)
    requires
        m.wf(),
        float_free(m),
    ensures
        crate::grammar::parse_text(ser_value(m)) == Some(m),
{
    let s = ser_value(m);
    lemma_ser_first(m);
    assert(s.subrange(0, s.len() as int) =~= s);
    lemma_skip_here(s, 0);
    lemma_parse_ser(s, 0, m);
    lemma_skip_here(s, s.len() as int);
}

} // verus!
