//! The executable JSON parser. Each function returns exactly what the
//! corresponding grammar specification says, and strings that need no escape
//! decoding are handed back as views into the input text.

use vstd::prelude::*;

use crate::chars::push_char;
use crate::error::JsonError;
use crate::grammar::digit_of;
use crate::grammar::digits_end;
use crate::grammar::digits_val;
use crate::grammar::float_bits_of_token;
use crate::grammar::hex4;
use crate::grammar::hex_val;
use crate::grammar::is_digit;
use crate::grammar::is_plain_char;
use crate::grammar::is_ws;
use crate::grammar::lemma_digits_end;
use crate::grammar::lemma_skip_ws;
use crate::grammar::parse_escape;
use crate::grammar::parse_number;
use crate::grammar::parse_string;
use crate::grammar::parse_text;
use crate::grammar::parse_value;
use crate::grammar::skip_ws;
use crate::model::NumberModel;
use crate::model::ValueModel;
use crate::object_vec::ObjectAsVec;
use crate::value::CowStr;
use crate::value::Number;
use crate::value::Value;

verus! {

broadcast use {
    vstd::std_specs::vec::group_vec_axioms,
    vstd::seq::group_seq_axioms,
    crate::value::group_value_model,
    crate::object_vec::group_object_model,
};

/// Relies on serde_json's full-precision number reader (a `Number` parsed
/// from text, widened with `as_f64` and taken apart with `to_bits`): a JSON
/// number token reads as the nearest 64-bit float, and a token whose value
/// would be infinite is refused. A plain decimal integer token within the
/// 64-bit ranges takes the reader's integer path and always widens to a
/// finite double, so it never fails. The result depends on the token alone;
/// it is named `float_bits_of_token`.
#[verifier::external_body]
pub(crate) fn parse_float_bits(tok: &str) -> (r: Option<u64>)
    ensures
        r == float_bits_of_token(tok@),
        r matches Some(b) ==> crate::is_finite_bits(b),
        (exists|n: u64| tok@ == crate::grammar::dec_digits(n as int)) ==> r is Some,
        (exists|n: u64|
            0 < n <= 0x8000_0000_0000_0000 && tok@ == seq!['-'] + crate::grammar::dec_digits(
                n as int,
            )) ==> r is Some,
{
    match tok.parse::<serde_json::Number>() {
        Ok(n) => n.as_f64().map(|v| v.to_bits()),
        Err(_) => None,
    }
}

/// The first position at or after `i` holding no whitespace.
fn ws_end(s: &str, i: usize) -> (r: usize)
    requires
        i <= s@.len(),
    ensures
        r == skip_ws(s@, i as int),
        i <= r <= s@.len(),
    decreases s@.len() - i,
{
    proof {
        lemma_skip_ws(s@, i as int);
    }
    if i < s.unicode_len() {
        let c = s.get_char(i);
        if c == ' ' || c == '\n' || c == '\r' || c == '\t' {
            return ws_end(s, i + 1);
        }
    }
    i
}

/// Whether a character is an ASCII decimal digit.
fn digit_check(c: char) -> (r: bool)
    ensures
        r == is_digit(c),
{
    let cu = c as u32;
    48 <= cu && cu <= 57
}

/// The end of the run of digits starting at `i`.
fn dig_end(s: &str, i: usize) -> (r: usize)
    requires
        i <= s@.len(),
    ensures
        r == digits_end(s@, i as int),
        i <= r <= s@.len(),
    decreases s@.len() - i,
{
    proof {
        lemma_digits_end(s@, i as int);
    }
    if i < s.unicode_len() {
        if digit_check(s.get_char(i)) {
            return dig_end(s, i + 1);
        }
    }
    i
}

/// Once a digit run's value is past the 64-bit range, a longer run's is too.
proof fn lemma_digits_val_grows(s: Seq<char>, from: int, i: int, j: int)
    requires
        from <= i <= j,
        forall|k: int| from <= k < j ==> is_digit(#[trigger] s[k]),
        digits_val(s, from, i) > u64::MAX,
    ensures
        digits_val(s, from, j) > u64::MAX,
    decreases j - i,
{
    crate::grammar::lemma_digits_val_bounds(s, from, i);
    if i < j {
        assert(digits_val(s, from, i + 1) == digits_val(s, from, i) * 10 + digit_of(s[i]));
        lemma_digits_val_grows(s, from, i + 1, j);
    }
}

/// The value of the digit run `s[from..to)` where it fits in 64 bits, and
/// nothing where it does not.
#[verifier::loop_isolation(false)]
fn dig_val(s: &str, from: usize, to: usize) -> (r: Option<u64>)
    requires
        from <= to <= s@.len(),
        forall|k: int| from <= k < to ==> is_digit(#[trigger] s@[k]),
    ensures
        match r {
            Some(v) => v == digits_val(s@, from as int, to as int),
            None => digits_val(s@, from as int, to as int) > u64::MAX,
        },
{
    let mut val: u64 = 0;
    let mut i: usize = from;
    while i < to
        invariant
            from <= i <= to,
            val == digits_val(s@, from as int, i as int),
        decreases to - i,
    {
        let c = s.get_char(i);
        let d = (c as u32 - 48) as u64;
        proof {
            assert(is_digit(s@[i as int]));
            assert(d == digit_of(s@[i as int]));
            assert(digits_val(s@, from as int, i + 1) == digits_val(s@, from as int, i as int)
                * 10 + digit_of(s@[i as int]));
        }
        if val > (u64::MAX - d) / 10 {
            proof {
                assert(val * 10 + d > u64::MAX) by (nonlinear_arith)
                    requires
                        val > (u64::MAX - d) / 10,
                        d <= 9,
                ;
                lemma_digits_val_grows(s@, from as int, i + 1, to as int);
            }
            return None;
        }
        proof {
            assert(val * 10 + d <= u64::MAX) by (nonlinear_arith)
                requires
                    val <= (u64::MAX - d) / 10,
                    d <= 9,
            ;
        }
        val = val * 10 + d;
        i += 1;
    }
    Some(val)
}

/// The value of a hexadecimal digit, or nothing for any other character.
fn hex_digit(c: char) -> (r: Option<u32>)
    ensures
        match r {
            Some(v) => hex_val(c) == v as int && v < 16,
            None => hex_val(c) < 0,
        },
{
    let cu = c as u32;
    if 48 <= cu && cu <= 57 {
        Some(cu - 48)
    } else if 97 <= cu && cu <= 102 {
        Some(cu - 97 + 10)
    } else if 65 <= cu && cu <= 70 {
        Some(cu - 65 + 10)
    } else {
        None
    }
}

/// The value of the four hexadecimal digits at `i`, as the grammar reads them.
fn hex4_at(s: &str, i: usize) -> (r: Option<u32>)
    requires
        i <= s@.len(),
    ensures
        match r {
            Some(v) => hex4(s@, i as int) == Some(v as int) && v < 0x10000,
            None => hex4(s@, i as int) is None,
        },
{
    let len = s.unicode_len();
    if len - i < 4 {
        return None;
    }
    let h0 = hex_digit(s.get_char(i));
    let h1 = hex_digit(s.get_char(i + 1));
    let h2 = hex_digit(s.get_char(i + 2));
    let h3 = hex_digit(s.get_char(i + 3));
    match (h0, h1, h2, h3) {
        (Some(a), Some(b), Some(c), Some(d)) => Some(a * 0x1000 + b * 0x100 + c * 0x10 + d),
        _ => None,
    }
}

/// One escape sequence, decoded: `i` stands just after the backslash.
fn p_escape(s: &str, i: usize) -> (r: Result<(char, usize), JsonError>)
    requires
        i <= s@.len(),
    ensures
        match r {
            Ok(cj) => parse_escape(s@, i as int) == Some((cj.0, cj.1 as int)) && i < cj.1
                <= s@.len(),
            Err(e) => e == JsonError::Parse && parse_escape(s@, i as int) is None,
        },
{
    let len = s.unicode_len();
    if i >= len {
        return Err(JsonError::Parse);
    }
    let c = s.get_char(i);
    if c == '"' {
        Ok(('"', i + 1))
    } else if c == '\\' {
        Ok(('\\', i + 1))
    } else if c == '/' {
        Ok(('/', i + 1))
    } else if c == 'b' || c == 'f' {
        let code: u32 = if c == 'b' {
            8
        } else {
            12
        };
        match char::from_u32(code) {
            Some(cc) => {
                proof {
                    assert(cc == ((code as int) as char));
                }
                Ok((cc, i + 1))
            },
            None => {
                proof {
                    assert(false);
                }
                Err(JsonError::Parse)
            },
        }
    } else if c == 'n' {
        Ok(('\n', i + 1))
    } else if c == 'r' {
        Ok(('\r', i + 1))
    } else if c == 't' {
        Ok(('\t', i + 1))
    } else if c == 'u' {
        match hex4_at(s, i + 1) {
            Some(cp) => {
                if 0xD800 <= cp && cp < 0xDC00 {
                    if len - i >= 7 && s.get_char(i + 5) == '\\' && s.get_char(i + 6) == 'u' {
                        match hex4_at(s, i + 7) {
                            Some(lo) => {
                                if 0xDC00 <= lo && lo < 0xE000 {
                                    let code = 0x10000 + (cp - 0xD800) * 0x400 + (lo - 0xDC00);
                                    match char::from_u32(code) {
                                        Some(cc) => {
                                            proof {
                                                assert(code as int == 0x10000 + (cp as int
                                                    - 0xD800) * 0x400 + (lo as int - 0xDC00));
                                                assert(cc == ((code as int) as char));
                                            }
                                            Ok((cc, i + 11))
                                        },
                                        None => {
                                            proof {
                                                assert(false);
                                            }
                                            Err(JsonError::Parse)
                                        },
                                    }
                                } else {
                                    Err(JsonError::Parse)
                                }
                            },
                            None => Err(JsonError::Parse),
                        }
                    } else {
                        Err(JsonError::Parse)
                    }
                } else if 0xDC00 <= cp && cp < 0xE000 {
                    Err(JsonError::Parse)
                } else {
                    match char::from_u32(cp) {
                        Some(cc) => {
                            proof {
                                assert(cc == ((cp as int) as char));
                            }
                            Ok((cc, i + 5))
                        },
                        None => {
                            proof {
                                assert(false);
                            }
                            Err(JsonError::Parse)
                        },
                    }
                }
            },
            None => Err(JsonError::Parse),
        }
    } else {
        Err(JsonError::Parse)
    }
}

/// Whether a character may stand unescaped inside a string literal.
fn plain_check(c: char) -> (r: bool)
    ensures
        r == is_plain_char(c),
{
    c != '"' && c != '\\' && (c as u32) >= 0x20
}

/// A run of plain characters closed by a quote parses to exactly that run.
proof fn lemma_string_plain(s: Seq<char>, i: int, j: int)
    requires
        0 <= i <= j < s.len(),
        forall|k: int| i <= k < j ==> is_plain_char(#[trigger] s[k]),
        s[j] == '"',
    ensures
        parse_string(s, i) == Some((s.subrange(i, j), j + 1)),
    decreases j - i,
{
    if i == j {
        assert(s.subrange(i, j) =~= Seq::<char>::empty());
    } else {
        lemma_string_plain(s, i + 1, j);
        assert(s.subrange(i, j) =~= seq![s[i]] + s.subrange(i + 1, j));
    }
}

/// A run of plain characters that reaches the end of the text, or a control
/// character, leaves the string literal unterminated.
proof fn lemma_string_stuck(s: Seq<char>, i: int, j: int)
    requires
        0 <= i <= j <= s.len(),
        forall|k: int| i <= k < j ==> is_plain_char(#[trigger] s[k]),
        j == s.len() || (s[j] != '"' && s[j] != '\\' && !is_plain_char(s[j])),
    ensures
        parse_string(s, i) is None,
    decreases j - i,
{
    if i < j {
        lemma_string_stuck(s, i + 1, j);
    }
}

/// The decoded string literal starting just after the opening quote at
/// `i - 1`: the result is a borrowed view into the text exactly when the
/// literal holds no escape (every character up to the closing quote stands
/// plain), and an owned decoded string otherwise.
#[verifier::loop_isolation(false)]
fn p_string<'a>(s: &'a str, i: usize) -> (r: Result<(CowStr<'a>, usize), JsonError>)
    requires
        i <= s@.len(),
    ensures
        match r {
            Ok(cj) => {
                &&& parse_string(s@, i as int) == Some((cj.0@, cj.1 as int))
                &&& i < cj.1 <= s@.len()
                &&& (cj.0 matches CowStr::Borrowed(b) ==> b@ == s@.subrange(
                    i as int,
                    cj.1 - 1,
                ))
                &&& (crate::grammar::plain_run(s@, i as int, cj.1 - 1) <==> cj.0 matches CowStr::Borrowed(_))
                &&& crate::value::str_decision(cj.0, s@)
            },
            Err(e) => e == JsonError::Parse && parse_string(s@, i as int) is None,
        },
{
    let len = s.unicode_len();
    let mut p = i;
    while p < len && plain_check(s.get_char(p))
        invariant
            i <= p <= len,
            forall|k: int| i <= k < p ==> is_plain_char(#[trigger] s@[k]),
        decreases len - p,
    {
        p += 1;
    }
    if p < len && s.get_char(p) == '"' {
        let b = s.substring_char(i, p);
        let cs = CowStr::Borrowed(b);
        proof {
            lemma_string_plain(s@, i as int, p as int);
            assert(crate::grammar::plain_run(s@, i as int, p as int));
            assert(crate::value::str_decision(cs, s@)) by {
                assert(parse_string(s@, i as int) == Some((cs@, p + 1 as int))
                    && (crate::grammar::plain_run(s@, i as int, p as int) <==> cs matches CowStr::Borrowed(
                        _,
                    ))
                    && (cs matches CowStr::Borrowed(bb) ==> bb@ == s@.subrange(
                        i as int,
                        p as int,
                    )));
            }
        }
        Ok((cs, p + 1))
    } else if p < len && s.get_char(p) == '\\' {
        let r = p_string_owned(s, i);
        proof {
            if r is Ok {
                let j = r->Ok_0.1;
                crate::grammar::lemma_parse_string_closing(s@, i as int);
                // The backslash at `p` lies strictly inside the literal: it is
                // no quote, and every position before it is plain while the
                // closing position holds a quote.
                if p as int == j - 1 {
                    assert(s@[j - 1] == '"');
                    assert(false);
                } else if p as int > j - 1 {
                    assert(i <= j - 1 < p);
                    assert(is_plain_char(s@[j - 1]));
                    assert(s@[j - 1] == '"');
                    assert(false);
                }
                assert(i <= p < j - 1 && !is_plain_char(s@[p as int]));
                assert(!crate::grammar::plain_run(s@, i as int, j - 1)) by {
                    assert(i <= p < j - 1 && !is_plain_char(s@[p as int]));
                }
                let cs = r->Ok_0.0;
                assert(crate::value::str_decision(cs, s@)) by {
                    assert(parse_string(s@, i as int) == Some((cs@, j as int))
                        && (crate::grammar::plain_run(s@, i as int, j - 1) <==> cs matches CowStr::Borrowed(
                            _,
                        ))
                        && (cs matches CowStr::Borrowed(bb) ==> bb@ == s@.subrange(
                            i as int,
                            j - 1,
                        )));
                }
            }
        }
        r
    } else {
        proof {
            lemma_string_stuck(s@, i as int, p as int);
        }
        Err(JsonError::Parse)
    }
}

/// The decoded string literal, built character by character into an owned
/// string; used where the literal holds at least one escape.
#[verifier::loop_isolation(false)]
fn p_string_owned<'a>(s: &'a str, i: usize) -> (r: Result<(CowStr<'a>, usize), JsonError>)
    requires
        i <= s@.len(),
    ensures
        match r {
            Ok(cj) => parse_string(s@, i as int) == Some((cj.0@, cj.1 as int)) && i < cj.1
                <= s@.len() && cj.0 matches CowStr::Owned(_),
            Err(e) => e == JsonError::Parse && parse_string(s@, i as int) is None,
        },
{
    let len = s.unicode_len();
    let mut out = String::new();
    let mut pos = i;
    loop
        invariant
            i <= pos <= len,
            len == s@.len(),
            (match parse_string(s@, pos as int) {
                Some((rest, j)) => parse_string(s@, i as int) == Some((out@ + rest, j)),
                None => parse_string(s@, i as int) is None,
            }),
        decreases len - pos,
    {
        if pos >= len {
            return Err(JsonError::Parse);
        }
        let c = s.get_char(pos);
        if c == '"' {
            proof {
                assert(out@ + Seq::<char>::empty() =~= out@);
            }
            return Ok((CowStr::Owned(out), pos + 1));
        } else if c == '\\' {
            match p_escape(s, pos + 1) {
                Ok((ec, j)) => {
                    let ghost before = out@;
                    push_char(&mut out, ec);
                    proof {
                        let r2 = parse_string(s@, j as int);
                        if r2 is Some {
                            let (rest2, k) = r2.unwrap();
                            assert(before + (seq![ec] + rest2) =~= (before + seq![ec]) + rest2);
                            assert(out@ =~= before + seq![ec]);
                        }
                    }
                    pos = j;
                },
                Err(e) => {
                    return Err(e);
                },
            }
        } else if (c as u32) < 0x20 {
            return Err(JsonError::Parse);
        } else {
            let ghost before = out@;
            push_char(&mut out, c);
            proof {
                let r2 = parse_string(s@, pos + 1);
                if r2 is Some {
                    let (rest2, k) = r2.unwrap();
                    assert(before + (seq![c] + rest2) =~= (before + seq![c]) + rest2);
                    assert(out@ =~= before + seq![c]);
                }
            }
            pos = pos + 1;
        }
    }
}

/// The number starting at `i`, as the grammar reads it.
fn p_number<'a>(s: &'a str, i: usize) -> (r: Result<(Value<'a>, usize), JsonError>)
    requires
        i <= s@.len(),
    ensures
        match r {
            Ok(vj) => parse_number(s@, i as int) == Some((vj.0@, vj.1 as int)) && i < vj.1
                <= s@.len() && vj.0@.wf() && crate::value::borrow_decision(vj.0, s@),
            Err(e) => e == JsonError::Parse && parse_number(s@, i as int) is None,
        },
{
    let len = s.unicode_len();
    let neg = i < len && s.get_char(i) == '-';
    let d0 = if neg {
        i + 1
    } else {
        i
    };
    if !(d0 < len && digit_check(s.get_char(d0))) {
        return Err(JsonError::Parse);
    }
    proof {
        lemma_digits_end(s@, d0 as int);
    }
    let int_end: usize = if s.get_char(d0) == '0' {
        d0 + 1
    } else {
        dig_end(s, d0)
    };
    let frac_end: usize = if int_end < len && s.get_char(int_end) == '.' {
        if int_end + 1 < len && digit_check(s.get_char(int_end + 1)) {
            dig_end(s, int_end + 1)
        } else {
            return Err(JsonError::Parse);
        }
    } else {
        int_end
    };
    let exp_end: usize = if frac_end < len && (s.get_char(frac_end) == 'e' || s.get_char(frac_end)
        == 'E') {
        let ds: usize = if len - frac_end >= 2 && (s.get_char(frac_end + 1) == '+' || s.get_char(
            frac_end + 1,
        ) == '-') {
            frac_end + 2
        } else {
            frac_end + 1
        };
        if ds < len && digit_check(s.get_char(ds)) {
            dig_end(s, ds)
        } else {
            return Err(JsonError::Parse);
        }
    } else {
        frac_end
    };
    if exp_end == int_end {
        proof {
            if s@[d0 as int] == '0' {
                assert(is_digit(s@[d0 as int]));
            } else {
                lemma_digits_end(s@, d0 as int);
            }
        }
        let val_opt = dig_val(s, d0, int_end);
        if !neg {
            match val_opt {
                Some(val) => {
                    return Ok((Value::Number(Number::from_u64(val)), int_end));
                },
                None => {},
            }
        } else {
            match val_opt {
                Some(val) => {
                    if val > 0 && val <= 0x8000_0000_0000_0000u64 {
                        let neg_val: i64 = if val == 0x8000_0000_0000_0000u64 {
                            i64::MIN
                        } else {
                            -(val as i64)
                        };
                        return Ok((Value::Number(Number::from_i64(neg_val)), int_end));
                    }
                },
                None => {},
            }
        }
    }
    // A fraction, an exponent, an integer outside the 64-bit ranges, or
    // negative zero: read as a float.
    let tok = s.substring_char(i, exp_end);
    match parse_float_bits(tok) {
        Some(bits) => Ok((Value::Number(Number::from_f64_bits(bits)), exp_end)),
        None => Err(JsonError::Parse),
    }
}

/// The value starting exactly at `i` (no leading whitespace).
#[verifier::loop_isolation(false)]
#[verifier::rlimit(100)]
fn p_value<'a>(s: &'a str, i: usize) -> (r: Result<(Value<'a>, usize), JsonError>)
    requires
        i <= s@.len(),
    ensures
        match r {
            Ok(vj) => parse_value(s@, i as int) == Some((vj.0@, vj.1 as int)) && i < vj.1
                <= s@.len() && vj.0@.wf() && crate::value::borrow_decision(vj.0, s@),
            Err(e) => e == JsonError::Parse && parse_value(s@, i as int) is None,
        },
    decreases s@.len() - i,
{
    let len = s.unicode_len();
    if i >= len {
        return Err(JsonError::Parse);
    }
    let c = s.get_char(i);
    if c == 'n' {
        if len - i >= 4 && s.get_char(i + 1) == 'u' && s.get_char(i + 2) == 'l' && s.get_char(
            i + 3,
        ) == 'l' {
            Ok((Value::Null, i + 4))
        } else {
            Err(JsonError::Parse)
        }
    } else if c == 't' {
        if len - i >= 4 && s.get_char(i + 1) == 'r' && s.get_char(i + 2) == 'u' && s.get_char(
            i + 3,
        ) == 'e' {
            Ok((Value::Bool(true), i + 4))
        } else {
            Err(JsonError::Parse)
        }
    } else if c == 'f' {
        if len - i >= 5 && s.get_char(i + 1) == 'a' && s.get_char(i + 2) == 'l' && s.get_char(
            i + 3,
        ) == 's' && s.get_char(i + 4) == 'e' {
            Ok((Value::Bool(false), i + 5))
        } else {
            Err(JsonError::Parse)
        }
    } else if c == '"' {
        match p_string(s, i + 1) {
            Ok((cs, j)) => Ok((Value::Str(cs), j)),
            Err(e) => Err(e),
        }
    } else if c == '[' {
        let j = ws_end(s, i + 1);
        if j < len && s.get_char(j) == ']' {
            let r = Value::Array(Vec::new());
            proof {
                assert(r@ == ValueModel::Array(Seq::<ValueModel>::empty()));
            }
            Ok((r, j + 1))
        } else {
            let mut elems: Vec<Value<'a>> = Vec::new();
            let mut pos = j;
            loop
                invariant
                    i < pos <= len,
                    len == s@.len(),
                    forall|k: int| 0 <= k < elems@.len() ==> (#[trigger] elems@[k])@.wf(),
                    forall|k: int|
                        0 <= k < elems@.len() ==> crate::value::borrow_decision(
                            #[trigger] elems@[k],
                            s@,
                        ),
                    (match crate::grammar::parse_items(s@, pos as int) {
                        Some((rest, m)) => parse_value(s@, i as int) == Some(
                            (ValueModel::Array(crate::value::models_of(elems@) + rest), m),
                        ),
                        None => parse_value(s@, i as int) is None,
                    }),
                decreases len - pos,
            {
                match p_value(s, pos) {
                    Ok((v, j2)) => {
                        let k = ws_end(s, j2);
                        let ghost before = elems@;
                        elems.push(v);
                        if k < len && s.get_char(k) == ',' {
                            let n = ws_end(s, k + 1);
                            proof {
                                lemma_skip_ws(s@, k + 1);
                                let r2 = crate::grammar::parse_items(s@, n as int);
                                if r2 is Some {
                                    let (rest2, m) = r2.unwrap();
                                    assert(crate::value::models_of(before) + (seq![v@] + rest2)
                                        =~= (crate::value::models_of(before) + seq![v@]) + rest2);
                                }
                            }
                            pos = n;
                        } else if k < len && s.get_char(k) == ']' {
                            let r = Value::Array(elems);
                            proof {
                                assert(crate::value::models_of(before) + seq![v@]
                                    =~= crate::value::models_of(before.push(v)));
                                assert(r@ matches ValueModel::Array(m2) && m2
                                    == crate::value::models_of(before.push(v)));
                                assert(r@.wf()) by {
                                    let m2 = crate::value::models_of(before.push(v));
                                    crate::model::lemma_wf_seq(m2);
                                    assert forall|q: int| 0 <= q < m2.len() implies (#[trigger] m2[q]).wf() by {
                                        assert(m2[q] == (before.push(v))[q]@);
                                    }
                                };
                                assert(crate::value::borrow_decision(r, s@)) by {
                                    crate::value::lemma_seq_borrow_decision(before.push(v), s@);
                                    assert forall|q: int|
                                        0 <= q < before.push(v).len() implies crate::value::borrow_decision(
                                        #[trigger] before.push(v)[q],
                                        s@,
                                    ) by {
                                        if q < before.len() {
                                            assert(before.push(v)[q] == before[q]);
                                        } else {
                                            assert(before.push(v)[q] == v);
                                        }
                                    }
                                };
                            }
                            return Ok((r, k + 1));
                        } else {
                            return Err(JsonError::Parse);
                        }
                    },
                    Err(e) => {
                        return Err(e);
                    },
                }
            }
        }
    } else if c == '{' {
        let j = ws_end(s, i + 1);
        if j < len && s.get_char(j) == '}' {
            let r = Value::Object(ObjectAsVec(Vec::new()));
            proof {
                assert(r@ == ValueModel::Object(Seq::<(Seq<char>, ValueModel)>::empty()));
            }
            Ok((r, j + 1))
        } else {
            let mut entries: Vec<(CowStr<'a>, Value<'a>)> = Vec::new();
            let mut pos = j;
            loop
                invariant
                    i < pos <= len,
                    len == s@.len(),
                    forall|k: int| 0 <= k < entries@.len() ==> (#[trigger] entries@[k]).1@.wf(),
                    forall|k: int|
                        0 <= k < entries@.len() ==> crate::object_vec::entry_borrow_decision(
                            #[trigger] entries@[k],
                            s@,
                        ),
                    (match crate::grammar::parse_members(s@, pos as int) {
                        Some((rest, m)) => parse_value(s@, i as int) == Some(
                            (
                                ValueModel::Object(
                                    crate::object_vec::entry_models(entries@) + rest,
                                ),
                                m,
                            ),
                        ),
                        None => parse_value(s@, i as int) is None,
                    }),
                decreases len - pos,
            {
                if !(pos < len && s.get_char(pos) == '"') {
                    return Err(JsonError::Parse);
                }
                match p_string(s, pos + 1) {
                    Ok((key, j2)) => {
                        let k = ws_end(s, j2);
                        if !(k < len && s.get_char(k) == ':') {
                            return Err(JsonError::Parse);
                        }
                        let va = ws_end(s, k + 1);
                        proof {
                            lemma_skip_ws(s@, k + 1);
                        }
                        match p_value(s, va) {
                            Ok((v, m2)) => {
                                let e = ws_end(s, m2);
                                let ghost before = entries@;
                                let ghost kv_model = (key@, v@);
                                proof {
                                    assert(crate::object_vec::entry_borrow_decision((key, v), s@));
                                }
                                entries.push((key, v));
                                if e < len && s.get_char(e) == ',' {
                                    let nk = ws_end(s, e + 1);
                                    proof {
                                        lemma_skip_ws(s@, e + 1);
                                        let r2 = crate::grammar::parse_members(s@, nk as int);
                                        if r2 is Some {
                                            let (rest2, z) = r2.unwrap();
                                            assert(crate::object_vec::entry_models(before) + (
                                            seq![kv_model] + rest2) =~= (
                                            crate::object_vec::entry_models(before)
                                                + seq![kv_model]) + rest2);
                                        }
                                    }
                                    pos = nk;
                                } else if e < len && s.get_char(e) == '}' {
                                    let r = Value::Object(ObjectAsVec(entries));
                                    proof {
                                        assert(crate::object_vec::entry_models(before)
                                            + seq![kv_model] =~= crate::object_vec::entry_models(
                                            before.push((key, v)),
                                        ));
                                        let m3 = crate::object_vec::entry_models(
                                            before.push((key, v)),
                                        );
                                        assert(r@ matches ValueModel::Object(mm) && mm == m3);
                                        assert(r@.wf()) by {
                                            crate::model::lemma_wf_entries(m3);
                                            assert forall|q: int| 0 <= q < m3.len() implies (
                                            #[trigger] m3[q]).1.wf() by {
                                                assert(m3[q] == (
                                                (before.push((key, v)))[q].0@,
                                                (before.push((key, v)))[q].1@,
                                                ));
                                            }
                                        };
                                        assert(crate::value::borrow_decision(r, s@)) by {
                                            crate::object_vec::lemma_entries_borrow_decision(
                                                before.push((key, v)),
                                                s@,
                                            );
                                            assert forall|q: int|
                                                0 <= q < before.push((key, v)).len() implies crate::object_vec::entry_borrow_decision(
                                                #[trigger] before.push((key, v))[q],
                                                s@,
                                            ) by {
                                                if q < before.len() {
                                                    assert(before.push((key, v))[q] == before[q]);
                                                } else {
                                                    assert(before.push((key, v))[q] == (key, v));
                                                }
                                            }
                                        };
                                    }
                                    return Ok((r, e + 1));
                                } else {
                                    return Err(JsonError::Parse);
                                }
                            },
                            Err(e2) => {
                                return Err(e2);
                            },
                        }
                    },
                    Err(e2) => {
                        return Err(e2);
                    },
                }
            }
        }
    } else if c == '-' || digit_check(c) {
        p_number(s, i)
    } else {
        Err(JsonError::Parse)
    }
}

/// Parses a complete JSON text into a value. Succeeds exactly on the texts
/// the grammar accepts and returns exactly the model the grammar gives them.
/// A string literal without escapes comes back as a borrowed view into `s`
/// (the exact rule is on the string case of the parser); every borrowed
/// string in the result is a contiguous view of `s`.
pub fn parse_json<'a>(s: &'a str) -> (r: Result<Value<'a>, JsonError>)
    ensures
        match r {
            Ok(v) => parse_text(s@) == Some(v@) && v@.wf() && crate::value::borrow_decision(v, s@),
            Err(e) => e == JsonError::Parse && parse_text(s@) is None,
        },
{
    let start = ws_end(s, 0);
    match p_value(s, start) {
        Ok((v, j)) => {
            let e = ws_end(s, j);
            if e == s.unicode_len() {
                Ok(v)
            } else {
                Err(JsonError::Parse)
            }
        },
        Err(e) => Err(e),
    }
}

} // verus!
