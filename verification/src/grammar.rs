//! The JSON grammar as specification functions: what text parses to which
//! model, and what text a model serializes to. The executable parser and
//! serializer are proved to return exactly what these functions say.

use vstd::prelude::*;

use crate::model::NumberModel;
use crate::model::ValueModel;

verus! {

broadcast use vstd::seq::group_seq_axioms;

/// The four JSON whitespace characters.
pub open spec fn is_ws(c: char) -> bool {
    c == ' ' || c == '\n' || c == '\r' || c == '\t'
}

/// An ASCII decimal digit.
pub open spec fn is_digit(c: char) -> bool {
    '0' <= c && c <= '9'
}

/// The numeric value of a decimal digit.
pub open spec fn digit_of(c: char) -> int {
    c as int - '0' as int
}

/// The first position at or after `i` holding no whitespace.
pub open spec fn skip_ws(s: Seq<char>, i: int) -> int
    decreases s.len() - i,
{
    if 0 <= i < s.len() && is_ws(s[i]) {
        skip_ws(s, i + 1)
    } else {
        i
    }
}

/// Where `skip_ws` lands: at or after `i`, past only whitespace, on the first
/// non-whitespace character or the end.
pub broadcast proof fn lemma_skip_ws(s: Seq<char>, i: int)
    requires
        0 <= i <= s.len(),
    ensures
        i <= #[trigger] skip_ws(s, i) <= s.len(),
        forall|k: int| i <= k < skip_ws(s, i) ==> is_ws(#[trigger] s[k]),
        skip_ws(s, i) < s.len() ==> !is_ws(s[skip_ws(s, i)]),
    decreases s.len() - i,
{
    if i < s.len() && is_ws(s[i]) {
        lemma_skip_ws(s, i + 1);
    }
}

/// The end of the run of digits starting at `i`.
pub open spec fn digits_end(s: Seq<char>, i: int) -> int
    decreases s.len() - i,
{
    if 0 <= i < s.len() && is_digit(s[i]) {
        digits_end(s, i + 1)
    } else {
        i
    }
}

/// Where `digits_end` lands: at or after `i`, past only digits, on the first
/// non-digit or the end.
pub broadcast proof fn lemma_digits_end(s: Seq<char>, i: int)
    requires
        0 <= i <= s.len(),
    ensures
        i <= #[trigger] digits_end(s, i) <= s.len(),
        forall|k: int| i <= k < digits_end(s, i) ==> is_digit(#[trigger] s[k]),
        digits_end(s, i) < s.len() ==> !is_digit(s[digits_end(s, i)]),
    decreases s.len() - i,
{
    if i < s.len() && is_digit(s[i]) {
        lemma_digits_end(s, i + 1);
    }
}

/// The value of the decimal digit run `s[i..j)`, most significant first.
pub open spec fn digits_val(s: Seq<char>, i: int, j: int) -> int
    decreases j - i,
{
    if i >= j {
        0
    } else {
        digits_val(s, i, j - 1) * 10 + digit_of(s[j - 1])
    }
}

/// A digit run's value is non-negative and grows (weakly) with every digit.
pub broadcast proof fn lemma_digits_val_bounds(s: Seq<char>, i: int, j: int)
    requires
        i <= j,
        forall|k: int| i <= k < j ==> is_digit(#[trigger] s[k]),
    ensures
        #[trigger] digits_val(s, i, j) >= 0,
    decreases j - i,
{
    if i < j {
        lemma_digits_val_bounds(s, i, j - 1);
    }
}

/// The code value of a hexadecimal digit, or a negative marker otherwise.
pub open spec fn hex_val(c: char) -> int {
    if '0' <= c && c <= '9' {
        c as int - '0' as int
    } else if 'a' <= c && c <= 'f' {
        c as int - 'a' as int + 10
    } else if 'A' <= c && c <= 'F' {
        c as int - 'A' as int + 10
    } else {
        -1
    }
}

/// The value of the four hexadecimal digits at `i`, or nothing where the text
/// ends early or a character is no such digit.
pub open spec fn hex4(s: Seq<char>, i: int) -> Option<int> {
    if 0 <= i && i + 4 <= s.len() && hex_val(s[i]) >= 0 && hex_val(s[i + 1]) >= 0 && hex_val(
        s[i + 2],
    ) >= 0 && hex_val(s[i + 3]) >= 0 {
        Some(hex_val(s[i]) * 0x1000 + hex_val(s[i + 1]) * 0x100 + hex_val(s[i + 2]) * 0x10
            + hex_val(s[i + 3]))
    } else {
        None
    }
}

/// What one escape sequence denotes: `i` stands just after the backslash;
/// the result is the decoded character and the position after the sequence.
/// A high surrogate must be followed by a second escape holding its low
/// surrogate; a lone surrogate is malformed.
pub open spec fn parse_escape(s: Seq<char>, i: int) -> Option<(char, int)> {
    if i < 0 || i >= s.len() {
        None
    } else if s[i] == '"' {
        Some(('"', i + 1))
    } else if s[i] == '\\' {
        Some(('\\', i + 1))
    } else if s[i] == '/' {
        Some(('/', i + 1))
    } else if s[i] == 'b' {
        Some((((8int) as char), i + 1))
    } else if s[i] == 'f' {
        Some((((12int) as char), i + 1))
    } else if s[i] == 'n' {
        Some(('\n', i + 1))
    } else if s[i] == 'r' {
        Some(('\r', i + 1))
    } else if s[i] == 't' {
        Some(('\t', i + 1))
    } else if s[i] == 'u' {
        match hex4(s, i + 1) {
            Some(cp) => if 0xD800 <= cp < 0xDC00 {
                if i + 7 <= s.len() && s[i + 5] == '\\' && s[i + 6] == 'u' {
                    match hex4(s, i + 7) {
                        Some(lo) => if 0xDC00 <= lo < 0xE000 {
                            Some(
                                (
                                    ((0x10000 + (cp - 0xD800) * 0x400 + (lo - 0xDC00)) as char),
                                    i + 11,
                                ),
                            )
                        } else {
                            None
                        },
                        None => None,
                    }
                } else {
                    None
                }
            } else if 0xDC00 <= cp < 0xE000 {
                None
            } else {
                Some(((cp as char), i + 5))
            },
            None => None,
        }
    } else {
        None
    }
}

/// A character that may stand unescaped inside a JSON string.
pub open spec fn is_plain_char(c: char) -> bool {
    c != '"' && c != '\\' && c as int >= 0x20
}

/// Every character in `s[i..j)` may stand unescaped inside a string literal.
pub open spec fn plain_run(s: Seq<char>, i: int, j: int) -> bool {
    forall|k: int| i <= k < j ==> is_plain_char(#[trigger] s[k])
}

/// The decoded content of a string literal: `i` stands just after the opening
/// quote; the result is the decoded characters and the position after the
/// closing quote.
pub open spec fn parse_string(s: Seq<char>, i: int) -> Option<(Seq<char>, int)>
    decreases s.len() - i,
{
    if i < 0 || i >= s.len() {
        None
    } else if s[i] == '"' {
        Some((Seq::empty(), i + 1))
    } else if s[i] == '\\' {
        match parse_escape(s, i + 1) {
            Some((c, j)) => if i < j <= s.len() {
                match parse_string(s, j) {
                    Some((rest, k)) => Some((seq![c] + rest, k)),
                    None => None,
                }
            } else {
                None
            },
            None => None,
        }
    } else if (s[i] as int) < 0x20 {
        None
    } else {
        match parse_string(s, i + 1) {
            Some((rest, k)) => Some((seq![s[i]] + rest, k)),
            None => None,
        }
    }
}

/// A parsed string literal always ends at a closing quote: the position the
/// parse returns is just past a quote character, beyond the opening position.
pub proof fn lemma_parse_string_closing(s: Seq<char>, i: int)
    requires
        parse_string(s, i) is Some,
    ensures
        ({
            let (c, j) = parse_string(s, i).unwrap();
            0 <= i < j <= s.len() && s[j - 1] == '"'
        }),
    decreases s.len() - i,
{
    let (c, j) = parse_string(s, i).unwrap();
    if s[i] == '"' {
    } else if s[i] == '\\' {
        let (e, k) = parse_escape(s, i + 1).unwrap();
        lemma_parse_string_closing(s, k);
    } else {
        lemma_parse_string_closing(s, i + 1);
    }
}

/// The number starting at `i` (a digit or a leading minus): its model and the
/// position after its last character. An integer that fits is held as an
/// integer; a fraction, an exponent, an integer too large for 64 bits, and
/// negative zero take the float encoding, with negative zero normalized to
/// positive zero.
pub open spec fn parse_number(s: Seq<char>, i: int) -> Option<(ValueModel, int)> {
    let neg = 0 <= i < s.len() && s[i] == '-';
    let d0 = if neg {
        i + 1
    } else {
        i
    };
    if 0 <= d0 < s.len() && is_digit(s[d0]) {
        let int_end = if s[d0] == '0' {
            d0 + 1
        } else {
            digits_end(s, d0)
        };
        let frac_end = if int_end < s.len() && s[int_end] == '.' {
            if int_end + 1 < s.len() && is_digit(s[int_end + 1]) {
                digits_end(s, int_end + 1)
            } else {
                -1
            }
        } else {
            int_end
        };
        if frac_end < 0 {
            None
        } else {
            let exp_end = if frac_end < s.len() && (s[frac_end] == 'e' || s[frac_end] == 'E') {
                let ds = if frac_end + 2 <= s.len() && (s[frac_end + 1] == '+' || s[frac_end + 1]
                    == '-') {
                    frac_end + 2
                } else {
                    frac_end + 1
                };
                if ds < s.len() && is_digit(s[ds]) {
                    digits_end(s, ds)
                } else {
                    -1
                }
            } else {
                frac_end
            };
            if exp_end < 0 {
                None
            } else {
                if exp_end == int_end && !neg && digits_val(s, d0, int_end) <= u64::MAX {
                    Some(
                        (
                            ValueModel::Number(
                                NumberModel::PosInt(digits_val(s, d0, int_end) as u64),
                            ),
                            exp_end,
                        ),
                    )
                } else if exp_end == int_end && neg && 0 < digits_val(s, d0, int_end)
                    <= 0x8000_0000_0000_0000 {
                    Some(
                        (
                            ValueModel::Number(
                                NumberModel::NegInt((-digits_val(s, d0, int_end)) as i64),
                            ),
                            exp_end,
                        ),
                    )
                } else {
                    match float_bits_of_token(s.subrange(i, exp_end)) {
                        Some(bits) => Some(
                            (
                                ValueModel::Number(
                                    NumberModel::Float(crate::norm_float_bits(bits)),
                                ),
                                exp_end,
                            ),
                        ),
                        None => None,
                    }
                }
            }
        }
    } else {
        None
    }
}

/// The finite double that a JSON number token reads as, by its bit pattern,
/// or nothing where the value would overflow to an infinity. Named here and
/// given meaning by the trusted parsing helper alone.
pub uninterp spec fn float_bits_of_token(tok: Seq<char>) -> Option<u64>;

/// The canonical text of the finite double with the given bit pattern. Named
/// here and given meaning by the trusted formatting helper alone.
pub uninterp spec fn float_token_of(bits: u64) -> Seq<char>;

/// The bit pattern of the double a number widens to: a float encoding gives
/// its own bits; an integer encoding is read back through the number grammar,
/// which yields the nearest double.
pub open spec fn spec_widened_bits(n: NumberModel) -> Option<u64> {
    match n {
        NumberModel::PosInt(u) => float_bits_of_token(dec_digits(u as int)),
        NumberModel::NegInt(v) => float_bits_of_token(seq!['-'] + dec_digits(-(v as int))),
        NumberModel::Float(b) => Some(b),
    }
}

/// The JSON value whose text starts exactly at `i` (no leading whitespace):
/// its model and the position just after it.
pub open spec fn parse_value(s: Seq<char>, i: int) -> Option<(ValueModel, int)>
    decreases s.len() - i, 2int,
{
    if i < 0 || i >= s.len() {
        None
    } else if s[i] == 'n' {
        if i + 4 <= s.len() && s[i + 1] == 'u' && s[i + 2] == 'l' && s[i + 3] == 'l' {
            Some((ValueModel::Null, i + 4))
        } else {
            None
        }
    } else if s[i] == 't' {
        if i + 4 <= s.len() && s[i + 1] == 'r' && s[i + 2] == 'u' && s[i + 3] == 'e' {
            Some((ValueModel::Bool(true), i + 4))
        } else {
            None
        }
    } else if s[i] == 'f' {
        if i + 5 <= s.len() && s[i + 1] == 'a' && s[i + 2] == 'l' && s[i + 3] == 's' && s[i + 4]
            == 'e' {
            Some((ValueModel::Bool(false), i + 5))
        } else {
            None
        }
    } else if s[i] == '"' {
        match parse_string(s, i + 1) {
            Some((chars, j)) => Some((ValueModel::Str(chars), j)),
            None => None,
        }
    } else if s[i] == '[' {
        let j = skip_ws(s, i + 1);
        if j < s.len() && s[j] == ']' {
            Some((ValueModel::Array(Seq::empty()), j + 1))
        } else if i < j <= s.len() {
            match parse_items(s, j) {
                Some((elems, k)) => Some((ValueModel::Array(elems), k)),
                None => None,
            }
        } else {
            None
        }
    } else if s[i] == '{' {
        let j = skip_ws(s, i + 1);
        if j < s.len() && s[j] == '}' {
            Some((ValueModel::Object(Seq::empty()), j + 1))
        } else if i < j <= s.len() {
            match parse_members(s, j) {
                Some((entries, k)) => Some((ValueModel::Object(entries), k)),
                None => None,
            }
        } else {
            None
        }
    } else if s[i] == '-' || is_digit(s[i]) {
        parse_number(s, i)
    } else {
        None
    }
}

/// The comma-separated values from `i` (which must start a value) up to and
/// including the closing bracket.
pub open spec fn parse_items(s: Seq<char>, i: int) -> Option<(Seq<ValueModel>, int)>
    decreases s.len() - i, 3int,
{
    if i < 0 || i >= s.len() {
        None
    } else {
        match parse_value(s, i) {
            Some((v, j)) => if i < j <= s.len() {
                let k = skip_ws(s, j);
                if k < s.len() && s[k] == ',' {
                    let n = skip_ws(s, k + 1);
                    if i < n <= s.len() {
                        match parse_items(s, n) {
                            Some((rest, m)) => Some((seq![v] + rest, m)),
                            None => None,
                        }
                    } else {
                        None
                    }
                } else if k < s.len() && s[k] == ']' {
                    Some((seq![v], k + 1))
                } else {
                    None
                }
            } else {
                None
            },
            None => None,
        }
    }
}

/// The comma-separated `"key": value` members from `i` (which must start a
/// key) up to and including the closing brace.
pub open spec fn parse_members(s: Seq<char>, i: int) -> Option<
    (Seq<(Seq<char>, ValueModel)>, int),
>
    decreases s.len() - i, 3int,
{
    if i < 0 || i >= s.len() || s[i] != '"' {
        None
    } else {
        match parse_string(s, i + 1) {
            Some((key, j)) => if i < j <= s.len() {
                let k = skip_ws(s, j);
                if k < s.len() && s[k] == ':' {
                    let va = skip_ws(s, k + 1);
                    if i < va <= s.len() {
                        match parse_value(s, va) {
                            Some((v, m)) => if va < m <= s.len() {
                                let e = skip_ws(s, m);
                                if e < s.len() && s[e] == ',' {
                                    let nk = skip_ws(s, e + 1);
                                    if i < nk <= s.len() {
                                        match parse_members(s, nk) {
                                            Some((rest, z)) => Some((seq![(key, v)] + rest, z)),
                                            None => None,
                                        }
                                    } else {
                                        None
                                    }
                                } else if e < s.len() && s[e] == '}' {
                                    Some((seq![(key, v)], e + 1))
                                } else {
                                    None
                                }
                            } else {
                                None
                            },
                            None => None,
                        }
                    } else {
                        None
                    }
                } else {
                    None
                }
            } else {
                None
            },
            None => None,
        }
    }
}

/// The model of a complete JSON text: one value, with whitespace allowed
/// around it and nothing else before or after.
pub open spec fn parse_text(s: Seq<char>) -> Option<ValueModel> {
    let i = skip_ws(s, 0);
    match parse_value(s, i) {
        Some((v, j)) => if 0 <= j <= s.len() && skip_ws(s, j) == s.len() {
            Some(v)
        } else {
            None
        },
        None => None,
    }
}

/// The decimal text of a non-negative integer.
pub open spec fn dec_digits(n: int) -> Seq<char>
    decreases n,
{
    if n < 10 {
        seq![((n + '0' as int) as char)]
    } else {
        dec_digits(n / 10) + seq![((n % 10 + '0' as int) as char)]
    }
}

/// How one character appears inside a serialized JSON string: itself where it
/// may stand plain; the short escapes for the quote, the backslash and the
/// five named control characters; `\u00XX` for the other control characters.
pub open spec fn esc_of(c: char) -> Seq<char> {
    if c == '"' {
        seq!['\\', '"']
    } else if c == '\\' {
        seq!['\\', '\\']
    } else if c as int == 8 {
        seq!['\\', 'b']
    } else if c == '\t' {
        seq!['\\', 't']
    } else if c == '\n' {
        seq!['\\', 'n']
    } else if c as int == 12 {
        seq!['\\', 'f']
    } else if c == '\r' {
        seq!['\\', 'r']
    } else if (c as int) < 0x20 {
        seq!['\\', 'u', '0', '0'] + seq![
            ((c as int / 16 + '0' as int) as char),
            (if c as int % 16 < 10 {
                (c as int % 16 + '0' as int) as char
            } else {
                (c as int % 16 - 10 + 'a' as int) as char
            }),
        ]
    } else {
        seq![c]
    }
}

/// The serialized body of a JSON string: each character escaped as needed.
pub open spec fn escape_chars(chars: Seq<char>) -> Seq<char>
    decreases chars,
{
    if chars.len() == 0 {
        Seq::empty()
    } else {
        esc_of(chars[0]) + escape_chars(chars.subrange(1, chars.len() as int))
    }
}

/// The serialized text of a model: no whitespace, entries and elements in
/// stored order, numbers in their encoding's canonical form.
pub open spec fn ser_value(m: ValueModel) -> Seq<char>
    decreases m,
{
    match m {
        ValueModel::Null => seq!['n', 'u', 'l', 'l'],
        ValueModel::Bool(b) => if b {
            seq!['t', 'r', 'u', 'e']
        } else {
            seq!['f', 'a', 'l', 's', 'e']
        },
        ValueModel::Number(NumberModel::PosInt(u)) => dec_digits(u as int),
        ValueModel::Number(NumberModel::NegInt(v)) => seq!['-'] + dec_digits(-(v as int)),
        ValueModel::Number(NumberModel::Float(bits)) => float_token_of(bits),
        ValueModel::Str(chars) => seq!['"'] + escape_chars(chars) + seq!['"'],
        ValueModel::Array(elems) => seq!['['] + ser_items(elems) + seq![']'],
        ValueModel::Object(entries) => seq!['{'] + ser_members(entries) + seq!['}'],
    }
}

/// The serialized elements of an array, separated by commas.
pub open spec fn ser_items(elems: Seq<ValueModel>) -> Seq<char>
    decreases elems,
{
    if elems.len() == 0 {
        Seq::empty()
    } else if elems.len() == 1 {
        ser_value(elems[0])
    } else {
        ser_value(elems[0]) + seq![','] + ser_items(elems.subrange(1, elems.len() as int))
    }
}

/// One serialized object member: the quoted, escaped key, a colon, the value.
pub open spec fn ser_member(e: (Seq<char>, ValueModel)) -> Seq<char>
    decreases e,
{
    seq!['"'] + escape_chars(e.0) + seq!['"', ':'] + ser_value(e.1)
}

/// The serialized members of an object, separated by commas.
pub open spec fn ser_members(entries: Seq<(Seq<char>, ValueModel)>) -> Seq<char>
    decreases entries,
{
    if entries.len() == 0 {
        Seq::empty()
    } else if entries.len() == 1 {
        ser_member(entries[0])
    } else {
        ser_member(entries[0]) + seq![','] + ser_members(
            entries.subrange(1, entries.len() as int),
        )
    }
}

/// Escaping one more character appends its escape text.
pub broadcast proof fn lemma_escape_snoc(chars: Seq<char>, c: char)
    ensures
        #[trigger] escape_chars(chars.push(c)) == escape_chars(chars) + esc_of(c),
    decreases chars.len(),
{
    let w = chars.push(c);
    assert(escape_chars(w) == esc_of(w[0]) + escape_chars(w.subrange(1, w.len() as int)));
    if chars.len() == 0 {
        assert(w.subrange(1, w.len() as int) =~= Seq::<char>::empty());
        assert(escape_chars(w.subrange(1, w.len() as int)) =~= Seq::<char>::empty());
        assert(w[0] == c);
        assert(escape_chars(chars) =~= Seq::<char>::empty());
        assert(escape_chars(w) =~= escape_chars(chars) + esc_of(c));
    } else {
        assert(w.subrange(1, w.len() as int) =~= chars.subrange(1, chars.len() as int).push(c));
        lemma_escape_snoc(chars.subrange(1, chars.len() as int), c);
        assert(w[0] == chars[0]);
        assert(escape_chars(chars) == esc_of(chars[0]) + escape_chars(
            chars.subrange(1, chars.len() as int),
        ));
        assert(escape_chars(w) =~= escape_chars(chars) + esc_of(c));
    }
}

/// Serializing one more element appends a comma (except to an empty list) and
/// the element's text.
pub broadcast proof fn lemma_ser_items_snoc(elems: Seq<ValueModel>, v: ValueModel)
    ensures
        #[trigger] ser_items(elems.push(v)) == if elems.len() == 0 {
            ser_value(v)
        } else {
            ser_items(elems) + seq![','] + ser_value(v)
        },
    decreases elems.len(),
{
    let w = elems.push(v);
    if elems.len() == 0 {
        assert(w.len() == 1);
        assert(w[0] == v);
    } else {
        assert(w.subrange(1, w.len() as int) =~= elems.subrange(1, elems.len() as int).push(v));
        lemma_ser_items_snoc(elems.subrange(1, elems.len() as int), v);
        assert(w[0] == elems[0]);
        if elems.len() == 1 {
            assert(elems.subrange(1, elems.len() as int) =~= Seq::<ValueModel>::empty());
            assert(ser_items(w) =~= ser_items(elems) + seq![','] + ser_value(v));
        } else {
            assert(ser_items(w) =~= ser_items(elems) + seq![','] + ser_value(v));
        }
    }
}

/// Serializing one more member appends a comma (except to an empty list) and
/// the member's text.
pub broadcast proof fn lemma_ser_members_snoc(
    entries: Seq<(Seq<char>, ValueModel)>,
    e: (Seq<char>, ValueModel),
)
    ensures
        #[trigger] ser_members(entries.push(e)) == if entries.len() == 0 {
            ser_member(e)
        } else {
            ser_members(entries) + seq![','] + ser_member(e)
        },
    decreases entries.len(),
{
    let w = entries.push(e);
    if entries.len() == 0 {
        assert(w.len() == 1);
        assert(w[0] == e);
    } else {
        assert(w.subrange(1, w.len() as int) =~= entries.subrange(1, entries.len() as int).push(
            e,
        ));
        lemma_ser_members_snoc(entries.subrange(1, entries.len() as int), e);
        assert(w[0] == entries[0]);
        if entries.len() == 1 {
            assert(entries.subrange(1, entries.len() as int) =~= Seq::<
                (Seq<char>, ValueModel),
            >::empty());
            assert(ser_members(w) =~= ser_members(entries) + seq![','] + ser_member(e));
        } else {
            assert(ser_members(w) =~= ser_members(entries) + seq![','] + ser_member(e));
        }
    }
}

} // verus!
