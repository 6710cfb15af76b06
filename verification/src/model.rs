//! Mathematical model of the tokenizer: the grammar it accepts and the value
//! each input denotes, written as specification functions over a sequence of
//! characters and a reading position.
//!
//! Every function here mirrors one layer of the executable parser.  A step
//! either produces a result together with the position just past the
//! characters it consumed, or fails with a [`TokenizedError`].

use vstd::prelude::*;

use crate::tokenizer::TokenizedError;

verus! {

/// A parsed JSON value, in mathematical form: an object is an association
/// sequence of key/value pairs with distinct keys in first-insertion order,
/// an array an ordered sequence, and strings and numbers sequences of
/// characters (a number keeps the text of its literal).
pub enum JsonModel {
    Object(Seq<(Seq<char>, JsonModel)>),
    Array(Seq<JsonModel>),
    Text(Seq<char>),
    Num(Seq<char>),
    True,
    False,
    Null,
}

/// Outcome of reading one logical character inside a string literal:
/// a character and the position after it, the closing quote (with the
/// position after it), or a failure.
pub enum CharStep {
    Ch(char, int),
    End(int),
    Fail(TokenizedError),
}

/// Outcome of scanning the tail of a numeric literal: the accumulated text,
/// the lookahead character that ended the number (if one was read), and the
/// position reached; or a failure.
pub enum NumStep {
    Done(Seq<char>, Option<char>, int),
    Fail(TokenizedError),
}

/// Outcome of parsing one value: the value, the lookahead character already
/// consumed past its end (if any), and the position reached; or a failure.
pub enum ValueStep {
    Val(JsonModel, Option<char>, int),
    Fail(TokenizedError),
}

/// Reading one character: the character at `i` and the position after it,
/// or nothing when the input is exhausted.
pub open spec fn sp_read(s: Seq<char>, i: int) -> Option<(char, int)> {
    if 0 <= i < s.len() {
        Some((s[i], i + 1))
    } else {
        None
    }
}

/// Skipping whitespace: the first character at or after `i` that is not a
/// space, and the position after it.  Only the space character counts as
/// whitespace.
pub open spec fn sp_skip_spaces(s: Seq<char>, i: int) -> Option<(char, int)>
    decreases s.len() - i,
{
    match sp_read(s, i) {
        None => None,
        Some((c, j)) => if c != ' ' {
            Some((c, j))
        } else {
            sp_skip_spaces(s, j)
        },
    }
}

/// The next significant character: a lookahead character already in hand is
/// used directly unless it is a space; otherwise whitespace is skipped.
pub open spec fn sp_next_significant(s: Seq<char>, i: int, la: Option<char>) -> Option<(char, int)> {
    match la {
        Some(c) => if c != ' ' {
            Some((c, i))
        } else {
            sp_skip_spaces(s, i)
        },
        None => sp_skip_spaces(s, i),
    }
}

/// A decimal digit.
pub open spec fn is_digit(c: char) -> bool {
    '0' <= c && c <= '9'
}

/// The characters that may continue a numeric literal.
pub open spec fn is_number_char(c: char) -> bool {
    is_digit(c) || c == '.' || c == 'e' || c == 'E'
}

/// A hexadecimal digit.
pub open spec fn is_hex_digit(c: char) -> bool {
    is_digit(c) || ('a' <= c && c <= 'f') || ('A' <= c && c <= 'F')
}

/// The value of a hexadecimal digit.
pub open spec fn hex_digit_value(c: char) -> int {
    if is_digit(c) {
        c as int - 48
    } else if 'a' <= c && c <= 'f' {
        c as int - 87
    } else {
        c as int - 55
    }
}

/// A Unicode scalar value: a code point that is not a surrogate.
pub open spec fn is_unicode_scalar(v: u32) -> bool {
    v < 0xD800 || (0xE000 <= v && v <= 0x10FFFF)
}

/// The value of the four hexadecimal digits starting at `i`.
pub open spec fn sp_hex_quad_value(s: Seq<char>, i: int) -> u32 {
    (hex_digit_value(s[i]) * 0x1000 + hex_digit_value(s[i + 1]) * 0x100 + hex_digit_value(
        s[i + 2],
    ) * 0x10 + hex_digit_value(s[i + 3])) as u32
}

/// Resolving a `\u` escape: exactly four hexadecimal digits must follow,
/// read as a base-16 integer, and that integer must be a Unicode scalar
/// value; anything else is a malformed escape.
pub open spec fn sp_unicode_escape(s: Seq<char>, i: int) -> CharStep {
    if i + 4 <= s.len() && is_hex_digit(s[i]) && is_hex_digit(s[i + 1]) && is_hex_digit(s[i + 2])
        && is_hex_digit(s[i + 3]) {
        let v = sp_hex_quad_value(s, i);
        if is_unicode_scalar(v) {
            CharStep::Ch(v as char, i + 4)
        } else {
            CharStep::Fail(TokenizedError::InvalidChar)
        }
    } else {
        CharStep::Fail(TokenizedError::InvalidChar)
    }
}

/// Reading one logical character inside a string literal: a plain character
/// stands for itself, a closing quote ends the string, and a backslash
/// starts an escape sequence that resolves to one character.  An escape with
/// an unknown specifier is a malformed escape; exhausted input is `Invalid`.
pub open spec fn sp_string_char(s: Seq<char>, i: int) -> CharStep {
    match sp_read(s, i) {
        None => CharStep::Fail(TokenizedError::Invalid),
        Some((c, j)) => if c == '"' {
            CharStep::End(j)
        } else if c != '\\' {
            CharStep::Ch(c, j)
        } else {
            match sp_read(s, j) {
                None => CharStep::Fail(TokenizedError::Invalid),
                Some((e, k)) => if e == '"' {
                    CharStep::Ch('"', k)
                } else if e == '\\' {
                    CharStep::Ch('\\', k)
                } else if e == '/' {
                    CharStep::Ch('/', k)
                } else if e == 'n' {
                    CharStep::Ch('\n', k)
                } else if e == 'f' {
                    CharStep::Ch('\u{000C}', k)
                } else if e == 'r' {
                    CharStep::Ch('\u{000D}', k)
                } else if e == 't' {
                    CharStep::Ch('\u{0009}', k)
                } else if e == 'u' {
                    sp_unicode_escape(s, k)
                } else {
                    CharStep::Fail(TokenizedError::InvalidChar)
                },
            }
        },
    }
}

/// Scanning the tail of a numeric literal, `acc` holding what is read so
/// far: characters of the number alphabet are accumulated; the first other
/// character ends the number and becomes the lookahead.  Characters come
/// through the string-escape reader, so a closing quote or a malformed
/// escape fails the scan; exhausted input ends the number with no lookahead.
pub open spec fn sp_number_tail(s: Seq<char>, i: int, acc: Seq<char>) -> NumStep
    decreases s.len() - i,
{
    match sp_string_char(s, i) {
        CharStep::Ch(c, j) => if !is_number_char(c) {
            NumStep::Done(acc, Some(c), j)
        } else if i < j <= s.len() {
            sp_number_tail(s, j, acc.push(c))
        } else {
            NumStep::Fail(TokenizedError::Invalid)
        },
        CharStep::End(_) => NumStep::Fail(TokenizedError::Invalid),
        CharStep::Fail(e) => if e == TokenizedError::Invalid {
            NumStep::Done(acc, None, s.len() as int)
        } else {
            NumStep::Fail(e)
        },
    }
}

/// A valid mantissa: at least one digit, at most one decimal point, and
/// nothing else.
pub open spec fn is_valid_mantissa(t: Seq<char>) -> bool {
    &&& exists|k: int| 0 <= k < t.len() && is_digit(#[trigger] t[k])
    &&& forall|k: int| 0 <= k < t.len() ==> is_digit(#[trigger] t[k]) || t[k] == '.'
    &&& forall|k1: int, k2: int|
        0 <= k1 < t.len() && 0 <= k2 < t.len() && #[trigger] t[k1] == '.' && #[trigger] t[k2] == '.'
            ==> k1 == k2
}

/// A valid exponent part: one or more digits and nothing else.
pub open spec fn is_valid_exponent(t: Seq<char>) -> bool {
    t.len() > 0 && forall|k: int| 0 <= k < t.len() ==> is_digit(#[trigger] t[k])
}

/// An exponent marker.
pub open spec fn is_exp_char(c: char) -> bool {
    c == 'e' || c == 'E'
}

/// A valid unsigned numeric literal: a mantissa, optionally followed by an
/// exponent marker and an exponent.
pub open spec fn is_valid_number_body(t: Seq<char>) -> bool {
    if exists|k: int| 0 <= k < t.len() && is_exp_char(#[trigger] t[k]) {
        exists|k: int|
            0 <= k < t.len() && is_exp_char(#[trigger] t[k]) && is_valid_mantissa(t.take(k))
                && is_valid_exponent(t.skip(k + 1))
    } else {
        is_valid_mantissa(t)
    }
}

/// A valid numeric literal: an optional leading minus sign, then a valid
/// unsigned literal.  This is exactly the set of texts over the number
/// alphabet that denote a 64-bit floating-point value.
pub open spec fn is_valid_number_text(t: Seq<char>) -> bool {
    if t.len() > 0 && t[0] == '-' {
        is_valid_number_body(t.skip(1))
    } else {
        is_valid_number_body(t)
    }
}

/// Matching a bare literal's remaining characters: the expected characters
/// must follow exactly, and the result carries no lookahead.
pub open spec fn sp_literal(s: Seq<char>, i: int, expect: Seq<char>, v: JsonModel) -> ValueStep {
    if i + expect.len() <= s.len() && s.subrange(i, i + expect.len()) == expect {
        ValueStep::Val(v, None, i + expect.len())
    } else {
        ValueStep::Fail(TokenizedError::Invalid)
    }
}

/// Inserting a key/value pair into an association sequence: an existing
/// entry with the same key is overwritten in place; otherwise the pair is
/// appended.
pub open spec fn assoc_update(
    acc: Seq<(Seq<char>, JsonModel)>,
    key: Seq<char>,
    v: JsonModel,
) -> Seq<(Seq<char>, JsonModel)>
    decreases acc.len(),
{
    if acc.len() == 0 {
        seq![(key, v)]
    } else if acc[0].0 == key {
        seq![(key, v)] + acc.skip(1)
    } else {
        seq![acc[0]] + assoc_update(acc.skip(1), key, v)
    }
}

/// Parsing one value, starting at `i` with an optional pending lookahead
/// character (already consumed from the input).
pub open spec fn sp_value(s: Seq<char>, i: int, la: Option<char>) -> ValueStep
    decreases s.len() - i, 2int,
{
    match la {
        Some(c) => sp_dispatch(s, i, c),
        None => match sp_skip_spaces(s, i) {
            None => ValueStep::Fail(TokenizedError::Invalid),
            Some((c, j)) => if i < j <= s.len() {
                sp_dispatch(s, j, c)
            } else {
                ValueStep::Fail(TokenizedError::Invalid)
            },
        },
    }
}

/// Dispatching on the first significant character of a value, which has
/// been consumed already: each leading character selects one grammar
/// production; any other character fails the parse.
pub open spec fn sp_dispatch(s: Seq<char>, i: int, c: char) -> ValueStep
    decreases s.len() - i, 1int,
{
    if c == 'n' {
        sp_literal(s, i, seq!['u', 'l', 'l'], JsonModel::Null)
    } else if c == 't' {
        sp_literal(s, i, seq!['r', 'u', 'e'], JsonModel::True)
    } else if c == 'f' {
        sp_literal(s, i, seq!['a', 'l', 's', 'e'], JsonModel::False)
    } else if c == '"' {
        sp_string_body(s, i, Seq::empty())
    } else if is_digit(c) || c == '-' {
        match sp_number_tail(s, i, seq![c]) {
            NumStep::Done(text, la, j) => if is_valid_number_text(text) {
                ValueStep::Val(JsonModel::Num(text), la, j)
            } else {
                ValueStep::Fail(TokenizedError::Invalid)
            },
            NumStep::Fail(e) => ValueStep::Fail(e),
        }
    } else if c == '[' {
        sp_array_items(s, i, Seq::empty())
    } else if c == '{' {
        sp_object_items(s, i, Seq::empty())
    } else {
        ValueStep::Fail(TokenizedError::Invalid)
    }
}

/// Accumulating the characters of a string literal after its opening quote:
/// logical characters are appended until the closing quote ends the string;
/// the closing quote is consumed and the string carries no lookahead.
pub open spec fn sp_string_body(s: Seq<char>, i: int, acc: Seq<char>) -> ValueStep
    decreases s.len() - i, 0int,
{
    match sp_string_char(s, i) {
        CharStep::Ch(c, j) => if i < j <= s.len() {
            sp_string_body(s, j, acc.push(c))
        } else {
            ValueStep::Fail(TokenizedError::Invalid)
        },
        CharStep::End(j) => ValueStep::Val(JsonModel::Text(acc), None, j),
        CharStep::Fail(e) => ValueStep::Fail(e),
    }
}

/// Accumulating the elements of an array after its opening bracket: before
/// each element the next significant character is found; a closing bracket
/// ends the array, and otherwise an element is parsed starting from that
/// character, followed by a comma to continue or a closing bracket to end.
pub open spec fn sp_array_items(s: Seq<char>, i: int, acc: Seq<JsonModel>) -> ValueStep
    decreases s.len() - i, 0int,
{
    match sp_skip_spaces(s, i) {
        None => ValueStep::Fail(TokenizedError::Invalid),
        Some((c, j)) => if c == ']' {
            ValueStep::Val(JsonModel::Array(acc), None, j)
        } else if !(i < j <= s.len()) {
            ValueStep::Fail(TokenizedError::Invalid)
        } else {
            match sp_value(s, j, Some(c)) {
                ValueStep::Fail(e) => ValueStep::Fail(e),
                ValueStep::Val(v, la, j2) => match sp_next_significant(s, j2, la) {
                    None => ValueStep::Fail(TokenizedError::Invalid),
                    Some((c3, j3)) => if c3 == ',' {
                        if i < j3 <= s.len() {
                            sp_array_items(s, j3, acc.push(v))
                        } else {
                            ValueStep::Fail(TokenizedError::Invalid)
                        }
                    } else if c3 == ']' {
                        ValueStep::Val(JsonModel::Array(acc.push(v)), None, j3)
                    } else {
                        ValueStep::Fail(TokenizedError::Invalid)
                    },
                },
            }
        },
    }
}

/// Accumulating the entries of an object after its opening brace: a closing
/// brace ends the object; otherwise a string key, a colon and a value must
/// follow, the entry is inserted (overwriting an entry with the same key),
/// and a comma continues the object or a closing brace ends it.
pub open spec fn sp_object_items(
    s: Seq<char>,
    i: int,
    acc: Seq<(Seq<char>, JsonModel)>,
) -> ValueStep
    decreases s.len() - i, 0int,
{
    match sp_skip_spaces(s, i) {
        None => ValueStep::Fail(TokenizedError::Invalid),
        Some((c, j)) => if c == '}' {
            ValueStep::Val(JsonModel::Object(acc), None, j)
        } else if !(i < j <= s.len()) {
            ValueStep::Fail(TokenizedError::Invalid)
        } else {
            match sp_value(s, j, Some(c)) {
                ValueStep::Fail(e) => ValueStep::Fail(e),
                ValueStep::Val(keyv, _key_la, j2) => match keyv {
                    JsonModel::Text(key) => match sp_skip_spaces(s, j2) {
                        None => ValueStep::Fail(TokenizedError::Invalid),
                        Some((c2, j3)) => if c2 != ':' {
                            ValueStep::Fail(TokenizedError::Invalid)
                        } else if !(i < j3 <= s.len()) {
                            ValueStep::Fail(TokenizedError::Invalid)
                        } else {
                            match sp_value(s, j3, None) {
                                ValueStep::Fail(e) => ValueStep::Fail(e),
                                ValueStep::Val(v, v_la, j4) => {
                                    match sp_next_significant(s, j4, v_la) {
                                        None => ValueStep::Fail(TokenizedError::Invalid),
                                        Some((c4, j5)) => if c4 == '}' {
                                            ValueStep::Val(
                                                JsonModel::Object(assoc_update(acc, key, v)),
                                                None,
                                                j5,
                                            )
                                        } else if c4 == ',' {
                                            if i < j5 <= s.len() {
                                                sp_object_items(s, j5, assoc_update(acc, key, v))
                                            } else {
                                                ValueStep::Fail(TokenizedError::Invalid)
                                            }
                                        } else {
                                            ValueStep::Fail(TokenizedError::Invalid)
                                        },
                                    }
                                },
                            }
                        },
                    },
                    _ => ValueStep::Fail(TokenizedError::Invalid),
                },
            }
        },
    }
}

/// Skipping whitespace consumes at least the character it returns, never
/// passes the end of the input, and returns the first character that is not
/// a space.
pub proof fn lemma_skip_spaces_bounds(s: Seq<char>, i: int)
    requires
        0 <= i,
    ensures
        match sp_skip_spaces(s, i) {
            Some((c, j)) => i < j <= s.len() && c == s[j - 1] && c != ' ',
            None => true,
        },
    decreases s.len() - i,
{
    if 0 <= i < s.len() && s[i] == ' ' {
        lemma_skip_spaces_bounds(s, i + 1);
    }
}

/// Leading spaces are skipped: parsing with no pending lookahead from a
/// position, and from any later position that only spaces separate from it,
/// yields the same outcome.
pub proof fn lemma_leading_spaces_skipped(s: Seq<char>, i: int, j: int)
    requires
        0 <= i <= j <= s.len(),
        forall|k: int| i <= k < j ==> s[k] == ' ',
    ensures
        sp_value(s, i, None) == sp_value(s, j, None),
    decreases j - i,
{
    if i < j {
        assert(s[i] == ' ');
        lemma_leading_spaces_skipped(s, i + 1, j);
        lemma_skip_spaces_bounds(s, i + 1);
        assert(sp_skip_spaces(s, i) == sp_skip_spaces(s, i + 1));
    }
}

} // verus!
