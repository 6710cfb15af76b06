//! The executable tokenizer: a character source over an in-memory byte
//! sequence, and the recursive-descent parser that turns it into a
//! [`JsonValue`] tree.  Each function is proved to follow the corresponding
//! specification function of [`crate::model`] exactly.

use vstd::prelude::*;

use crate::model::assoc_update;
use crate::model::sp_array_items;
use crate::model::sp_dispatch;
use crate::model::sp_next_significant;
use crate::model::sp_object_items;
use crate::model::sp_string_body;
use crate::model::sp_value;
use crate::model::ValueStep;
use crate::model::is_digit;
use crate::model::is_exp_char;
use crate::model::is_number_char;
use crate::model::is_valid_exponent;
use crate::model::is_valid_mantissa;
use crate::model::is_valid_number_body;
use crate::model::is_valid_number_text;
use crate::model::is_unicode_scalar;
use crate::model::sp_read;
use crate::model::sp_skip_spaces;
use crate::model::sp_string_char;
use crate::model::sp_number_tail;
use crate::model::sp_unicode_escape;
use crate::model::hex_digit_value;
use crate::model::is_hex_digit;
use crate::model::CharStep;
use crate::model::JsonModel;
use crate::model::NumStep;
use vstd::string::StrSliceExecFns;

verus! {

broadcast use vstd::std_specs::vec::group_vec_axioms, vstd::seq::axiom_seq_index_decreases;

/// The ways a tokenizing step can fail.  `EndOfString` is not a user-facing
/// error: it is the sentinel raised when the closing quote of a string
/// literal is reached, and is consumed by the string-accumulation loop.
/// `InvalidChar` reports a malformed escape sequence inside a string;
/// `Invalid` every other malformed input, including input that ends where
/// more characters were required.
#[derive(PartialEq, Eq, Debug)]
pub enum TokenizedError {
    InvalidChar,
    Invalid,
    EndOfString,
}

/// A JSON value: the result of tokenizing one value from the input.  An
/// object is a sequence of key/value pairs with distinct keys, kept in the
/// order the keys first appeared; an array preserves the order of its
/// elements.  A number keeps the text of its literal, checked to be a valid
/// floating-point literal; turning it into a float is left to the caller.
#[derive(PartialEq, Debug)]
pub enum JsonValue {
    Object(Vec<(String, JsonValue)>),
    Array(Vec<JsonValue>),
    String(String),
    Number(String),
    TrueValue,
    FalseValue,
    NullValue,
}

/// The mathematical value that a [`JsonValue`] stands for: containers become
/// sequences of the models of their contents, strings and number texts
/// become their character sequences.
pub open spec fn json_view(v: JsonValue) -> JsonModel
    decreases v,
{
    match v {
        JsonValue::Object(pairs) => JsonModel::Object(json_view_pairs(pairs@)),
        JsonValue::Array(items) => JsonModel::Array(json_view_items(items@)),
        JsonValue::String(text) => JsonModel::Text(text@),
        JsonValue::Number(text) => JsonModel::Num(text@),
        JsonValue::TrueValue => JsonModel::True,
        JsonValue::FalseValue => JsonModel::False,
        JsonValue::NullValue => JsonModel::Null,
    }
}

/// The models of the elements of an array, in order.
pub open spec fn json_view_items(items: Seq<JsonValue>) -> Seq<JsonModel>
    decreases items,
{
    if items.len() == 0 {
        Seq::empty()
    } else {
        seq![json_view(items[0])] + json_view_items(items.subrange(1, items.len() as int))
    }
}

/// The models of the entries of an object, in order.
pub open spec fn json_view_pairs(pairs: Seq<(String, JsonValue)>) -> Seq<(Seq<char>, JsonModel)>
    decreases pairs,
{
    if pairs.len() == 0 {
        Seq::empty()
    } else {
        seq![(pairs[0].0@, json_view(pairs[0].1))] + json_view_pairs(
            pairs.subrange(1, pairs.len() as int),
        )
    }
}

/// The result of tokenizing one value: the value, and the character already
/// read past its end while looking for its terminator, if one was read.
/// Numbers and bare literals have no terminating character of their own, so
/// tokenizing them can consume one character of what follows; that character
/// is handed back here and must be fed into the next tokenizing step.
#[derive(PartialEq, Debug)]
pub struct TokenizedResult {
    pub last_char_read: Option<char>,
    pub result: JsonValue,
}

/// A source of characters: a byte sequence read one byte at a time, each
/// byte taken as one character, together with the current read position.
pub struct CharSource {
    pub bytes: Vec<u8>,
    pub pos: usize,
}

impl CharSource {
    /// The characters of the source, each byte read as one character.
    pub open spec fn chars(&self) -> Seq<char> {
        self.bytes@.map_values(|b: u8| b as char)
    }

    /// The read position never passes the end of the input.
    pub open spec fn wf(&self) -> bool {
        self.pos <= self.bytes@.len()
    }

    /// A source positioned at the start of the given bytes.
    pub fn new(bytes: Vec<u8>) -> (r: CharSource)
        ensures
            r.wf(),
            r.chars() == bytes@.map_values(|b: u8| b as char),
            r.pos == 0,
    {
        CharSource { bytes, pos: 0 }
    }
}

/// Reads the next single character from the source, advancing the position;
/// fails with `Invalid` when the input is exhausted.
pub fn read_one_char(reader: &mut CharSource) -> (r: Result<char, TokenizedError>)
    requires
        old(reader).wf(),
    ensures
        final(reader).wf(),
        final(reader).chars() == old(reader).chars(),
        match sp_read(old(reader).chars(), old(reader).pos as int) {
            Some((c, j)) => r == Ok::<char, TokenizedError>(c) && final(reader).pos == j,
            None => r == Err::<char, TokenizedError>(TokenizedError::Invalid) && final(reader).pos
                == old(reader).pos,
        },
{
    if reader.pos < reader.bytes.len() {
        let b = reader.bytes[reader.pos];
        reader.pos = reader.pos + 1;
        Ok(b as char)
    } else {
        Err(TokenizedError::Invalid)
    }
}

/// Reads characters until one that is not a space is found and returns it;
/// fails with `Invalid` when the input runs out first.
pub fn read_until_not_space(reader: &mut CharSource) -> (r: Result<char, TokenizedError>)
    requires
        old(reader).wf(),
    ensures
        final(reader).wf(),
        final(reader).chars() == old(reader).chars(),
        old(reader).pos <= final(reader).pos,
        match sp_skip_spaces(old(reader).chars(), old(reader).pos as int) {
            Some((c, j)) => r == Ok::<char, TokenizedError>(c) && final(reader).pos == j && old(
                reader,
            ).pos < j,
            None => r == Err::<char, TokenizedError>(TokenizedError::Invalid) && final(reader).pos
                == old(reader).chars().len(),
        },
{
    let ghost s = old(reader).chars();
    let ghost i0 = old(reader).pos as int;
    loop
        invariant
            s == old(reader).chars(),
            i0 == old(reader).pos as int,
            reader.wf(),
            reader.chars() == s,
            i0 <= reader.pos <= s.len(),
            sp_skip_spaces(s, i0) == sp_skip_spaces(s, reader.pos as int),
        decreases s.len() - reader.pos,
    {
        match read_one_char(reader) {
            Err(e) => {
                return Err(e);
            },
            Ok(c) => {
                if c != ' ' {
                    return Ok(c);
                }
            },
        }
    }
}

/// Whether the character may continue a numeric literal: a decimal digit,
/// the decimal point, or an exponent marker.
pub fn is_char_in_number(c: &char) -> (r: bool)
    ensures
        r == is_number_char(*c),
{
    (*c >= '0' && *c <= '9') || *c == '.' || *c == 'E' || *c == 'e'
}

/// Relies on `String::push`: appends the character at the end of the string.
#[verifier::external_body]
fn push_char(text: &mut String, c: char)
    ensures
        final(text)@ == old(text)@.push(c),
{
    text.push(c);
}

/// Relies on `char::from_u32`: `Some` exactly when the value is a Unicode
/// scalar value — not a surrogate and at most the largest code point — and
/// the returned character has that scalar value.
#[verifier::external_body]
fn char_from_u32(v: u32) -> (r: Option<char>)
    ensures
        r == if is_unicode_scalar(v) {
            Some(v as char)
        } else {
            None::<char>
        },
{
    char::from_u32(v)
}

/// The value of a hexadecimal digit character, or nothing for any other
/// character.
fn hex_value(c: char) -> (r: Option<u32>)
    ensures
        r == if is_hex_digit(c) {
            Some(hex_digit_value(c) as u32)
        } else {
            None::<u32>
        },
{
    if c >= '0' && c <= '9' {
        Some(c as u32 - 48)
    } else if c >= 'a' && c <= 'f' {
        Some(c as u32 - 87)
    } else if c >= 'A' && c <= 'F' {
        Some(c as u32 - 55)
    } else {
        None
    }
}

/// Resolves a `\u` escape: reads four characters, takes them as hexadecimal
/// digits of a code point, and converts that code point to a character;
/// fails with `InvalidChar` when fewer than four characters remain, a
/// character is not a hexadecimal digit, or the code point is a surrogate.
fn read_unicode_escape(reader: &mut CharSource) -> (r: Result<char, TokenizedError>)
    requires
        old(reader).wf(),
    ensures
        final(reader).wf(),
        final(reader).chars() == old(reader).chars(),
        old(reader).pos <= final(reader).pos,
        match sp_unicode_escape(old(reader).chars(), old(reader).pos as int) {
            CharStep::Ch(c, j) => r == Ok::<char, TokenizedError>(c) && final(reader).pos == j,
            CharStep::Fail(e) => r == Err::<char, TokenizedError>(e),
            CharStep::End(_) => false,
        },
{
    let c0 = match read_one_char(reader) {
        Ok(c) => c,
        Err(_) => {
            return Err(TokenizedError::InvalidChar);
        },
    };
    let c1 = match read_one_char(reader) {
        Ok(c) => c,
        Err(_) => {
            return Err(TokenizedError::InvalidChar);
        },
    };
    let c2 = match read_one_char(reader) {
        Ok(c) => c,
        Err(_) => {
            return Err(TokenizedError::InvalidChar);
        },
    };
    let c3 = match read_one_char(reader) {
        Ok(c) => c,
        Err(_) => {
            return Err(TokenizedError::InvalidChar);
        },
    };
    let h0 = match hex_value(c0) {
        Some(h) => h,
        None => {
            return Err(TokenizedError::InvalidChar);
        },
    };
    let h1 = match hex_value(c1) {
        Some(h) => h,
        None => {
            return Err(TokenizedError::InvalidChar);
        },
    };
    let h2 = match hex_value(c2) {
        Some(h) => h,
        None => {
            return Err(TokenizedError::InvalidChar);
        },
    };
    let h3 = match hex_value(c3) {
        Some(h) => h,
        None => {
            return Err(TokenizedError::InvalidChar);
        },
    };
    let v = h0 * 0x1000 + h1 * 0x100 + h2 * 0x10 + h3;
    match char_from_u32(v) {
        Some(c) => Ok(c),
        None => Err(TokenizedError::InvalidChar),
    }
}

/// Reads one logical character from inside a string literal, resolving
/// escape sequences; raises the `EndOfString` sentinel at the closing
/// quote.
pub fn read_and_tokenized_char(reader: &mut CharSource) -> (r: Result<char, TokenizedError>)
    requires
        old(reader).wf(),
    ensures
        final(reader).wf(),
        final(reader).chars() == old(reader).chars(),
        old(reader).pos <= final(reader).pos,
        match sp_string_char(old(reader).chars(), old(reader).pos as int) {
            CharStep::Ch(c, j) => r == Ok::<char, TokenizedError>(c) && final(reader).pos == j
                && old(reader).pos < j,
            CharStep::End(j) => r == Err::<char, TokenizedError>(TokenizedError::EndOfString)
                && final(reader).pos == j && old(reader).pos < j,
            CharStep::Fail(e) => r == Err::<char, TokenizedError>(e) && (e
                == TokenizedError::Invalid ==> final(reader).pos == old(reader).chars().len()),
        },
{
    let c = match read_one_char(reader) {
        Ok(c) => c,
        Err(e) => {
            return Err(e);
        },
    };
    if c == '"' {
        return Err(TokenizedError::EndOfString);
    }
    if c != '\\' {
        return Ok(c);
    }
    let e = match read_one_char(reader) {
        Ok(c) => c,
        Err(err) => {
            return Err(err);
        },
    };
    match e {
        '"' => Ok('"'),
        '\\' => Ok('\\'),
        '/' => Ok('/'),
        'n' => Ok('\n'),
        'f' => Ok('\u{000C}'),
        'r' => Ok('\u{000D}'),
        't' => Ok('\u{0009}'),
        'u' => read_unicode_escape(reader),
        _ => Err(TokenizedError::InvalidChar),
    }
}

/// Scans the tail of a numeric literal into `result`: characters of the
/// number alphabet are appended, and the first other character is returned
/// as the caller's lookahead; when the input ends, the number ends with no
/// lookahead.
pub fn read_number(reader: &mut CharSource, result: &mut String) -> (r: Result<
    Option<char>,
    TokenizedError,
>)
    requires
        old(reader).wf(),
    ensures
        final(reader).wf(),
        final(reader).chars() == old(reader).chars(),
        old(reader).pos <= final(reader).pos,
        match sp_number_tail(old(reader).chars(), old(reader).pos as int, old(result)@) {
            NumStep::Done(text, la, j) => r == Ok::<Option<char>, TokenizedError>(la)
                && final(result)@ == text && final(reader).pos == j,
            NumStep::Fail(e) => r == Err::<Option<char>, TokenizedError>(e),
        },
{
    let ghost s = old(reader).chars();
    let ghost i0 = old(reader).pos as int;
    loop
        invariant
            s == old(reader).chars(),
            i0 == old(reader).pos as int,
            reader.wf(),
            reader.chars() == s,
            i0 <= reader.pos <= s.len(),
            sp_number_tail(s, i0, old(result)@) == sp_number_tail(s, reader.pos as int, result@),
        decreases s.len() - reader.pos,
    {
        match read_and_tokenized_char(reader) {
            Ok(c) => {
                if !is_char_in_number(&c) {
                    return Ok(Some(c));
                }
                push_char(result, c);
            },
            Err(TokenizedError::Invalid) => {
                return Ok(None);
            },
            Err(TokenizedError::EndOfString) => {
                return Err(TokenizedError::Invalid);
            },
            Err(TokenizedError::InvalidChar) => {
                return Err(TokenizedError::InvalidChar);
            },
        }
    }
}

/// Finds the next significant character: a lookahead character already in
/// hand is used directly unless it is a space; otherwise characters are
/// read until one that is not a space is found.
fn next_significant(reader: &mut CharSource, la: Option<char>) -> (r: Result<char, TokenizedError>)
    requires
        old(reader).wf(),
    ensures
        final(reader).wf(),
        final(reader).chars() == old(reader).chars(),
        old(reader).pos <= final(reader).pos,
        match sp_next_significant(old(reader).chars(), old(reader).pos as int, la) {
            Some((c, j)) => r == Ok::<char, TokenizedError>(c) && final(reader).pos == j,
            None => r == Err::<char, TokenizedError>(TokenizedError::Invalid) && final(reader).pos
                == old(reader).chars().len(),
        },
{
    match la {
        Some(c) => {
            if c != ' ' {
                Ok(c)
            } else {
                read_until_not_space(reader)
            }
        },
        None => read_until_not_space(reader),
    }
}

/// Reads exactly as many characters as `expect` holds and requires them to
/// match `expect` in order: the remaining characters of a bare literal
/// whose first character has been consumed already.  Too little input or
/// any mismatch is `Invalid`.
fn read_literal_tail(reader: &mut CharSource, expect: &Vec<char>) -> (r: Result<
    (),
    TokenizedError,
>)
    requires
        old(reader).wf(),
    ensures
        final(reader).wf(),
        final(reader).chars() == old(reader).chars(),
        old(reader).pos <= final(reader).pos,
        ({
            let s = old(reader).chars();
            let i = old(reader).pos as int;
            if i + expect@.len() <= s.len() && s.subrange(i, i + expect@.len()) == expect@ {
                r == Ok::<(), TokenizedError>(()) && final(reader).pos == i + expect@.len()
            } else {
                r == Err::<(), TokenizedError>(TokenizedError::Invalid)
            }
        }),
{
    let ghost s = old(reader).chars();
    let ghost i0 = old(reader).pos as int;
    let n = expect.len();
    let mut k: usize = 0;
    while k < n
        invariant
            s == old(reader).chars(),
            i0 == old(reader).pos as int,
            n == expect@.len(),
            reader.wf(),
            reader.chars() == s,
            0 <= k <= n,
            reader.pos == i0 + k,
            forall|j: int| 0 <= j < k ==> s[i0 + j] == expect@[j],
        decreases n - k,
    {
        match read_one_char(reader) {
            Err(_) => {
                proof {
                    assert(i0 + k == s.len());
                    assert(i0 + expect@.len() > s.len());
                }
                return Err(TokenizedError::Invalid);
            },
            Ok(c) => {
                if c != expect[k] {
                    proof {
                        if i0 + n <= s.len() && s.subrange(i0, i0 + n as int) == expect@ {
                            assert(s.subrange(i0, i0 + n as int)[k as int] == s[i0 + k]);
                        }
                    }
                    return Err(TokenizedError::Invalid);
                }
            },
        }
        k = k + 1;
    }
    proof {
        assert(s.subrange(i0, i0 + n as int) =~= expect@);
    }
    Ok(())
}

/// The model of an array is as long as the array, and each element's model
/// stands at the element's position.
pub proof fn lemma_json_view_items_index(items: Seq<JsonValue>)
    ensures
        json_view_items(items).len() == items.len(),
        forall|k: int| 0 <= k < items.len() ==> json_view_items(items)[k] == json_view(
            #[trigger] items[k],
        ),
    decreases items.len(),
{
    if items.len() > 0 {
        lemma_json_view_items_index(items.subrange(1, items.len() as int));
        assert forall|k: int| 0 <= k < items.len() implies json_view_items(items)[k] == json_view(
            #[trigger] items[k],
        ) by {
            if k > 0 {
                assert(items.subrange(1, items.len() as int)[k - 1] == items[k]);
            }
        }
    }
}

/// The model of an object is as long as its entry sequence, and each
/// entry's model stands at the entry's position.
pub proof fn lemma_json_view_pairs_index(pairs: Seq<(String, JsonValue)>)
    ensures
        json_view_pairs(pairs).len() == pairs.len(),
        forall|k: int| 0 <= k < pairs.len() ==> json_view_pairs(pairs)[k] == ((
        #[trigger] pairs[k]).0@, json_view(pairs[k].1)),
    decreases pairs.len(),
{
    if pairs.len() > 0 {
        lemma_json_view_pairs_index(pairs.subrange(1, pairs.len() as int));
        assert forall|k: int| 0 <= k < pairs.len() implies json_view_pairs(pairs)[k] == ((
        #[trigger] pairs[k]).0@, json_view(pairs[k].1)) by {
            if k > 0 {
                assert(pairs.subrange(1, pairs.len() as int)[k - 1] == pairs[k]);
            }
        }
    }
}

/// Overwriting the entry whose key already stands at position `m` leaves
/// the entries before and after it unchanged.
proof fn lemma_assoc_update_found(
    acc: Seq<(Seq<char>, JsonModel)>,
    key: Seq<char>,
    v: JsonModel,
    m: int,
)
    requires
        0 <= m < acc.len(),
        acc[m].0 == key,
        forall|k: int| 0 <= k < m ==> (#[trigger] acc[k]).0 != key,
    ensures
        assoc_update(acc, key, v) == acc.update(m, (key, v)),
    decreases m,
{
    if m == 0 {
        assert(seq![(key, v)] + acc.skip(1) =~= acc.update(0, (key, v)));
    } else {
        assert(forall|k: int| 0 <= k < m - 1 ==> (#[trigger] acc.skip(1)[k]).0 != key);
        assert(acc.skip(1)[m - 1] == acc[m]);
        lemma_assoc_update_found(acc.skip(1), key, v, m - 1);
        assert(seq![acc[0]] + acc.skip(1).update(m - 1, (key, v)) =~= acc.update(m, (key, v)));
    }
}

/// Inserting a key that no entry holds appends the new entry at the end.
proof fn lemma_assoc_update_missing(acc: Seq<(Seq<char>, JsonModel)>, key: Seq<char>, v: JsonModel)
    requires
        forall|k: int| 0 <= k < acc.len() ==> (#[trigger] acc[k]).0 != key,
    ensures
        assoc_update(acc, key, v) == acc.push((key, v)),
    decreases acc.len(),
{
    if acc.len() == 0 {
        assert(seq![(key, v)] =~= acc.push((key, v)));
    } else {
        assert(forall|k: int| 0 <= k < acc.skip(1).len() ==> (#[trigger] acc.skip(1)[k]).0 != key);
        lemma_assoc_update_missing(acc.skip(1), key, v);
        assert(seq![acc[0]] + acc.skip(1).push((key, v)) =~= acc.push((key, v)));
    }
}

/// Inserts a key/value pair into the entries of an object, overwriting the
/// entry with the same key if one exists and appending otherwise.
fn object_insert(pairs: &mut Vec<(String, JsonValue)>, key: String, value: JsonValue)
    ensures
        json_view_pairs(final(pairs)@) == assoc_update(
            json_view_pairs(old(pairs)@),
            key@,
            json_view(value),
        ),
{
    let ghost keyv = key@;
    let ghost valv = json_view(value);
    let n = pairs.len();
    let mut m: usize = 0;
    while m < n
        invariant
            n == pairs@.len(),
            0 <= m <= n,
            pairs@ == old(pairs)@,
            keyv == key@,
            valv == json_view(value),
            forall|k: int| 0 <= k < m ==> (#[trigger] pairs@[k]).0@ != keyv,
        decreases n - m,
    {
        if pairs[m].0 == key {
            let ghost pairs0 = pairs@;
            pairs[m] = (key, value);
            proof {
                lemma_json_view_pairs_index(pairs0);
                lemma_json_view_pairs_index(pairs@);
                let ov = json_view_pairs(pairs0);
                assert(ov[m as int].0 == keyv);
                assert forall|k: int| 0 <= k < m implies (#[trigger] ov[k]).0 != keyv by {
                    assert(ov[k] == (pairs0[k].0@, json_view(pairs0[k].1)));
                }
                lemma_assoc_update_found(ov, keyv, valv, m as int);
                assert(pairs@[m as int].0@ == keyv && json_view(pairs@[m as int].1) == valv);
                assert forall|k: int| 0 <= k < pairs@.len() implies json_view_pairs(pairs@)[k]
                    == ov.update(m as int, (keyv, valv))[k] by {
                    if k != m {
                        assert(pairs@[k] == pairs0[k]);
                    }
                }
                assert(json_view_pairs(pairs@) =~= ov.update(m as int, (keyv, valv)));
            }
            return ;
        }
        m = m + 1;
    }
    let ghost pairs0 = pairs@;
    pairs.push((key, value));
    proof {
        lemma_json_view_pairs_index(pairs0);
        lemma_json_view_pairs_index(pairs@);
        let ov = json_view_pairs(pairs0);
        assert forall|k: int| 0 <= k < ov.len() implies (#[trigger] ov[k]).0 != keyv by {
            assert(ov[k] == (pairs0[k].0@, json_view(pairs0[k].1)));
        }
        lemma_assoc_update_missing(ov, keyv, valv);
        assert(pairs@[n as int].0@ == keyv && json_view(pairs@[n as int].1) == valv);
        assert forall|k: int| 0 <= k < pairs@.len() implies json_view_pairs(pairs@)[k] == ov.push(
            (keyv, valv),
        )[k] by {
            if k != n {
                assert(pairs@[k] == pairs0[k]);
            }
        }
        assert(json_view_pairs(pairs@) =~= ov.push((keyv, valv)));
    }
}

/// Tokenizing is deterministic: any two results that the tokenizer's
/// contract admits for one input — the same characters, position and
/// pending lookahead — carry the same value model, the same lookahead and
/// the same final position.  Parsing equal inputs from independent sources
/// therefore yields structurally equal trees.
pub proof fn lemma_tokenizing_deterministic(
    s: Seq<char>,
    i: int,
    la: Option<char>,
    t1: TokenizedResult,
    j1: int,
    t2: TokenizedResult,
    j2: int,
)
    requires
        sp_value(s, i, la) == ValueStep::Val(json_view(t1.result), t1.last_char_read, j1),
        sp_value(s, i, la) == ValueStep::Val(json_view(t2.result), t2.last_char_read, j2),
    ensures
        json_view(t1.result) == json_view(t2.result),
        t1.last_char_read == t2.last_char_read,
        j1 == j2,
{
}

/// Tokenizes one JSON value from the source.  The leading character is the
/// pending lookahead if one is supplied, and otherwise the next significant
/// character of the input; it selects the production: `null`, `true`,
/// `false`, a string, a number, an array or an object.  The result carries
/// the value and, for numbers, the character read past the value's end, to
/// be handed to the next call.  The outcome and the final read position are
/// exactly those of [`sp_value`] on the source's characters.
pub fn tokenized(reader: &mut CharSource, last_char: Option<char>) -> (r: Result<
    TokenizedResult,
    TokenizedError,
>)
    requires
        old(reader).wf(),
    ensures
        final(reader).wf(),
        final(reader).chars() == old(reader).chars(),
        old(reader).pos <= final(reader).pos,
        match sp_value(old(reader).chars(), old(reader).pos as int, last_char) {
            ValueStep::Val(v, la, j) => r matches Ok(t) && json_view(t.result) == v
                && t.last_char_read == la && final(reader).pos == j,
            ValueStep::Fail(e) => r matches Err(e2) && e2 == e,
        },
    decreases old(reader).bytes@.len() - old(reader).pos,
{
    let ghost s = old(reader).chars();
    let ghost p0 = old(reader).pos as int;
    let c = match last_char {
        Some(c) => c,
        None => match read_until_not_space(reader) {
            Ok(c) => c,
            Err(e) => {
                return Err(e);
            },
        },
    };
    let ghost i0 = reader.pos as int;
    proof {
        assert(sp_value(s, p0, last_char) == sp_dispatch(s, i0, c));
    }
    match c {
        'n' => {
            let expect = vec!['u', 'l', 'l'];
            proof {
                assert(expect@ =~= seq!['u', 'l', 'l']);
            }
            match read_literal_tail(reader, &expect) {
                Ok(_) => Ok(
                    TokenizedResult { last_char_read: None, result: JsonValue::NullValue },
                ),
                Err(e) => Err(e),
            }
        },
        't' => {
            let expect = vec!['r', 'u', 'e'];
            proof {
                assert(expect@ =~= seq!['r', 'u', 'e']);
            }
            match read_literal_tail(reader, &expect) {
                Ok(_) => Ok(
                    TokenizedResult { last_char_read: None, result: JsonValue::TrueValue },
                ),
                Err(e) => Err(e),
            }
        },
        'f' => {
            let expect = vec!['a', 'l', 's', 'e'];
            proof {
                assert(expect@ =~= seq!['a', 'l', 's', 'e']);
            }
            match read_literal_tail(reader, &expect) {
                Ok(_) => Ok(
                    TokenizedResult { last_char_read: None, result: JsonValue::FalseValue },
                ),
                Err(e) => Err(e),
            }
        },
        '"' => {
            let mut acc = String::new();
            loop
                invariant
                    s == old(reader).chars(),
                    p0 == old(reader).pos as int,
                    reader.wf(),
                    reader.chars() == s,
                    p0 <= reader.pos <= s.len(),
                    sp_value(s, p0, last_char) == sp_string_body(s, reader.pos as int, acc@),
                decreases s.len() - reader.pos,
            {
                match read_and_tokenized_char(reader) {
                    Ok(ch) => {
                        push_char(&mut acc, ch);
                    },
                    Err(TokenizedError::EndOfString) => {
                        return Ok(
                            TokenizedResult {
                                last_char_read: None,
                                result: JsonValue::String(acc),
                            },
                        );
                    },
                    Err(e) => {
                        return Err(e);
                    },
                }
            }
        },
        '[' => {
            let mut items: Vec<JsonValue> = Vec::new();
            proof {
                assert(json_view_items(items@) =~= Seq::<JsonModel>::empty());
            }
            loop
                invariant
                    s == old(reader).chars(),
                    p0 == old(reader).pos as int,
                    reader.wf(),
                    reader.chars() == s,
                    p0 <= reader.pos <= s.len(),
                    sp_value(s, p0, last_char) == sp_array_items(
                        s,
                        reader.pos as int,
                        json_view_items(items@),
                    ),
                decreases s.len() - reader.pos,
            {
                let c2 = match read_until_not_space(reader) {
                    Ok(cc) => cc,
                    Err(e) => {
                        return Err(e);
                    },
                };
                if c2 == ']' {
                    return Ok(
                        TokenizedResult { last_char_read: None, result: JsonValue::Array(items) },
                    );
                }
                let elem = match tokenized(reader, Some(c2)) {
                    Ok(t) => t,
                    Err(e) => {
                        return Err(e);
                    },
                };
                let ela = elem.last_char_read;
                let ghost items0 = items@;
                items.push(elem.result);
                proof {
                    lemma_json_view_items_index(items0);
                    lemma_json_view_items_index(items@);
                    assert forall|k: int| 0 <= k < items@.len() implies json_view_items(items@)[k]
                        == json_view_items(items0).push(json_view(items@[items@.len() - 1]))[k] by {
                        if k < items@.len() - 1 {
                            assert(items@[k] == items0[k]);
                        }
                    }
                    assert(json_view_items(items@) =~= json_view_items(items0).push(
                        json_view(items@[items@.len() - 1]),
                    ));
                }
                let c3 = match next_significant(reader, ela) {
                    Ok(cc) => cc,
                    Err(e) => {
                        return Err(e);
                    },
                };
                if c3 == ',' {
                } else if c3 == ']' {
                    return Ok(
                        TokenizedResult { last_char_read: None, result: JsonValue::Array(items) },
                    );
                } else {
                    return Err(TokenizedError::Invalid);
                }
            }
        },
        '{' => {
            let mut pairs: Vec<(String, JsonValue)> = Vec::new();
            proof {
                assert(json_view_pairs(pairs@) =~= Seq::<(Seq<char>, JsonModel)>::empty());
            }
            loop
                invariant
                    s == old(reader).chars(),
                    p0 == old(reader).pos as int,
                    reader.wf(),
                    reader.chars() == s,
                    p0 <= reader.pos <= s.len(),
                    sp_value(s, p0, last_char) == sp_object_items(
                        s,
                        reader.pos as int,
                        json_view_pairs(pairs@),
                    ),
                decreases s.len() - reader.pos,
            {
                let c2 = match read_until_not_space(reader) {
                    Ok(cc) => cc,
                    Err(e) => {
                        return Err(e);
                    },
                };
                if c2 == '}' {
                    return Ok(
                        TokenizedResult { last_char_read: None, result: JsonValue::Object(pairs) },
                    );
                }
                let keyr = match tokenized(reader, Some(c2)) {
                    Ok(t) => t,
                    Err(e) => {
                        return Err(e);
                    },
                };
                let key = match keyr.result {
                    JsonValue::String(k) => k,
                    _ => {
                        return Err(TokenizedError::Invalid);
                    },
                };
                let c3 = match read_until_not_space(reader) {
                    Ok(cc) => cc,
                    Err(e) => {
                        return Err(e);
                    },
                };
                if c3 != ':' {
                    return Err(TokenizedError::Invalid);
                }
                let valr = match tokenized(reader, None) {
                    Ok(t) => t,
                    Err(e) => {
                        return Err(e);
                    },
                };
                let vla = valr.last_char_read;
                object_insert(&mut pairs, key, valr.result);
                let c4 = match next_significant(reader, vla) {
                    Ok(cc) => cc,
                    Err(e) => {
                        return Err(e);
                    },
                };
                if c4 == '}' {
                    return Ok(
                        TokenizedResult { last_char_read: None, result: JsonValue::Object(pairs) },
                    );
                } else if c4 == ',' {
                } else {
                    return Err(TokenizedError::Invalid);
                }
            }
        },
        other => {
            if (other >= '0' && other <= '9') || other == '-' {
                let mut text = String::new();
                push_char(&mut text, other);
                proof {
                    assert(text@ =~= seq![other]);
                }
                let la = match read_number(reader, &mut text) {
                    Ok(la) => la,
                    Err(e) => {
                        return Err(e);
                    },
                };
                if check_number_text(&text) {
                    Ok(TokenizedResult { last_char_read: la, result: JsonValue::Number(text) })
                } else {
                    Err(TokenizedError::Invalid)
                }
            } else {
                Err(TokenizedError::Invalid)
            }
        },
    }
}

/// Whether the characters of `s` between `lo` and `hi` form a valid
/// mantissa: at least one digit, at most one decimal point, nothing else.
fn check_mantissa(s: &str, lo: usize, hi: usize) -> (r: bool)
    requires
        lo <= hi <= s@.len(),
    ensures
        r == is_valid_mantissa(s@.subrange(lo as int, hi as int)),
{
    let ghost t = s@.subrange(lo as int, hi as int);
    let mut seen_digit = false;
    let mut seen_dot = false;
    let mut idx: usize = 0;
    while idx < hi - lo
        invariant
            lo <= hi <= s@.len(),
            t == s@.subrange(lo as int, hi as int),
            0 <= idx <= t.len(),
            t.len() == hi - lo,
            forall|k: int| 0 <= k < idx ==> is_digit(#[trigger] t[k]) || t[k] == '.',
            seen_digit == exists|k: int| 0 <= k < idx && is_digit(#[trigger] t[k]),
            seen_dot == exists|k: int| 0 <= k < idx && #[trigger] t[k] == '.',
            forall|k1: int, k2: int|
                0 <= k1 < idx && 0 <= k2 < idx && #[trigger] t[k1] == '.' && #[trigger] t[k2]
                    == '.' ==> k1 == k2,
        decreases hi - lo - idx,
    {
        let c = s.get_char(lo + idx);
        assert(c == t[idx as int]);
        if c >= '0' && c <= '9' {
            seen_digit = true;
        } else if c == '.' {
            if seen_dot {
                proof {
                    let k0 = choose|k: int| 0 <= k < idx && #[trigger] t[k] == '.';
                    assert(t[k0] == '.' && t[idx as int] == '.' && k0 != idx);
                }
                return false;
            }
            seen_dot = true;
        } else {
            assert(!(is_digit(t[idx as int]) || t[idx as int] == '.'));
            return false;
        }
        idx = idx + 1;
    }
    seen_digit
}

/// Whether the characters of `s` between `lo` and `hi` form a valid
/// exponent: one or more digits and nothing else.
fn check_exp_digits(s: &str, lo: usize, hi: usize) -> (r: bool)
    requires
        lo <= hi <= s@.len(),
    ensures
        r == is_valid_exponent(s@.subrange(lo as int, hi as int)),
{
    let ghost t = s@.subrange(lo as int, hi as int);
    if lo == hi {
        return false;
    }
    let mut idx: usize = 0;
    while idx < hi - lo
        invariant
            lo <= hi <= s@.len(),
            t == s@.subrange(lo as int, hi as int),
            0 <= idx <= t.len(),
            t.len() == hi - lo,
            forall|k: int| 0 <= k < idx ==> is_digit(#[trigger] t[k]),
        decreases hi - lo - idx,
    {
        let c = s.get_char(lo + idx);
        assert(c == t[idx as int]);
        if !(c >= '0' && c <= '9') {
            return false;
        }
        idx = idx + 1;
    }
    true
}

/// Whether the text is a valid numeric literal: an optional leading minus,
/// a mantissa, and optionally an exponent marker followed by digits.
#[verifier::rlimit(50)]
fn check_number_text(text: &String) -> (r: bool)
    ensures
        r == is_valid_number_text(text@),
{
    let s = text.as_str();
    let n = s.unicode_len();
    let start: usize = if n > 0 && s.get_char(0) == '-' {
        1
    } else {
        0
    };
    let ghost t = text@.skip(start as int);
    proof {
        if !(text@.len() > 0 && text@[0] == '-') {
            assert(text@.skip(0) =~= text@);
        }
        assert(is_valid_number_text(text@) == is_valid_number_body(t));
    }
    let mut k = start;
    let mut e_idx: usize = 0;
    let mut found = false;
    while k < n && !found
        invariant
            start <= k <= n,
            n == text@.len(),
            s@ == text@,
            start <= 1,
            t == text@.skip(start as int),
            !found ==> forall|j: int| start <= j < k ==> !is_exp_char(#[trigger] text@[j]),
            found ==> start <= e_idx < n && is_exp_char(text@[e_idx as int]) && forall|j: int|
                start <= j < e_idx ==> !is_exp_char(#[trigger] text@[j]),
        decreases n - k + if found {
            0int
        } else {
            1int
        },
    {
        let c = s.get_char(k);
        if c == 'e' || c == 'E' {
            found = true;
            e_idx = k;
        } else {
            k = k + 1;
        }
    }
    if found {
        let m_ok = check_mantissa(s, start, e_idx);
        let x_ok = check_exp_digits(s, e_idx + 1, n);
        proof {
            let e = e_idx - start;
            assert(t[e] == text@[e_idx as int]);
            assert(t.take(e) =~= s@.subrange(start as int, e_idx as int));
            assert(t.skip(e + 1) =~= s@.subrange(e_idx as int + 1, n as int));
            if m_ok && x_ok {
                assert(0 <= e < t.len() && is_exp_char(t[e]) && is_valid_mantissa(t.take(e))
                    && is_valid_exponent(t.skip(e + 1)));
                assert(is_valid_number_body(t));
            } else {
                assert(!is_valid_number_body(t)) by {
                    if is_valid_number_body(t) {
                        assert(exists|j: int|
                            0 <= j < t.len() && is_exp_char(#[trigger] t[j]) && is_valid_mantissa(
                                t.take(j),
                            ) && is_valid_exponent(t.skip(j + 1)));
                        let j = choose|j: int|
                            0 <= j < t.len() && is_exp_char(#[trigger] t[j]) && is_valid_mantissa(
                                t.take(j),
                            ) && is_valid_exponent(t.skip(j + 1));
                        assert(t[j] == text@[start + j]);
                        assert(j >= e);
                        if j > e {
                            assert(t.take(j)[e] == t[e]);
                            assert(is_digit(t[e]) || t[e] == '.');
                            assert(false);
                        }
                    }
                }
            }
        }
        m_ok && x_ok
    } else {
        let m_ok = check_mantissa(s, start, n);
        proof {
            assert(t =~= s@.subrange(start as int, n as int));
            assert(forall|j: int| 0 <= j < t.len() ==> !is_exp_char(#[trigger] t[j]));
            assert(is_valid_number_body(t) == is_valid_mantissa(t));
        }
        m_ok
    }
}

} // verus!
