//! The item model: one unit of work, decoded from the JSON payload of a
//! stream record. The payload grammar is an object with three required
//! members — integer `id`, string `description`, integer `count` — in any
//! order, with surrounding whitespace, string escapes, and unknown scalar
//! members ignored. The grammar is written down as a specification-level
//! parser, and the executable decoder is proved to agree with it exactly.

use vstd::prelude::*;
use vstd::utf8::{
    decode_utf8, encode_scalar, encode_utf8, is_leading_byte_width_1, valid_utf8,
    valid_leading_and_continuation_bytes_first_codepoint, decode_first_codepoint,
    length_of_first_codepoint, pop_first_scalar, is_scalar,
};

verus! {

pub const QUOTE: u8 = 0x22;
pub const BACKSLASH: u8 = 0x5c;
pub const LBRACE: u8 = 0x7b;
pub const RBRACE: u8 = 0x7d;
pub const COLON: u8 = 0x3a;
pub const COMMA: u8 = 0x2c;
pub const MINUS: u8 = 0x2d;
pub const LBRACKET: u8 = 0x5b;
pub const RBRACKET: u8 = 0x5d;

/// Whitespace accepted between tokens.
pub open spec fn is_ws_byte(b: u8) -> bool {
    b == 0x20 || b == 0x09 || b == 0x0a || b == 0x0d
}

/// Decimal digit.
pub open spec fn is_digit(b: u8) -> bool {
    0x30 <= b && b <= 0x39
}

/// First index at or after `i` holding a non-whitespace byte (or the end).
pub open spec fn skip_ws(s: Seq<u8>, i: int) -> int
    decreases s.len() - i,
{
    if 0 <= i && i < s.len() && is_ws_byte(s[i]) {
        skip_ws(s, i + 1)
    } else {
        i
    }
}

/// Byte denoted by a two-character escape, if the escape is accepted.
pub open spec fn unescape(b: u8) -> Option<u8> {
    if b == QUOTE {
        Some(QUOTE)
    } else if b == BACKSLASH {
        Some(BACKSLASH)
    } else if b == 0x2f {
        Some(0x2fu8)
    } else if b == 0x62 {
        Some(0x08u8)
    } else if b == 0x66 {
        Some(0x0cu8)
    } else if b == 0x6e {
        Some(0x0au8)
    } else if b == 0x72 {
        Some(0x0du8)
    } else if b == 0x74 {
        Some(0x09u8)
    } else {
        None
    }
}

/// Byte accepted unescaped inside a string literal: anything at or above
/// the space, except the quote and the backslash; bytes at or above 0x80
/// carry the raw UTF-8 encoding of non-ASCII characters.
pub open spec fn is_plain_char(b: u8) -> bool {
    0x20 <= b && b != QUOTE && b != BACKSLASH
}

/// Value of one hexadecimal digit byte.
pub open spec fn hex_val(b: u8) -> Option<u32> {
    if 0x30 <= b && b <= 0x39 {
        Some((b - 0x30) as u32)
    } else if 0x61 <= b && b <= 0x66 {
        Some((b - 0x61 + 10) as u32)
    } else if 0x41 <= b && b <= 0x46 {
        Some((b - 0x41 + 10) as u32)
    } else {
        None
    }
}

/// Value of four hexadecimal digit bytes at `i`.
pub open spec fn parse_hex4(s: Seq<u8>, i: int) -> Option<u32> {
    if 0 <= i && i + 4 <= s.len() {
        match (hex_val(s[i]), hex_val(s[i + 1]), hex_val(s[i + 2]), hex_val(s[i + 3])) {
            (Some(a), Some(b), Some(c), Some(d)) => Some(
                (a * 0x1000 + b * 0x100 + c * 0x10 + d) as u32,
            ),
            _ => None,
        }
    } else {
        None
    }
}

/// Scalar denoted by a high and a low surrogate escape pair.
pub open spec fn combine_surrogates(hi: u32, lo: u32) -> u32 {
    (0x10000 + (hi - 0xd800) * 0x400 + (lo - 0xdc00)) as u32
}

/// Parses the remainder of a string literal, starting just after the opening
/// quote; on success yields the content as UTF-8 bytes (escapes expanded)
/// and the index just after the closing quote. A high surrogate escape must
/// be followed by a low one; a lone low surrogate is rejected.
pub open spec fn parse_str_rest(s: Seq<u8>, i: int) -> Option<(Seq<u8>, int)>
    decreases s.len() - i,
{
    if !(0 <= i && i < s.len()) {
        None
    } else if s[i] == QUOTE {
        Some((Seq::empty(), i + 1))
    } else if s[i] == BACKSLASH {
        if i + 1 < s.len() {
            if s[i + 1] == 0x75 {
                match parse_hex4(s, i + 2) {
                    Some(cp) => if 0xd800 <= cp && cp < 0xdc00 {
                        if i + 12 <= s.len() && s[i + 6] == BACKSLASH && s[i + 7] == 0x75 {
                            match parse_hex4(s, i + 8) {
                                Some(cp2) => if 0xdc00 <= cp2 && cp2 < 0xe000 {
                                    match parse_str_rest(s, i + 12) {
                                        Some((rest, j)) => Some(
                                            (encode_scalar(combine_surrogates(cp, cp2)) + rest, j),
                                        ),
                                        None => None,
                                    }
                                } else {
                                    None
                                },
                                None => None,
                            }
                        } else {
                            None
                        }
                    } else if 0xdc00 <= cp && cp < 0xe000 {
                        None
                    } else {
                        match parse_str_rest(s, i + 6) {
                            Some((rest, j)) => Some((encode_scalar(cp) + rest, j)),
                            None => None,
                        }
                    },
                    None => None,
                }
            } else {
                match unescape(s[i + 1]) {
                    Some(b) => match parse_str_rest(s, i + 2) {
                        Some((rest, j)) => Some((seq![b] + rest, j)),
                        None => None,
                    },
                    None => None,
                }
            }
        } else {
            None
        }
    } else if is_plain_char(s[i]) {
        match parse_str_rest(s, i + 1) {
            Some((rest, j)) => Some((seq![s[i]] + rest, j)),
            None => None,
        }
    } else {
        None
    }
}

/// A whole string literal at `i`: opening quote, content, closing quote; the
/// content must be valid UTF-8, as every JSON string is.
pub open spec fn parse_string_valid(s: Seq<u8>, i: int) -> Option<(Seq<u8>, int)> {
    if 0 <= i && i < s.len() && s[i] == QUOTE {
        match parse_str_rest(s, i + 1) {
            Some((content, j)) => if valid_utf8(content) {
                Some((content, j))
            } else {
                None
            },
            None => None,
        }
    } else {
        None
    }
}

/// First index at or after `i` holding a non-digit byte (or the end).
pub open spec fn end_of_digits(s: Seq<u8>, i: int) -> int
    decreases s.len() - i,
{
    if 0 <= i && i < s.len() && is_digit(s[i]) {
        end_of_digits(s, i + 1)
    } else {
        i
    }
}

/// Value of a run of decimal digit bytes.
pub open spec fn digits_val(d: Seq<u8>) -> int
    decreases d.len(),
{
    if d.len() == 0 {
        0
    } else {
        digits_val(d.drop_last()) * 10 + (d.last() - 0x30)
    }
}

/// Parses an unsigned decimal integer at `i`: at least one digit, no leading
/// zero unless the number is `0` itself, and at most nineteen digits (every
/// value of the wire type has at most nineteen).
pub open spec fn parse_uint(s: Seq<u8>, i: int) -> Option<(int, int)> {
    let j = end_of_digits(s, i);
    if j == i {
        None
    } else if s[i] == 0x30 && j > i + 1 {
        None
    } else if j - i > 19 {
        None
    } else {
        Some((digits_val(s.subrange(i, j)), j))
    }
}

/// Least value of the wire integer type.
pub open spec fn i64_min_val() -> int {
    -0x8000000000000000
}

/// Greatest value of the wire integer type.
pub open spec fn i64_max_val() -> int {
    0x7fffffffffffffff
}

/// Parses a signed decimal integer at `i`, rejecting values outside the
/// 64-bit signed range.
pub open spec fn parse_int(s: Seq<u8>, i: int) -> Option<(int, int)> {
    if 0 <= i && i < s.len() && s[i] == MINUS {
        match parse_uint(s, i + 1) {
            Some((m, j)) => if -m >= i64_min_val() {
                Some((-m, j))
            } else {
                None
            },
            None => None,
        }
    } else {
        match parse_uint(s, i) {
            Some((m, j)) => if m <= i64_max_val() {
                Some((m, j))
            } else {
                None
            },
            None => None,
        }
    }
}

/// Whether `s` holds the bytes of `word` starting at `i`.
pub open spec fn has_word(s: Seq<u8>, i: int, word: Seq<u8>) -> bool {
    i + word.len() <= s.len() && s.subrange(i, i + word.len()) == word
}

pub open spec fn true_word() -> Seq<u8> {
    seq![0x74u8, 0x72, 0x75, 0x65]
}

pub open spec fn false_word() -> Seq<u8> {
    seq![0x66u8, 0x61, 0x6c, 0x73, 0x65]
}

pub open spec fn null_word() -> Seq<u8> {
    seq![0x6eu8, 0x75, 0x6c, 0x6c]
}

/// Skips one JSON number at `i`: optional sign, integer part without a
/// leading zero, optional fraction and exponent. No range limit: a skipped
/// number may be of any size.
pub open spec fn skip_number(s: Seq<u8>, i: int) -> Option<int> {
    let i1 = if 0 <= i && i < s.len() && s[i] == MINUS {
        i + 1
    } else {
        i
    };
    let j = end_of_digits(s, i1);
    if j == i1 {
        None
    } else if s[i1] == 0x30 && j > i1 + 1 {
        None
    } else {
        let j2 = if j < s.len() && s[j] == 0x2e {
            let k = end_of_digits(s, j + 1);
            if k == j + 1 {
                -1
            } else {
                k
            }
        } else {
            j
        };
        if j2 < 0 {
            None
        } else {
            let j3 = if j2 < s.len() && (s[j2] == 0x65 || s[j2] == 0x45) {
                let e1 = if j2 + 1 < s.len() && (s[j2 + 1] == 0x2b || s[j2 + 1] == MINUS) {
                    j2 + 2
                } else {
                    j2 + 1
                };
                let k = end_of_digits(s, e1);
                if k == e1 {
                    -1
                } else {
                    k
                }
            } else {
                j2
            };
            if j3 < 0 {
                None
            } else {
                Some(j3)
            }
        }
    }
}

/// Skips one JSON value of any shape at `i`: a string, a number, a bare
/// word, an array or an object. Unknown members hold such values; their
/// content is checked for well-formedness and otherwise ignored.
pub open spec fn skip_value(s: Seq<u8>, i: int) -> Option<int>
    decreases s.len() - i, 0int,
{
    if !(0 <= i && i < s.len()) {
        None
    } else if s[i] == QUOTE {
        match parse_string_valid(s, i) {
            Some((_content, j)) => Some(j),
            None => None,
        }
    } else if s[i] == MINUS || is_digit(s[i]) {
        skip_number(s, i)
    } else if has_word(s, i, true_word()) {
        Some(i + 4)
    } else if has_word(s, i, false_word()) {
        Some(i + 5)
    } else if has_word(s, i, null_word()) {
        Some(i + 4)
    } else if s[i] == LBRACKET {
        let j = skip_ws(s, i + 1);
        if i < j && j <= s.len() {
            skip_array_items(s, j)
        } else {
            None
        }
    } else if s[i] == LBRACE {
        let j = skip_ws(s, i + 1);
        if i < j && j <= s.len() {
            skip_object_items(s, j)
        } else {
            None
        }
    } else {
        None
    }
}

/// Skips the items of an array from the position of the closing bracket or
/// of the first item, up to and including the closing bracket.
pub open spec fn skip_array_items(s: Seq<u8>, i: int) -> Option<int>
    decreases s.len() - i, 1int,
{
    if !(0 <= i && i < s.len()) {
        None
    } else if s[i] == RBRACKET {
        Some(i + 1)
    } else {
        match skip_value(s, i) {
            Some(j) => {
                let j1 = skip_ws(s, j);
                if j1 < s.len() && s[j1] == RBRACKET {
                    Some(j1 + 1)
                } else if j1 < s.len() && s[j1] == COMMA {
                    let j2 = skip_ws(s, j1 + 1);
                    if i < j2 && j2 <= s.len() {
                        skip_array_items(s, j2)
                    } else {
                        None
                    }
                } else {
                    None
                }
            },
            None => None,
        }
    }
}

/// Skips the members of a nested object from the position of the closing
/// brace or of the first key, up to and including the closing brace.
pub open spec fn skip_object_items(s: Seq<u8>, i: int) -> Option<int>
    decreases s.len() - i, 1int,
{
    if !(0 <= i && i < s.len()) {
        None
    } else if s[i] == RBRACE {
        Some(i + 1)
    } else if s[i] == QUOTE {
        match parse_string_valid(s, i) {
            Some((_key, j)) => {
                let j1 = skip_ws(s, j);
                if j1 < s.len() && s[j1] == COLON {
                    let j2 = skip_ws(s, j1 + 1);
                    if i < j2 && j2 <= s.len() {
                        match skip_value(s, j2) {
                            Some(j3) => {
                                let j4 = skip_ws(s, j3);
                                if j4 < s.len() && s[j4] == RBRACE {
                                    Some(j4 + 1)
                                } else if j4 < s.len() && s[j4] == COMMA {
                                    let j5 = skip_ws(s, j4 + 1);
                                    if i < j5 && j5 <= s.len() {
                                        skip_object_items(s, j5)
                                    } else {
                                        None
                                    }
                                } else {
                                    None
                                }
                            },
                            None => None,
                        }
                    } else {
                        None
                    }
                } else {
                    None
                }
            },
            None => None,
        }
    } else {
        None
    }
}

pub open spec fn id_key() -> Seq<u8> {
    seq![0x69u8, 0x64]
}

pub open spec fn description_key() -> Seq<u8> {
    seq![0x64u8, 0x65, 0x73, 0x63, 0x72, 0x69, 0x70, 0x74, 0x69, 0x6f, 0x6e]
}

pub open spec fn count_key() -> Seq<u8> {
    seq![0x63u8, 0x6f, 0x75, 0x6e, 0x74]
}

/// Required members seen so far while walking an object.
pub struct FieldsModel {
    pub id: Option<int>,
    pub description: Option<Seq<u8>>,
    pub count: Option<int>,
}

pub open spec fn empty_fields() -> FieldsModel {
    FieldsModel { id: None, description: None, count: None }
}

/// Parses one member's value and folds it into the state: a required key
/// takes a typed value (integer or string) and must not repeat; any other
/// key takes a JSON value of any shape, which is skipped.
pub open spec fn parse_member_value(s: Seq<u8>, i: int, key: Seq<u8>, st: FieldsModel) -> Option<
    (FieldsModel, int),
> {
    if key == id_key() {
        match parse_int(s, i) {
            Some((n, j)) => if st.id is None {
                Some((FieldsModel { id: Some(n), ..st }, j))
            } else {
                None
            },
            None => None,
        }
    } else if key == description_key() {
        match parse_string_valid(s, i) {
            Some((d, j)) => if st.description is None {
                Some((FieldsModel { description: Some(d), ..st }, j))
            } else {
                None
            },
            None => None,
        }
    } else if key == count_key() {
        match parse_int(s, i) {
            Some((n, j)) => if st.count is None {
                Some((FieldsModel { count: Some(n), ..st }, j))
            } else {
                None
            },
            None => None,
        }
    } else {
        match skip_value(s, i) {
            Some(j) => Some((st, j)),
            None => None,
        }
    }
}

/// Parses the members of the object from the opening quote of the first key,
/// folding each into the state, up to and including the closing brace.
pub open spec fn parse_members(s: Seq<u8>, i: int, st: FieldsModel) -> Option<(FieldsModel, int)>
    decreases s.len() - i,
{
    if !(0 <= i && i < s.len() && s[i] == QUOTE) {
        None
    } else {
        match parse_str_rest(s, i + 1) {
            Some((key, j)) => if !valid_utf8(key) {
                None
            } else {
                let j1 = skip_ws(s, j);
                if j1 < s.len() && s[j1] == COLON {
                    let j2 = skip_ws(s, j1 + 1);
                    match parse_member_value(s, j2, key, st) {
                        Some((st2, j3)) => {
                            let j4 = skip_ws(s, j3);
                            if j4 < s.len() && s[j4] == RBRACE {
                                Some((st2, j4 + 1))
                            } else if j4 < s.len() && s[j4] == COMMA {
                                let j5 = skip_ws(s, j4 + 1);
                                if i < j5 && j5 <= s.len() {
                                    parse_members(s, j5, st2)
                                } else {
                                    None
                                }
                            } else {
                                None
                            }
                        },
                        None => None,
                    }
                } else {
                    None
                }
            },
            None => None,
        }
    }
}

/// Mathematical value of an item: the three decoded fields.
pub struct ItemModel {
    pub id: int,
    pub description: Seq<char>,
    pub count: int,
}

/// An item from a complete member fold, if all three required members came.
/// The description characters are the ones its UTF-8 content bytes encode.
pub open spec fn finalize(st: FieldsModel) -> Option<ItemModel> {
    match (st.id, st.description, st.count) {
        (Some(i), Some(d), Some(c)) => Some(
            ItemModel { id: i, description: decode_utf8(d), count: c },
        ),
        _ => None,
    }
}

/// The payload grammar: optional whitespace, one object holding the three
/// required members (and possibly ignored ones), optional whitespace,
/// nothing further.
pub open spec fn parse_item(s: Seq<u8>) -> Option<ItemModel> {
    let i = skip_ws(s, 0);
    if i < s.len() && s[i] == LBRACE {
        let j = skip_ws(s, i + 1);
        if j < s.len() && s[j] == RBRACE {
            let k = skip_ws(s, j + 1);
            if k == s.len() {
                finalize(empty_fields())
            } else {
                None
            }
        } else {
            match parse_members(s, j, empty_fields()) {
                Some((st, p)) => {
                    let k = skip_ws(s, p);
                    if k == s.len() {
                        finalize(st)
                    } else {
                        None
                    }
                },
                None => None,
            }
        }
    } else {
        None
    }
}

/// One unit of work: the three fields of a decoded stream record.
#[derive(Debug)]
pub struct Item {
    pub id: i64,
    pub description: String,
    pub count: i64,
}

impl View for Item {
    type V = ItemModel;

    open spec fn view(&self) -> ItemModel {
        ItemModel {
            id: self.id as int,
            description: self.description@,
            count: self.count as int,
        }
    }
}

fn is_ws_b(b: u8) -> (r: bool)
    ensures
        r == is_ws_byte(b),
{
    b == 0x20 || b == 0x09 || b == 0x0a || b == 0x0d
}

fn is_digit_b(b: u8) -> (r: bool)
    ensures
        r == is_digit(b),
{
    0x30 <= b && b <= 0x39
}

fn is_plain_char_b(b: u8) -> (r: bool)
    ensures
        r == is_plain_char(b),
{
    0x20 <= b && b != QUOTE && b != BACKSLASH
}

fn hex_val_x(b: u8) -> (r: Option<u32>)
    ensures
        r == hex_val(b),
{
    if 0x30 <= b && b <= 0x39 {
        Some((b - 0x30) as u32)
    } else if 0x61 <= b && b <= 0x66 {
        Some((b - 0x61 + 10) as u32)
    } else if 0x41 <= b && b <= 0x46 {
        Some((b - 0x41 + 10) as u32)
    } else {
        None
    }
}

fn parse_hex4_x(s: &Vec<u8>, i: usize) -> (r: Option<u32>)
    requires
        i <= s@.len(),
    ensures
        r == parse_hex4(s@, i as int),
{
    if s.len() - i >= 4 {
        match (hex_val_x(s[i]), hex_val_x(s[i + 1]), hex_val_x(s[i + 2]), hex_val_x(s[i + 3])) {
            (Some(a), Some(b), Some(c), Some(d)) => Some(a * 0x1000 + b * 0x100 + c * 0x10 + d),
            _ => None,
        }
    } else {
        None
    }
}

/// Puts the UTF-8 encoding of a scalar at the front of the buffer.
fn prepend_scalar(v: &mut Vec<u8>, cp: u32)
    requires
        is_scalar(cp),
    ensures
        final(v)@ == encode_scalar(cp) + old(v)@,
{
    if cp <= 0x7f {
        v.insert(0, (cp & 0x7f) as u8);
        proof {
            assert(v@ =~= encode_scalar(cp) + old(v)@);
        }
    } else if cp <= 0x7ff {
        v.insert(0, 0x80 | ((cp & 0x3f) as u8));
        v.insert(0, 0xc0 | (((cp >> 6) & 0x1f) as u8));
        proof {
            assert(v@ =~= encode_scalar(cp) + old(v)@);
        }
    } else if cp <= 0xffff {
        v.insert(0, 0x80 | ((cp & 0x3f) as u8));
        v.insert(0, 0x80 | (((cp >> 6) & 0x3f) as u8));
        v.insert(0, 0xe0 | (((cp >> 12) & 0x0f) as u8));
        proof {
            assert(v@ =~= encode_scalar(cp) + old(v)@);
        }
    } else {
        v.insert(0, 0x80 | ((cp & 0x3f) as u8));
        v.insert(0, 0x80 | (((cp >> 6) & 0x3f) as u8));
        v.insert(0, 0x80 | (((cp >> 12) & 0x3f) as u8));
        v.insert(0, 0xf0 | (((cp >> 18) & 0x7) as u8));
        proof {
            assert(v@ =~= encode_scalar(cp) + old(v)@);
        }
    }
}

fn unescape_x(b: u8) -> (r: Option<u8>)
    ensures
        r == unescape(b),
{
    if b == QUOTE {
        Some(QUOTE)
    } else if b == BACKSLASH {
        Some(BACKSLASH)
    } else if b == 0x2f {
        Some(0x2f)
    } else if b == 0x62 {
        Some(0x08)
    } else if b == 0x66 {
        Some(0x0c)
    } else if b == 0x6e {
        Some(0x0a)
    } else if b == 0x72 {
        Some(0x0d)
    } else if b == 0x74 {
        Some(0x09)
    } else {
        None
    }
}

fn skip_ws_x(s: &Vec<u8>, i: usize) -> (r: usize)
    requires
        i <= s@.len(),
    ensures
        i <= r <= s@.len(),
        r as int == skip_ws(s@, i as int),
    decreases s@.len() - i,
{
    if i < s.len() && is_ws_b(s[i]) {
        skip_ws_x(s, i + 1)
    } else {
        i
    }
}

fn parse_str_rest_x(s: &Vec<u8>, i: usize) -> (r: Option<(Vec<u8>, usize)>)
    requires
        i <= s@.len(),
    ensures
        match r {
            Some(p) => {
                &&& i < p.1 <= s@.len()
                &&& parse_str_rest(s@, i as int) == Some((p.0@, p.1 as int))
            },
            None => parse_str_rest(s@, i as int) is None,
        },
    decreases s@.len() - i,
{
    if i >= s.len() {
        return None;
    }
    let b = s[i];
    if b == QUOTE {
        let v: Vec<u8> = Vec::new();
        proof {
            assert(v@ =~= Seq::<u8>::empty());
        }
        Some((v, i + 1))
    } else if b == BACKSLASH {
        if i + 1 < s.len() {
            if s[i + 1] == 0x75 {
                match parse_hex4_x(s, i + 2) {
                    Some(cp) => {
                        if 0xd800 <= cp && cp < 0xdc00 {
                            if s.len() - i >= 12 && s[i + 6] == BACKSLASH && s[i + 7] == 0x75 {
                                match parse_hex4_x(s, i + 8) {
                                    Some(cp2) => {
                                        if 0xdc00 <= cp2 && cp2 < 0xe000 {
                                            let combined: u32 = 0x10000 + (cp - 0xd800) * 0x400 + (
                                            cp2 - 0xdc00);
                                            proof {
                                                assert(combined == combine_surrogates(cp, cp2));
                                            }
                                            match parse_str_rest_x(s, i + 12) {
                                                Some((mut v, j)) => {
                                                    prepend_scalar(&mut v, combined);
                                                    Some((v, j))
                                                },
                                                None => None,
                                            }
                                        } else {
                                            None
                                        }
                                    },
                                    None => None,
                                }
                            } else {
                                None
                            }
                        } else if 0xdc00 <= cp && cp < 0xe000 {
                            None
                        } else {
                            match parse_str_rest_x(s, i + 6) {
                                Some((mut v, j)) => {
                                    prepend_scalar(&mut v, cp);
                                    Some((v, j))
                                },
                                None => None,
                            }
                        }
                    },
                    None => None,
                }
            } else {
                match unescape_x(s[i + 1]) {
                    Some(e) => match parse_str_rest_x(s, i + 2) {
                        Some((mut v, j)) => {
                            let ghost rest = v@;
                            v.insert(0, e);
                            proof {
                                assert(v@ =~= seq![e] + rest);
                            }
                            Some((v, j))
                        },
                        None => None,
                    },
                    None => None,
                }
            }
        } else {
            None
        }
    } else if is_plain_char_b(b) {
        match parse_str_rest_x(s, i + 1) {
            Some((mut v, j)) => {
                let ghost rest = v@;
                v.insert(0, b);
                proof {
                    assert(v@ =~= seq![b] + rest);
                }
                Some((v, j))
            },
            None => None,
        }
    } else {
        None
    }
}

fn end_of_digits_x(s: &Vec<u8>, i: usize) -> (r: usize)
    requires
        i <= s@.len(),
    ensures
        i <= r <= s@.len(),
        r as int == end_of_digits(s@, i as int),
        forall|k: int| i <= k < r ==> is_digit(s@[k]),
    decreases s@.len() - i,
{
    if i < s.len() && is_digit_b(s[i]) {
        end_of_digits_x(s, i + 1)
    } else {
        i
    }
}

/// Ten to the `n`.
pub open spec fn pow10(n: nat) -> int
    decreases n,
{
    if n == 0 {
        1
    } else {
        10 * pow10((n - 1) as nat)
    }
}

proof fn lemma_pow10_pos(n: nat)
    ensures
        1 <= pow10(n),
    decreases n,
{
    if n > 0 {
        lemma_pow10_pos((n - 1) as nat);
    }
}

proof fn lemma_pow10_monotone(a: nat, b: nat)
    requires
        a <= b,
    ensures
        1 <= pow10(a) <= pow10(b),
    decreases b - a,
{
    if a == b {
        lemma_pow10_pos(a);
    } else {
        lemma_pow10_monotone(a, (b - 1) as nat);
    }
}

proof fn lemma_pow10_19_value()
    ensures
        pow10(19) == 10_000_000_000_000_000_000,
{
    reveal_with_fuel(pow10, 21);
}

fn parse_uint_x(s: &Vec<u8>, i: usize) -> (r: Option<(u64, usize)>)
    requires
        i <= s@.len(),
    ensures
        match r {
            Some(p) => i < p.1 <= s@.len() && parse_uint(s@, i as int) == Some(
                (p.0 as int, p.1 as int),
            ),
            None => parse_uint(s@, i as int) is None,
        },
{
    let j = end_of_digits_x(s, i);
    if j == i {
        return None;
    }
    if s[i] == 0x30 && j > i + 1 {
        return None;
    }
    if j - i > 19 {
        return None;
    }
    let mut acc: u64 = 0;
    let mut k: usize = i;
    proof {
        assert(s@.subrange(i as int, i as int) =~= Seq::<u8>::empty());
    }
    while k < j
        invariant
            i <= k <= j <= s@.len(),
            j - i <= 19,
            forall|x: int| i <= x < j ==> is_digit(s@[x]),
            acc as int == digits_val(s@.subrange(i as int, k as int)),
            (acc as int) < pow10((k - i) as nat),
        decreases j - k,
    {
        let d = s[k];
        proof {
            lemma_pow10_monotone((k - i) as nat, 18);
            lemma_pow10_monotone(18, 19);
            lemma_pow10_19_value();
            assert(s@.subrange(i as int, k as int + 1).drop_last() =~= s@.subrange(
                i as int,
                k as int,
            ));
            assert(s@.subrange(i as int, k as int + 1).last() == s@[k as int]);
            assert(pow10((k - i + 1) as nat) == 10 * pow10((k - i) as nat));
        }
        acc = acc * 10 + ((d - 0x30) as u64);
        k = k + 1;
    }
    proof {
        assert(parse_uint(s@, i as int) == Some((digits_val(s@.subrange(i as int, j as int)), j as int)));
    }
    Some((acc, j))
}

fn parse_int_x(s: &Vec<u8>, i: usize) -> (r: Option<(i64, usize)>)
    requires
        i <= s@.len(),
    ensures
        match r {
            Some(p) => i < p.1 <= s@.len() && parse_int(s@, i as int) == Some(
                (p.0 as int, p.1 as int),
            ),
            None => parse_int(s@, i as int) is None,
        },
{
    if i < s.len() && s[i] == MINUS {
        match parse_uint_x(s, i + 1) {
            Some((m, j)) => if m <= 0x7fffffffffffffff {
                Some((-(m as i64), j))
            } else if m == 0x8000000000000000 {
                Some((i64::MIN, j))
            } else {
                None
            },
            None => None,
        }
    } else {
        match parse_uint_x(s, i) {
            Some((m, j)) => if m <= 0x7fffffffffffffff {
                Some((m as i64, j))
            } else {
                None
            },
            None => None,
        }
    }
}

/// Required members seen so far, executable side.
struct FieldsX {
    id: Option<i64>,
    description: Option<Vec<u8>>,
    count: Option<i64>,
}

impl View for FieldsX {
    type V = FieldsModel;

    closed spec fn view(&self) -> FieldsModel {
        FieldsModel {
            id: match self.id {
                Some(n) => Some(n as int),
                None => None,
            },
            description: match self.description {
                Some(v) => Some(v@),
                None => None,
            },
            count: match self.count {
                Some(n) => Some(n as int),
                None => None,
            },
        }
    }
}

/// Whether a recorded description's content bytes are valid UTF-8, as the
/// grammar guarantees of every string it accepts.
pub open spec fn fields_valid(st: FieldsModel) -> bool {
    match st.description {
        Some(d) => valid_utf8(d),
        None => true,
    }
}

fn key_is_id(v: &Vec<u8>) -> (r: bool)
    ensures
        r == (v@ == id_key()),
{
    let r = v.len() == 2 && v[0] == 0x69 && v[1] == 0x64;
    proof {
        if r {
            assert(v@ =~= id_key());
        } else {
            assert(v@ != id_key());
        }
    }
    r
}

fn key_is_description(v: &Vec<u8>) -> (r: bool)
    ensures
        r == (v@ == description_key()),
{
    let r = v.len() == 11 && v[0] == 0x64 && v[1] == 0x65 && v[2] == 0x73 && v[3] == 0x63 && v[4]
        == 0x72 && v[5] == 0x69 && v[6] == 0x70 && v[7] == 0x74 && v[8] == 0x69 && v[9] == 0x6f
        && v[10] == 0x6e;
    proof {
        if r {
            assert(v@ =~= description_key());
        } else {
            assert(v@ != description_key());
        }
    }
    r
}

fn key_is_count(v: &Vec<u8>) -> (r: bool)
    ensures
        r == (v@ == count_key()),
{
    let r = v.len() == 5 && v[0] == 0x63 && v[1] == 0x6f && v[2] == 0x75 && v[3] == 0x6e && v[4]
        == 0x74;
    proof {
        if r {
            assert(v@ =~= count_key());
        } else {
            assert(v@ != count_key());
        }
    }
    r
}

fn word_at(s: &Vec<u8>, i: usize, w0: u8, w1: u8, w2: u8, w3: u8) -> (r: bool)
    requires
        i <= s@.len(),
    ensures
        r == has_word(s@, i as int, seq![w0, w1, w2, w3]),
{
    let ghost word = seq![w0, w1, w2, w3];
    if s.len() - i >= 4 && s[i] == w0 && s[i + 1] == w1 && s[i + 2] == w2 && s[i + 3] == w3 {
        proof {
            assert(s@.subrange(i as int, i as int + 4) =~= word);
        }
        true
    } else {
        proof {
            if i + 4 <= s@.len() {
                let sub = s@.subrange(i as int, i as int + 4);
                assert(sub[0] == s@[i as int]);
                assert(sub[1] == s@[i as int + 1]);
                assert(sub[2] == s@[i as int + 2]);
                assert(sub[3] == s@[i as int + 3]);
            }
        }
        false
    }
}

fn word_at5(s: &Vec<u8>, i: usize, w0: u8, w1: u8, w2: u8, w3: u8, w4: u8) -> (r: bool)
    requires
        i <= s@.len(),
    ensures
        r == has_word(s@, i as int, seq![w0, w1, w2, w3, w4]),
{
    let ghost word = seq![w0, w1, w2, w3, w4];
    if s.len() - i >= 5 && s[i] == w0 && s[i + 1] == w1 && s[i + 2] == w2 && s[i + 3] == w3 && s[i
        + 4] == w4 {
        proof {
            assert(s@.subrange(i as int, i as int + 5) =~= word);
        }
        true
    } else {
        proof {
            if i + 5 <= s@.len() {
                let sub = s@.subrange(i as int, i as int + 5);
                assert(sub[0] == s@[i as int]);
                assert(sub[1] == s@[i as int + 1]);
                assert(sub[2] == s@[i as int + 2]);
                assert(sub[3] == s@[i as int + 3]);
                assert(sub[4] == s@[i as int + 4]);
            }
        }
        false
    }
}

/// Relies on String::from_utf8: the conversion succeeds exactly on valid
/// UTF-8 input, and the resulting string holds the characters that the
/// bytes encode.
#[verifier::external_body]
fn utf8_bytes_to_string(v: &Vec<u8>) -> (r: Option<String>)
    ensures
        match r {
            Some(text) => valid_utf8(v@) && text@ == decode_utf8(v@),
            None => !valid_utf8(v@),
        },
{
    match String::from_utf8(v.clone()) {
        Ok(text) => Some(text),
        Err(_) => None,
    }
}

fn parse_string_valid_x(s: &Vec<u8>, i: usize) -> (r: Option<(Vec<u8>, String, usize)>)
    requires
        i <= s@.len(),
    ensures
        match r {
            Some(p) => {
                &&& i < p.2 <= s@.len()
                &&& parse_string_valid(s@, i as int) == Some((p.0@, p.2 as int))
                &&& valid_utf8(p.0@)
                &&& p.1@ == decode_utf8(p.0@)
            },
            None => parse_string_valid(s@, i as int) is None,
        },
{
    if !(i < s.len() && s[i] == QUOTE) {
        return None;
    }
    match parse_str_rest_x(s, i + 1) {
        Some((content, j)) => match utf8_bytes_to_string(&content) {
            Some(text) => Some((content, text, j)),
            None => None,
        },
        None => None,
    }
}

fn skip_number_x(s: &Vec<u8>, i: usize) -> (r: Option<usize>)
    requires
        i <= s@.len(),
    ensures
        match r {
            Some(j) => i < j <= s@.len() && skip_number(s@, i as int) == Some(j as int),
            None => skip_number(s@, i as int) is None,
        },
{
    let i1: usize = if i < s.len() && s[i] == MINUS {
        i + 1
    } else {
        i
    };
    let j = end_of_digits_x(s, i1);
    if j == i1 {
        return None;
    }
    if s[i1] == 0x30 && j > i1 + 1 {
        return None;
    }
    let mut j2: usize = j;
    if j < s.len() && s[j] == 0x2e {
        let k = end_of_digits_x(s, j + 1);
        if k == j + 1 {
            return None;
        }
        j2 = k;
    }
    let mut j3: usize = j2;
    if j2 < s.len() && (s[j2] == 0x65 || s[j2] == 0x45) {
        let e1: usize = if j2 + 1 < s.len() && (s[j2 + 1] == 0x2b || s[j2 + 1] == MINUS) {
            j2 + 2
        } else {
            j2 + 1
        };
        let k = end_of_digits_x(s, e1);
        if k == e1 {
            return None;
        }
        j3 = k;
    }
    Some(j3)
}

fn skip_value_x(s: &Vec<u8>, i: usize) -> (r: Option<usize>)
    requires
        i <= s@.len(),
    ensures
        match r {
            Some(j) => i < j <= s@.len() && skip_value(s@, i as int) == Some(j as int),
            None => skip_value(s@, i as int) is None,
        },
    decreases s@.len() - i, 0int,
{
    if i >= s.len() {
        return None;
    }
    let b = s[i];
    if b == QUOTE {
        match parse_string_valid_x(s, i) {
            Some((_content, _text, j)) => Some(j),
            None => None,
        }
    } else if b == MINUS || is_digit_b(b) {
        skip_number_x(s, i)
    } else if word_at(s, i, 0x74, 0x72, 0x75, 0x65) {
        Some(i + 4)
    } else if word_at5(s, i, 0x66, 0x61, 0x6c, 0x73, 0x65) {
        Some(i + 5)
    } else if word_at(s, i, 0x6e, 0x75, 0x6c, 0x6c) {
        Some(i + 4)
    } else if b == LBRACKET {
        let j = skip_ws_x(s, i + 1);
        skip_array_items_x(s, j)
    } else if b == LBRACE {
        let j = skip_ws_x(s, i + 1);
        skip_object_items_x(s, j)
    } else {
        None
    }
}

fn skip_array_items_x(s: &Vec<u8>, i: usize) -> (r: Option<usize>)
    requires
        i <= s@.len(),
    ensures
        match r {
            Some(j) => i < j <= s@.len() && skip_array_items(s@, i as int) == Some(j as int),
            None => skip_array_items(s@, i as int) is None,
        },
    decreases s@.len() - i, 1int,
{
    if i >= s.len() {
        return None;
    }
    if s[i] == RBRACKET {
        return Some(i + 1);
    }
    match skip_value_x(s, i) {
        Some(j) => {
            let j1 = skip_ws_x(s, j);
            if j1 < s.len() && s[j1] == RBRACKET {
                Some(j1 + 1)
            } else if j1 < s.len() && s[j1] == COMMA {
                let j2 = skip_ws_x(s, j1 + 1);
                skip_array_items_x(s, j2)
            } else {
                None
            }
        },
        None => None,
    }
}

fn skip_object_items_x(s: &Vec<u8>, i: usize) -> (r: Option<usize>)
    requires
        i <= s@.len(),
    ensures
        match r {
            Some(j) => i < j <= s@.len() && skip_object_items(s@, i as int) == Some(j as int),
            None => skip_object_items(s@, i as int) is None,
        },
    decreases s@.len() - i, 1int,
{
    if i >= s.len() {
        return None;
    }
    if s[i] == RBRACE {
        return Some(i + 1);
    }
    if s[i] != QUOTE {
        return None;
    }
    match parse_string_valid_x(s, i) {
        Some((_key, _text, j)) => {
            let j1 = skip_ws_x(s, j);
            if j1 < s.len() && s[j1] == COLON {
                let j2 = skip_ws_x(s, j1 + 1);
                match skip_value_x(s, j2) {
                    Some(j3) => {
                        let j4 = skip_ws_x(s, j3);
                        if j4 < s.len() && s[j4] == RBRACE {
                            Some(j4 + 1)
                        } else if j4 < s.len() && s[j4] == COMMA {
                            let j5 = skip_ws_x(s, j4 + 1);
                            skip_object_items_x(s, j5)
                        } else {
                            None
                        }
                    },
                    None => None,
                }
            } else {
                None
            }
        },
        None => None,
    }
}

fn parse_members_x(s: &Vec<u8>, i: usize, st: FieldsX) -> (r: Option<(FieldsX, usize)>)
    requires
        i <= s@.len(),
        fields_valid(st@),
    ensures
        match r {
            Some(p) => {
                &&& i < p.1 <= s@.len()
                &&& parse_members(s@, i as int, st@) == Some((p.0@, p.1 as int))
                &&& fields_valid(p.0@)
            },
            None => parse_members(s@, i as int, st@) is None,
        },
    decreases s@.len() - i,
{
    if !(i < s.len() && s[i] == QUOTE) {
        return None;
    }
    match parse_str_rest_x(s, i + 1) {
        Some((key, j)) => {
            if utf8_bytes_to_string(&key).is_none() {
                return None;
            }
            let j1 = skip_ws_x(s, j);
            if !(j1 < s.len() && s[j1] == COLON) {
                return None;
            }
            let j2 = skip_ws_x(s, j1 + 1);
            let step: Option<(FieldsX, usize)> = if key_is_id(&key) {
                match parse_int_x(s, j2) {
                    Some((n, j3)) => if st.id.is_none() {
                        Some((FieldsX { id: Some(n), ..st }, j3))
                    } else {
                        None
                    },
                    None => None,
                }
            } else if key_is_description(&key) {
                match parse_string_valid_x(s, j2) {
                    Some((d, _text, j3)) => if st.description.is_none() {
                        Some((FieldsX { description: Some(d), ..st }, j3))
                    } else {
                        None
                    },
                    None => None,
                }
            } else if key_is_count(&key) {
                match parse_int_x(s, j2) {
                    Some((n, j3)) => if st.count.is_none() {
                        Some((FieldsX { count: Some(n), ..st }, j3))
                    } else {
                        None
                    },
                    None => None,
                }
            } else {
                match skip_value_x(s, j2) {
                    Some(j3) => Some((st, j3)),
                    None => None,
                }
            };
            match step {
                Some((st2, j3)) => {
                    let j4 = skip_ws_x(s, j3);
                    if j4 < s.len() && s[j4] == RBRACE {
                        Some((st2, j4 + 1))
                    } else if j4 < s.len() && s[j4] == COMMA {
                        let j5 = skip_ws_x(s, j4 + 1);
                        parse_members_x(s, j5, st2)
                    } else {
                        None
                    }
                },
                None => None,
            }
        },
        None => None,
    }
}

/// Failure to decode a payload: the bytes do not hold an object of the
/// required shape.
#[derive(Clone, Copy, PartialEq, Eq, Structural, Debug)]
pub struct DecodeError;

impl DecodeError {
    /// Human-readable account of the failure.
    pub fn message(&self) -> (r: &'static str)
        ensures
            r@ == "payload is not a well-formed item record"@,
    {
        "payload is not a well-formed item record"
    }
}

/// Decimal digit bytes of `n`, most significant first.
pub open spec fn dec_digits(n: nat) -> Seq<u8>
    decreases n,
{
    if n < 10 {
        seq![(0x30 + n) as u8]
    } else {
        dec_digits(n / 10) + seq![(0x30 + n % 10) as u8]
    }
}

/// Decimal encoding of a signed integer.
pub open spec fn encode_int(v: int) -> Seq<u8> {
    if v < 0 {
        seq![MINUS] + dec_digits((-v) as nat)
    } else {
        dec_digits(v as nat)
    }
}

/// Characters that encode as themselves inside a string literal.
pub open spec fn is_plain_text_char(c: char) -> bool {
    0x20 <= (c as u32) && (c as u32) < 0x7f && c != '"' && c != '\\'
}

/// Hexadecimal digit byte of a value below sixteen, in lower case.
pub open spec fn hex_digit(x: u32) -> u8 {
    if x < 10 {
        (0x30 + x) as u8
    } else {
        (0x61 + (x - 10)) as u8
    }
}

/// Bytes of one character inside an encoded string literal: a plain
/// printable character stands as itself; every other character is written
/// as a hexadecimal escape, beyond the basic plane as a surrogate pair.
pub open spec fn encode_char(c: char) -> Seq<u8> {
    let v = c as u32;
    if is_plain_text_char(c) {
        seq![v as u8]
    } else if v < 0x10000 {
        seq![
            BACKSLASH,
            0x75u8,
            hex_digit((v >> 12) & 0xf),
            hex_digit((v >> 8) & 0xf),
            hex_digit((v >> 4) & 0xf),
            hex_digit(v & 0xf),
        ]
    } else {
        let w = (v - 0x10000) as u32;
        let hi = (0xd800 + (w >> 10)) as u32;
        let lo = (0xdc00 + (w & 0x3ff)) as u32;
        seq![
            BACKSLASH,
            0x75u8,
            hex_digit((hi >> 12) & 0xf),
            hex_digit((hi >> 8) & 0xf),
            hex_digit((hi >> 4) & 0xf),
            hex_digit(hi & 0xf),
            BACKSLASH,
            0x75u8,
            hex_digit((lo >> 12) & 0xf),
            hex_digit((lo >> 8) & 0xf),
            hex_digit((lo >> 4) & 0xf),
            hex_digit(lo & 0xf),
        ]
    }
}

/// String-literal bytes of a whole description.
pub open spec fn encode_desc(d: Seq<char>) -> Seq<u8>
    decreases d.len(),
{
    if d.len() == 0 {
        Seq::empty()
    } else {
        encode_char(d[0]) + encode_desc(d.drop_first())
    }
}

/// An item whose fields the wire format can carry: identifiers and counts
/// of the 64-bit signed range; any description encodes.
pub open spec fn valid_item_model(m: ItemModel) -> bool {
    &&& i64_min_val() <= m.id <= i64_max_val()
    &&& i64_min_val() <= m.count <= i64_max_val()
}

/// Canonical payload of an item: the object with the three members in
/// declaration order and no surrounding whitespace.
pub open spec fn encode_item(m: ItemModel) -> Seq<u8> {
    seq![LBRACE, QUOTE] + id_key() + seq![QUOTE, COLON] + encode_int(m.id) + seq![COMMA, QUOTE]
        + description_key() + seq![QUOTE, COLON, QUOTE] + encode_desc(m.description) + seq![
        QUOTE,
        COMMA,
        QUOTE,
    ] + count_key() + seq![QUOTE, COLON] + encode_int(m.count) + seq![RBRACE]
}

/// A run of plain bytes closed by a quote parses to exactly that run.
proof fn lemma_parse_plain_str(s: Seq<u8>, i: int, j: int)
    requires
        0 <= i <= j < s.len(),
        s[j] == QUOTE,
        forall|k: int| i <= k < j ==> is_plain_char(#[trigger] s[k]),
    ensures
        parse_str_rest(s, i) == Some((s.subrange(i, j), j + 1)),
    decreases j - i,
{
    if i == j {
        assert(s.subrange(i, j) =~= Seq::<u8>::empty());
    } else {
        lemma_parse_plain_str(s, i + 1, j);
        assert(s[i] != QUOTE && s[i] != BACKSLASH);
        assert(s.subrange(i, j) =~= seq![s[i]] + s.subrange(i + 1, j));
    }
}

/// A maximal digit run ends exactly where the digits end.
proof fn lemma_end_of_digits_at(s: Seq<u8>, i: int, j: int)
    requires
        0 <= i <= j <= s.len(),
        forall|k: int| i <= k < j ==> is_digit(#[trigger] s[k]),
        j == s.len() || !is_digit(s[j]),
    ensures
        end_of_digits(s, i) == j,
    decreases j - i,
{
    if i < j {
        lemma_end_of_digits_at(s, i + 1, j);
    }
}

/// The decimal digits of `n` are digits, value back to `n`, no leading
/// zero unless `n` itself is below ten, and at most `cap` of them when `n`
/// is below ten to the `cap`.
proof fn lemma_dec_digits_props(n: nat, cap: nat)
    requires
        1 <= cap,
        n < pow10(cap),
    ensures
        1 <= dec_digits(n).len() <= cap,
        forall|k: int| 0 <= k < dec_digits(n).len() ==> is_digit(#[trigger] dec_digits(n)[k]),
        digits_val(dec_digits(n)) == n,
        n >= 1 ==> dec_digits(n)[0] != 0x30,
        n < 10 ==> dec_digits(n).len() == 1,
    decreases n,
{
    if n < 10 {
        let d = dec_digits(n);
        assert(d =~= seq![(0x30 + n) as u8]);
        assert(d.drop_last() =~= Seq::<u8>::empty());
        assert(digits_val(d) == digits_val(d.drop_last()) * 10 + (d.last() - 0x30));
    } else {
        if cap == 1 {
            assert(pow10(1) == 10 * pow10(0));
            assert(false);
        }
        assert(pow10(cap) == 10 * pow10((cap - 1) as nat));
        lemma_pow10_pos((cap - 1) as nat);
        assert(n / 10 < pow10((cap - 1) as nat)) by (nonlinear_arith)
            requires
                n < 10 * pow10((cap - 1) as nat),
                pow10((cap - 1) as nat) >= 1,
        ;
        assert(n / 10 >= 1) by (nonlinear_arith)
            requires
                n >= 10,
        ;
        lemma_dec_digits_props(n / 10, (cap - 1) as nat);
        let d = dec_digits(n);
        let head = dec_digits(n / 10);
        assert(d == head + seq![(0x30 + n % 10) as u8]);
        assert(d.drop_last() =~= head);
        assert(d.last() == (0x30 + n % 10) as u8);
        assert(n % 10 < 10);
        assert(digits_val(d) == digits_val(head) * 10 + n % 10);
        assert((n / 10) * 10 + n % 10 == n) by (nonlinear_arith);
        assert(d[0] == head[0]);
    }
}

/// Embedded decimal digits of `n` at `[i, j)` parse as the unsigned
/// integer `n`.
proof fn lemma_parse_uint_at(s: Seq<u8>, i: int, j: int, n: nat)
    requires
        0 <= i <= j <= s.len(),
        s.subrange(i, j) == dec_digits(n),
        n < pow10(19),
        j == s.len() || !is_digit(s[j]),
    ensures
        parse_uint(s, i) == Some((n as int, j)),
{
    lemma_dec_digits_props(n, 19);
    let d = dec_digits(n);
    assert(j - i == d.len());
    assert forall|k: int| i <= k < j implies is_digit(#[trigger] s[k]) by {
        assert(s[k] == d[k - i]);
    }
    lemma_end_of_digits_at(s, i, j);
    assert(s[i] == d[0]);
    if s[i] == 0x30 {
        assert(n < 10);
        assert(j == i + 1);
    }
    assert(digits_val(s.subrange(i, j)) == n);
}

/// Embedded decimal encoding of `v` at `[i, j)` parses as the signed
/// integer `v`.
proof fn lemma_parse_int_at(s: Seq<u8>, i: int, j: int, v: int)
    requires
        0 <= i <= j <= s.len(),
        s.subrange(i, j) == encode_int(v),
        i64_min_val() <= v <= i64_max_val(),
        j == s.len() || !is_digit(s[j]),
    ensures
        parse_int(s, i) == Some((v, j)),
{
    lemma_pow10_19_value();
    if v < 0 {
        let mag = (-v) as nat;
        assert(s.subrange(i, j) == seq![MINUS] + dec_digits(mag));
        assert(s[i] == (seq![MINUS] + dec_digits(mag))[0]);
        assert(s[i] == MINUS);
        assert(s.subrange(i + 1, j) =~= dec_digits(mag)) by {
            assert forall|k: int| 0 <= k < j - i - 1 implies s.subrange(i + 1, j)[k] == dec_digits(
                mag,
            )[k] by {
                assert(s[i + 1 + k] == s.subrange(i, j)[k + 1]);
            }
            assert(s.subrange(i, j).len() == 1 + dec_digits(mag).len());
        }
        lemma_parse_uint_at(s, i + 1, j, mag);
        assert(-(mag as int) == v);
    } else {
        assert(s.subrange(i, j) == dec_digits(v as nat));
        lemma_dec_digits_props(v as nat, 19);
        assert(s[i] == dec_digits(v as nat)[0]);
        assert(is_digit(s[i]));
        assert(s[i] != MINUS);
        lemma_parse_uint_at(s, i, j, v as nat);
    }
}

/// A sequence of bytes all below 0x80 is valid UTF-8: each byte is a
/// one-byte scalar.
proof fn lemma_ascii_bytes_valid(b: Seq<u8>)
    requires
        forall|k: int| 0 <= k < b.len() ==> b[k] < 0x80,
    ensures
        valid_utf8(b),
    decreases b.len(),
{
    if b.len() > 0 {
        assert(is_leading_byte_width_1(b[0]));
        assert(valid_leading_and_continuation_bytes_first_codepoint(b));
        assert(length_of_first_codepoint(b) == 1);
        let b0 = b[0];
        assert((b0 & 0x7f) < 0x80) by (bit_vector);
        assert(decode_first_codepoint(b) < 0x80);
        assert(pop_first_scalar(b) =~= b.drop_first());
        lemma_ascii_bytes_valid(b.drop_first());
    }
}

/// The three required keys are valid UTF-8.
proof fn lemma_keys_valid()
    ensures
        valid_utf8(id_key()),
        valid_utf8(description_key()),
        valid_utf8(count_key()),
{
    assert(forall|k: int| 0 <= k < id_key().len() ==> id_key()[k] < 0x80);
    assert(forall|k: int| 0 <= k < description_key().len() ==> description_key()[k] < 0x80);
    assert(forall|k: int| 0 <= k < count_key().len() ==> count_key()[k] < 0x80);
    lemma_ascii_bytes_valid(id_key());
    lemma_ascii_bytes_valid(description_key());
    lemma_ascii_bytes_valid(count_key());
}

/// A hexadecimal digit byte reads back as its value.
proof fn lemma_hex_digit_roundtrip(x: u32)
    requires
        x < 16,
    ensures
        hex_val(hex_digit(x)) == Some(x),
{
}

/// Four emitted hexadecimal digits of a value below 0x10000 parse back to
/// that value.
proof fn lemma_hex4_roundtrip(s: Seq<u8>, i: int, v: u32)
    requires
        v < 0x10000,
        0 <= i,
        i + 4 <= s.len(),
        s[i] == hex_digit((v >> 12) & 0xf),
        s[i + 1] == hex_digit((v >> 8) & 0xf),
        s[i + 2] == hex_digit((v >> 4) & 0xf),
        s[i + 3] == hex_digit(v & 0xf),
    ensures
        parse_hex4(s, i) == Some(v),
{
    assert(((v >> 12) & 0xf) < 16 && ((v >> 8) & 0xf) < 16 && ((v >> 4) & 0xf) < 16 && (v & 0xf)
        < 16) by (bit_vector);
    lemma_hex_digit_roundtrip((v >> 12) & 0xf);
    lemma_hex_digit_roundtrip((v >> 8) & 0xf);
    lemma_hex_digit_roundtrip((v >> 4) & 0xf);
    lemma_hex_digit_roundtrip(v & 0xf);
    assert(((v >> 12) & 0xf) * 0x1000 + ((v >> 8) & 0xf) * 0x100 + ((v >> 4) & 0xf) * 0x10 + (v
        & 0xf) == v) by (bit_vector)
        requires
            v < 0x10000,
    ;
}

/// An encoded string segment closed by a quote parses to the UTF-8 bytes
/// of the original characters.
#[verifier::rlimit(100)]
#[verifier::spinoff_prover]
proof fn lemma_parse_encoded_desc(s: Seq<u8>, i: int, j: int, d: Seq<char>)
    requires
        0 <= i <= j < s.len(),
        s.subrange(i, j) == encode_desc(d),
        s[j] == QUOTE,
    ensures
        parse_str_rest(s, i) == Some((encode_utf8(d), j + 1)),
    decreases d.len(),
{
    if d.len() == 0 {
        assert(s.subrange(i, j).len() == 0);
        assert(encode_utf8(d) =~= Seq::<u8>::empty());
    } else {
        let c = d[0];
        let v = c as u32;
        let ec = encode_char(c);
        let el = ec.len() as int;
        vstd::utf8::char_is_scalar(c);
        assert(encode_desc(d) == ec + encode_desc(d.drop_first()));
        assert(el >= 1 && i + el <= j);
        assert forall|k: int| 0 <= k < el implies s[i + k] == ec[k] by {
            assert(s[i + k] == s.subrange(i, j)[k]);
            assert(s.subrange(i, j)[k] == (ec + encode_desc(d.drop_first()))[k]);
        }
        assert(s.subrange(i + el, j) =~= encode_desc(d.drop_first())) by {
            assert forall|k: int| 0 <= k < j - i - el implies s.subrange(i + el, j)[k]
                == encode_desc(d.drop_first())[k] by {
                assert(s[i + el + k] == s.subrange(i, j)[el + k]);
            }
        }
        lemma_parse_encoded_desc(s, i + el, j, d.drop_first());
        let rest = encode_utf8(d.drop_first());
        if is_plain_text_char(c) {
            assert(ec[0] == v as u8);
            assert(s[i + 0] == ec[0]);
            assert(s[i] == v as u8);
            assert(0x20 <= s[i] && s[i] != QUOTE && s[i] != BACKSLASH) by {
                assert(0x20 <= v && v < 0x7f);
                if v as u8 == QUOTE {
                    vstd::utf8::char_u32_cast(c, v);
                    vstd::utf8::char_u32_cast('"', 0x22);
                }
                if v as u8 == BACKSLASH {
                    vstd::utf8::char_u32_cast(c, v);
                    vstd::utf8::char_u32_cast('\\', 0x5c);
                }
            }
            assert(encode_scalar(v) =~= seq![v as u8]) by {
                assert((v & 0x7f) as u8 == v as u8) by (bit_vector)
                    requires
                        v < 0x80,
                ;
            }
            assert(seq![s[i]] + rest =~= encode_scalar(v) + rest);
            assert(parse_str_rest(s, i) == Some((encode_scalar(v) + rest, j + 1)));
        } else if v < 0x10000 {
            assert(s[i] == BACKSLASH && s[i + 1] == 0x75);
            lemma_hex4_roundtrip(s, i + 2, v);
            assert(!(0xd800 <= v && v < 0xdc00) && !(0xdc00 <= v && v < 0xe000)) by {
                assert(vstd::utf8::is_scalar(v));
            }
            assert(parse_str_rest(s, i) == Some((encode_scalar(v) + rest, j + 1)));
        } else {
            let w = (v - 0x10000) as u32;
            let hi = (0xd800 + (w >> 10)) as u32;
            let lo = (0xdc00 + (w & 0x3ff)) as u32;
            assert(v <= 0x10ffff) by {
                assert(vstd::utf8::is_scalar(v));
            }
            assert(w <= 0xfffff);
            assert((w >> 10) <= 0x3ff && (w & 0x3ff) <= 0x3ff) by (bit_vector)
                requires
                    w <= 0xfffff,
            ;
            assert(hi < 0x10000 && lo < 0x10000);
            assert(s[i] == BACKSLASH && s[i + 1] == 0x75);
            assert(s[i + 6] == BACKSLASH && s[i + 7] == 0x75);
            lemma_hex4_roundtrip(s, i + 2, hi);
            lemma_hex4_roundtrip(s, i + 8, lo);
            assert(0xd800 <= hi && hi < 0xdc00);
            assert(0xdc00 <= lo && lo < 0xe000);
            assert(combine_surrogates(hi, lo) == v) by {
                assert((w >> 10) * 0x400 + (w & 0x3ff) == w) by (bit_vector)
                    requires
                        w <= 0xfffff,
                ;
            }
            assert(parse_str_rest(s, i) == Some((encode_scalar(v) + rest, j + 1)));
        }
        assert(encode_utf8(d) == encode_scalar(v) + rest);
    }
}

/// The member state after all three members of the canonical encoding.
pub open spec fn full_fields(m: ItemModel) -> FieldsModel {
    FieldsModel {
        id: Some(m.id),
        description: Some(encode_utf8(m.description)),
        count: Some(m.count),
    }
}

/// Where each piece of the canonical encoding of `m` sits in the whole.
spec fn layout_ok(m: ItemModel) -> bool {
    let s = encode_item(m);
    let e1 = encode_int(m.id);
    let db = encode_desc(m.description);
    let e2 = encode_int(m.count);
    let n1 = e1.len() as int;
    let nd = db.len() as int;
    let n2 = e2.len() as int;
    let b1 = 6 + n1;
    let c1 = b1 + 2;
    let c2 = c1 + 11;
    let d1 = c2 + 3;
    let d2 = d1 + nd;
    let f1 = d2 + 3;
    let f2 = f1 + 5;
    let g1 = f2 + 2;
    let g2 = g1 + n2;
    &&& s.len() == g2 + 1
    &&& s[0] == LBRACE
    &&& s[1] == QUOTE
    &&& s[2] == 0x69
    &&& s[3] == 0x64
    &&& s[4] == QUOTE
    &&& s[5] == COLON
    &&& s.subrange(6, b1) == e1
    &&& s[b1] == COMMA
    &&& s[b1 + 1] == QUOTE
    &&& s.subrange(c1, c2) == description_key()
    &&& s[c2] == QUOTE
    &&& s[c2 + 1] == COLON
    &&& s[c2 + 2] == QUOTE
    &&& s.subrange(d1, d2) == db
    &&& s[d2] == QUOTE
    &&& s[d2 + 1] == COMMA
    &&& s[d2 + 2] == QUOTE
    &&& s.subrange(f1, f2) == count_key()
    &&& s[f2] == QUOTE
    &&& s[f2 + 1] == COLON
    &&& s.subrange(g1, g2) == e2
    &&& s[g2] == RBRACE
}

#[verifier::rlimit(100)]
#[verifier::spinoff_prover]
proof fn lemma_encode_layout(m: ItemModel)
    ensures
        layout_ok(m),
{
    let s = encode_item(m);
    let e1 = encode_int(m.id);
    let db = encode_desc(m.description);
    let e2 = encode_int(m.count);
    let n1 = e1.len() as int;
    let nd = db.len() as int;
    let n2 = e2.len() as int;
    let b1 = 6 + n1;
    let c1 = b1 + 2;
    let c2 = c1 + 11;
    let d1 = c2 + 3;
    let d2 = d1 + nd;
    let f1 = d2 + 3;
    let f2 = f1 + 5;
    let g1 = f2 + 2;
    let g2 = g1 + n2;
    assert(s =~= seq![LBRACE, QUOTE, 0x69u8, 0x64, QUOTE, COLON] + e1 + seq![COMMA, QUOTE]
        + description_key() + seq![QUOTE, COLON, QUOTE] + db + seq![QUOTE, COMMA, QUOTE]
        + count_key() + seq![QUOTE, COLON] + e2 + seq![RBRACE]) by {
        assert(seq![LBRACE, QUOTE] + id_key() + seq![QUOTE, COLON] =~= seq![
            LBRACE,
            QUOTE,
            0x69u8,
            0x64,
            QUOTE,
            COLON,
        ]);
    }
    assert(s.len() == g2 + 1);
    assert(s.subrange(6, b1) =~= e1);
    assert(s.subrange(c1, c2) =~= description_key());
    assert(s.subrange(d1, d2) =~= db);
    assert(s.subrange(f1, f2) =~= count_key());
    assert(s.subrange(g1, g2) =~= e2);
}

/// One member whose value ends just before the closing brace: the walk
/// returns the folded state and the position after the brace.
proof fn lemma_member_step_close(
    s: Seq<u8>,
    i: int,
    key: Seq<u8>,
    j: int,
    st: FieldsModel,
    st2: FieldsModel,
    jv: int,
)
    requires
        0 <= i && i < s.len() && s[i] == QUOTE,
        parse_str_rest(s, i + 1) == Some((key, j)),
        valid_utf8(key),
        skip_ws(s, j) == j,
        j < s.len() && s[j] == COLON,
        skip_ws(s, j + 1) == j + 1,
        parse_member_value(s, j + 1, key, st) == Some((st2, jv)),
        skip_ws(s, jv) == jv,
        jv < s.len() && s[jv] == RBRACE,
    ensures
        parse_members(s, i, st) == Some((st2, jv + 1)),
{
}

/// One member followed by a comma: the walk continues at the next key with
/// the folded state, and returns whatever the rest of the walk returns.
proof fn lemma_member_step_comma(
    s: Seq<u8>,
    i: int,
    key: Seq<u8>,
    j: int,
    st: FieldsModel,
    st2: FieldsModel,
    jv: int,
    out_st: FieldsModel,
    out_j: int,
)
    requires
        0 <= i && i < s.len() && s[i] == QUOTE,
        parse_str_rest(s, i + 1) == Some((key, j)),
        valid_utf8(key),
        skip_ws(s, j) == j,
        j < s.len() && s[j] == COLON,
        skip_ws(s, j + 1) == j + 1,
        parse_member_value(s, j + 1, key, st) == Some((st2, jv)),
        skip_ws(s, jv) == jv,
        jv < s.len() && s[jv] == COMMA,
        skip_ws(s, jv + 1) == jv + 1,
        i < jv + 1 <= s.len(),
        parse_members(s, jv + 1, st2) == Some((out_st, out_j)),
    ensures
        parse_members(s, i, st) == Some((out_st, out_j)),
{
    assert(!(jv < s.len() && s[jv] == RBRACE));
}

/// The member state after the first member of the canonical encoding.
spec fn st1_of(m: ItemModel) -> FieldsModel {
    FieldsModel { id: Some(m.id), description: None, count: None }
}

/// The member state after the second member of the canonical encoding.
spec fn st2_of(m: ItemModel) -> FieldsModel {
    FieldsModel { id: Some(m.id), description: Some(encode_utf8(m.description)), count: None }
}

#[verifier::rlimit(100)]
#[verifier::spinoff_prover]
proof fn lemma_parse_encoded_member3(m: ItemModel)
    requires
        valid_item_model(m),
        layout_ok(m),
    ensures
        ({
            let n1 = encode_int(m.id).len() as int;
            let nd = encode_desc(m.description).len() as int;
            parse_members(encode_item(m), 24 + n1 + nd, st2_of(m)) == Some(
                (full_fields(m), encode_item(m).len() as int),
            )
        }),
{
    lemma_pow10_19_value();
    let s = encode_item(m);
    let e1 = encode_int(m.id);
    let db = encode_desc(m.description);
    let e2 = encode_int(m.count);
    let n1 = e1.len() as int;
    let nd = db.len() as int;
    let n2 = e2.len() as int;
    let b1 = 6 + n1;
    let c1 = b1 + 2;
    let c2 = c1 + 11;
    let d1 = c2 + 3;
    let d2 = d1 + nd;
    let f1 = d2 + 3;
    let f2 = f1 + 5;
    let g1 = f2 + 2;
    let g2 = g1 + n2;
    lemma_dec_digits_props((if m.count < 0 { -m.count } else { m.count }) as nat, 19);
    assert(valid_utf8(count_key())) by {
        lemma_keys_valid();
    }
    assert(e2[0] == s.subrange(g1, g2)[0]);
    assert forall|k: int| f1 <= k < f2 implies is_plain_char(#[trigger] s[k]) by {
        assert(s[k] == s.subrange(f1, f2)[k - f1]);
    }
    lemma_parse_plain_str(s, f1, f2);
    assert(skip_ws(s, f2 + 1) == f2 + 1);
    assert(skip_ws(s, g1) == g1);
    lemma_parse_int_at(s, g1, g2, m.count);
    let st3 = full_fields(m);
    assert(parse_member_value(s, g1, count_key(), st2_of(m)) == Some((st3, g2))) by {
        assert(count_key() != id_key()) by {
            assert(count_key().len() != id_key().len());
        }
        assert(count_key() != description_key()) by {
            assert(count_key().len() != description_key().len());
        }
    }
    assert(skip_ws(s, g2) == g2);
    assert(f1 - 1 == 24 + n1 + nd);
    assert(parse_str_rest(s, f1) == Some((count_key(), f2 + 1)));
    lemma_member_step_close(s, f1 - 1, count_key(), f2 + 1, st2_of(m), st3, g2);
}

#[verifier::rlimit(100)]
#[verifier::spinoff_prover]
proof fn lemma_parse_desc_value(m: ItemModel)
    requires
        valid_item_model(m),
        layout_ok(m),
    ensures
        ({
            let n1 = encode_int(m.id).len() as int;
            let nd = encode_desc(m.description).len() as int;
            parse_string_valid(encode_item(m), 21 + n1) == Some(
                (encode_utf8(m.description), 23 + n1 + nd),
            )
        }),
{
    let s = encode_item(m);
    let e1 = encode_int(m.id);
    let db = encode_desc(m.description);
    let n1 = e1.len() as int;
    let nd = db.len() as int;
    let c2 = 19 + n1;
    let d1 = c2 + 3;
    let d2 = d1 + nd;
    assert(s.subrange(d1, d2) == db);
    assert(s[d2] == QUOTE);
    lemma_parse_encoded_desc(s, d1, d2, m.description);
    vstd::utf8::encode_utf8_valid_utf8(m.description);
    assert(s[c2 + 2] == QUOTE);
    assert(parse_string_valid(s, c2 + 2) == Some((encode_utf8(m.description), d2 + 1)));
}

#[verifier::rlimit(100)]
#[verifier::spinoff_prover]
proof fn lemma_parse_encoded_member2(m: ItemModel)
    requires
        valid_item_model(m),
        layout_ok(m),
        ({
            let n1 = encode_int(m.id).len() as int;
            let nd = encode_desc(m.description).len() as int;
            parse_members(encode_item(m), 24 + n1 + nd, st2_of(m)) == Some(
                (full_fields(m), encode_item(m).len() as int),
            )
        }),
    ensures
        parse_members(encode_item(m), 7 + encode_int(m.id).len() as int, st1_of(m)) == Some(
            (full_fields(m), encode_item(m).len() as int),
        ),
{
    lemma_parse_desc_value(m);
    let s = encode_item(m);
    let e1 = encode_int(m.id);
    let db = encode_desc(m.description);
    let n1 = e1.len() as int;
    let nd = db.len() as int;
    let b1 = 6 + n1;
    let c1 = b1 + 2;
    let c2 = c1 + 11;
    let d1 = c2 + 3;
    let d2 = d1 + nd;
    assert forall|k: int| c1 <= k < c2 implies is_plain_char(#[trigger] s[k]) by {
        assert(s[k] == s.subrange(c1, c2)[k - c1]);
    }
    lemma_parse_plain_str(s, c1, c2);
    assert(valid_utf8(description_key())) by {
        lemma_keys_valid();
    }
    assert(s.subrange(c1, c2) == description_key());
    assert(skip_ws(s, c2) == c2);
    assert(skip_ws(s, c2 + 1) == c2 + 1);
    assert(skip_ws(s, c2 + 2) == c2 + 2);
    assert(parse_string_valid(s, c2 + 2) == Some((encode_utf8(m.description), d2 + 1)));
    assert(parse_member_value(s, c2 + 2, description_key(), st1_of(m)) == Some(
        (st2_of(m), d2 + 1),
    )) by {
        assert(description_key() != id_key()) by {
            assert(description_key().len() != id_key().len());
        }
        assert(description_key() != count_key()) by {
            assert(description_key().len() != count_key().len());
        }
    }
    assert(skip_ws(s, d2 + 1) == d2 + 1);
    assert(skip_ws(s, d2 + 2) == d2 + 2);
    assert(d2 + 2 == 24 + n1 + nd);
    assert(c1 - 1 == 7 + n1);
    assert(parse_str_rest(s, c1) == Some((description_key(), c2 + 1)));
    lemma_member_step_comma(
        s,
        c1 - 1,
        description_key(),
        c2 + 1,
        st1_of(m),
        st2_of(m),
        d2 + 1,
        full_fields(m),
        encode_item(m).len() as int,
    );
}

#[verifier::rlimit(100)]
#[verifier::spinoff_prover]
proof fn lemma_parse_id_value(m: ItemModel)
    requires
        valid_item_model(m),
        layout_ok(m),
    ensures
        parse_int(encode_item(m), 6) == Some((m.id, 6 + encode_int(m.id).len() as int)),
{
    lemma_pow10_19_value();
    let s = encode_item(m);
    let e1 = encode_int(m.id);
    let n1 = e1.len() as int;
    let b1 = 6 + n1;
    lemma_dec_digits_props((if m.id < 0 { -m.id } else { m.id }) as nat, 19);
    assert(e1[0] == s.subrange(6, b1)[0]);
    assert(e1[0] == MINUS || is_digit(e1[0]));
    lemma_parse_int_at(s, 6, b1, m.id);
}

#[verifier::rlimit(100)]
#[verifier::spinoff_prover]
proof fn lemma_member1_facts(m: ItemModel)
    requires
        valid_item_model(m),
        layout_ok(m),
    ensures
        ({
            let s = encode_item(m);
            let b1 = 6 + encode_int(m.id).len() as int;
            &&& s.len() > b1 + 1
            &&& s[1] == QUOTE
            &&& parse_str_rest(s, 2) == Some((id_key(), 5int))
            &&& valid_utf8(id_key())
            &&& skip_ws(s, 5) == 5
            &&& s[5] == COLON
            &&& skip_ws(s, 6) == 6
            &&& parse_member_value(s, 6, id_key(), empty_fields()) == Some((st1_of(m), b1))
            &&& skip_ws(s, b1) == b1
            &&& s[b1] == COMMA
            &&& skip_ws(s, b1 + 1) == b1 + 1
        }),
{
    lemma_parse_id_value(m);
    let s = encode_item(m);
    let n1 = encode_int(m.id).len() as int;
    let b1 = 6 + n1;
    assert(s.subrange(2, 4) =~= id_key());
    lemma_parse_plain_str(s, 2, 4);
    assert(valid_utf8(id_key())) by {
        lemma_keys_valid();
    }
    assert(skip_ws(s, 5) == 5);
    assert(skip_ws(s, 6) == 6);
    assert(parse_member_value(s, 6, id_key(), empty_fields()) == Some((st1_of(m), b1)));
    assert(skip_ws(s, b1) == b1);
    assert(skip_ws(s, b1 + 1) == b1 + 1);
}

#[verifier::rlimit(100)]
#[verifier::spinoff_prover]
proof fn lemma_parse_encoded_member1(m: ItemModel)
    requires
        valid_item_model(m),
        layout_ok(m),
        parse_members(encode_item(m), 7 + encode_int(m.id).len() as int, st1_of(m)) == Some(
            (full_fields(m), encode_item(m).len() as int),
        ),
    ensures
        parse_members(encode_item(m), 1, empty_fields()) == Some(
            (full_fields(m), encode_item(m).len() as int),
        ),
{
    lemma_member1_facts(m);
    let s = encode_item(m);
    let b1 = 6 + encode_int(m.id).len() as int;
    lemma_member_step_comma(
        s,
        1,
        id_key(),
        5,
        empty_fields(),
        st1_of(m),
        b1,
        full_fields(m),
        encode_item(m).len() as int,
    );
}

proof fn lemma_parse_encoded_members(m: ItemModel)
    requires
        valid_item_model(m),
        layout_ok(m),
    ensures
        parse_members(encode_item(m), 1, empty_fields()) == Some(
            (full_fields(m), encode_item(m).len() as int),
        ),
{
    lemma_parse_encoded_member3(m);
    lemma_parse_encoded_member2(m);
    lemma_parse_encoded_member1(m);
}

/// Law: the canonical encoding of any valid item decodes back to exactly
/// that item; encoding then decoding is the identity on the three fields.
#[verifier::rlimit(100)]
#[verifier::spinoff_prover]
pub proof fn lemma_encode_decode_roundtrip(m: ItemModel)
    requires
        valid_item_model(m),
    ensures
        parse_item(encode_item(m)) == Some(m),
{
    lemma_encode_layout(m);
    lemma_parse_encoded_members(m);
    let s = encode_item(m);
    assert(skip_ws(s, 0) == 0);
    assert(skip_ws(s, 1) == 1);
    assert(s[1] == QUOTE && s[1] != RBRACE);
    assert(skip_ws(s, s.len() as int) == s.len() as int);
    vstd::utf8::encode_utf8_decode_utf8(m.description);
    assert(finalize(full_fields(m)) == Some(m));
}


fn push_digits(v: &mut Vec<u8>, n: u64)
    ensures
        final(v)@ == old(v)@ + dec_digits(n as nat),
    decreases n,
{
    if n < 10 {
        v.push(0x30 + n as u8);
        proof {
            assert(v@ =~= old(v)@ + dec_digits(n as nat));
        }
    } else {
        push_digits(v, n / 10);
        v.push(0x30 + (n % 10) as u8);
        proof {
            assert(dec_digits(n as nat) == dec_digits((n as nat) / 10) + seq![
                (0x30 + (n as nat) % 10) as u8,
            ]);
            assert((n / 10) as nat == (n as nat) / 10);
            assert((n % 10) as nat == (n as nat) % 10);
            assert(v@ =~= old(v)@ + dec_digits(n as nat));
        }
    }
}

fn push_int(v: &mut Vec<u8>, x: i64)
    ensures
        final(v)@ == old(v)@ + encode_int(x as int),
{
    if x < 0 {
        v.push(MINUS);
        let mag: u64 = (-(x as i128)) as u64;
        proof {
            assert(mag as nat == (-(x as int)) as nat);
        }
        push_digits(v, mag);
        proof {
            assert(encode_int(x as int) == seq![MINUS] + dec_digits(mag as nat));
            assert(v@ =~= old(v)@ + encode_int(x as int));
        }
    } else {
        push_digits(v, x as u64);
        proof {
            assert(encode_int(x as int) == dec_digits((x as int) as nat));
        }
    }
}

impl Item {
    /// Encodes the item as its canonical payload: the three members in
    /// declaration order, no surrounding whitespace, every character the
    /// grammar cannot carry plainly written as a hexadecimal escape.
    #[verifier::rlimit(100)]
    #[verifier::spinoff_prover]
    pub fn encode(&self) -> (r: Vec<u8>)
        ensures
            r@ == encode_item(self@),
    {
        let mut v: Vec<u8> = Vec::new();
        v.push(LBRACE);
        v.push(QUOTE);
        v.push(0x69);
        v.push(0x64);
        v.push(QUOTE);
        v.push(COLON);
        let ghost p1 = v@;
        proof {
            assert(p1 =~= seq![LBRACE, QUOTE] + id_key() + seq![QUOTE, COLON]);
        }
        push_int(&mut v, self.id);
        v.push(COMMA);
        v.push(QUOTE);
        v.push(0x64);
        v.push(0x65);
        v.push(0x73);
        v.push(0x63);
        v.push(0x72);
        v.push(0x69);
        v.push(0x70);
        v.push(0x74);
        v.push(0x69);
        v.push(0x6f);
        v.push(0x6e);
        v.push(QUOTE);
        v.push(COLON);
        v.push(QUOTE);
        let ghost p2 = v@;
        proof {
            assert(p2 =~= p1 + encode_int(self.id as int) + seq![COMMA, QUOTE]
                + description_key() + seq![QUOTE, COLON, QUOTE]);
        }
        push_encoded_desc(&mut v, &self.description);
        v.push(QUOTE);
        v.push(COMMA);
        v.push(QUOTE);
        v.push(0x63);
        v.push(0x6f);
        v.push(0x75);
        v.push(0x6e);
        v.push(0x74);
        v.push(QUOTE);
        v.push(COLON);
        let ghost p3 = v@;
        proof {
            assert(p3 =~= p2 + encode_desc(self@.description) + seq![QUOTE, COMMA, QUOTE]
                + count_key() + seq![QUOTE, COLON]);
        }
        push_int(&mut v, self.count);
        v.push(RBRACE);
        proof {
            assert(v@ =~= encode_item(self@));
        }
        v
    }
}

fn hex_digit_x(x: u32) -> (r: u8)
    requires
        x < 16,
    ensures
        r == hex_digit(x),
{
    if x < 10 {
        0x30 + (x as u8)
    } else {
        0x61 + ((x - 10) as u8)
    }
}

fn push_hex4(v: &mut Vec<u8>, x: u32)
    requires
        x < 0x10000,
    ensures
        final(v)@ == old(v)@ + seq![
            BACKSLASH,
            0x75u8,
            hex_digit((x >> 12) & 0xf),
            hex_digit((x >> 8) & 0xf),
            hex_digit((x >> 4) & 0xf),
            hex_digit(x & 0xf),
        ],
{
    proof {
        assert(((x >> 12) & 0xf) < 16 && ((x >> 8) & 0xf) < 16 && ((x >> 4) & 0xf) < 16 && (x
            & 0xf) < 16) by (bit_vector);
    }
    v.push(BACKSLASH);
    v.push(0x75);
    v.push(hex_digit_x((x >> 12) & 0xf));
    v.push(hex_digit_x((x >> 8) & 0xf));
    v.push(hex_digit_x((x >> 4) & 0xf));
    v.push(hex_digit_x(x & 0xf));
    proof {
        assert(v@ =~= old(v)@ + seq![
            BACKSLASH,
            0x75u8,
            hex_digit((x >> 12) & 0xf),
            hex_digit((x >> 8) & 0xf),
            hex_digit((x >> 4) & 0xf),
            hex_digit(x & 0xf),
        ]);
    }
}

fn push_encoded_char(v: &mut Vec<u8>, c: char)
    ensures
        final(v)@ == old(v)@ + encode_char(c),
{
    let u = c as u32;
    proof {
        vstd::utf8::char_is_scalar(c);
    }
    if 0x20 <= u && u < 0x7f && c != '"' && c != '\\' {
        proof {
            assert(is_plain_text_char(c));
        }
        v.push(u as u8);
        proof {
            assert(v@ =~= old(v)@ + encode_char(c));
        }
    } else if u < 0x10000 {
        proof {
            assert(!is_plain_text_char(c));
        }
        push_hex4(v, u);
        proof {
            assert(v@ =~= old(v)@ + encode_char(c));
        }
    } else {
        let w = u - 0x10000;
        proof {
            assert(!is_plain_text_char(c));
            assert(u <= 0x10ffff);
            assert((w >> 10) <= 0x3ff && (w & 0x3ff) <= 0x3ff) by (bit_vector)
                requires
                    w <= 0xfffff,
            ;
        }
        let hi = 0xd800 + (w >> 10);
        let lo = 0xdc00 + (w & 0x3ff);
        let ghost mid = v@;
        push_hex4(v, hi);
        push_hex4(v, lo);
        proof {
            assert(v@ =~= old(v)@ + encode_char(c));
        }
    }
}

proof fn lemma_encode_desc_snoc(d: Seq<char>, c: char)
    ensures
        encode_desc(d.push(c)) == encode_desc(d) + encode_char(c),
    decreases d.len(),
{
    if d.len() == 0 {
        assert(d.push(c)[0] == c);
        assert(d.push(c).drop_first() =~= Seq::<char>::empty());
        assert(encode_desc(d.push(c)) == encode_char(c) + encode_desc(d.push(c).drop_first()));
        assert(encode_desc(d.push(c).drop_first()) == Seq::<u8>::empty());
        assert(encode_desc(d) == Seq::<u8>::empty());
        assert(encode_desc(d.push(c)) =~= encode_desc(d) + encode_char(c));
    } else {
        assert(d.push(c).drop_first() =~= d.drop_first().push(c));
        lemma_encode_desc_snoc(d.drop_first(), c);
        assert(d.push(c)[0] == d[0]);
        assert(encode_desc(d.push(c)) == encode_char(d[0]) + encode_desc(d.drop_first().push(c)));
        assert(encode_desc(d.push(c)) == encode_char(d[0]) + (encode_desc(d.drop_first())
            + encode_char(c)));
        assert(encode_char(d[0]) + (encode_desc(d.drop_first()) + encode_char(c)) =~= (encode_char(
            d[0],
        ) + encode_desc(d.drop_first())) + encode_char(c));
        assert(encode_desc(d.push(c)) =~= encode_desc(d) + encode_char(c));
    }
}

/// Appends the string-literal bytes of the whole description.
fn push_encoded_desc(v: &mut Vec<u8>, d: &String)
    ensures
        final(v)@ == old(v)@ + encode_desc(d@),
{
    let n = d.as_str().unicode_len();
    let mut k: usize = 0;
    proof {
        assert(d@.take(0) =~= Seq::<char>::empty());
        assert(v@ =~= old(v)@ + encode_desc(d@.take(0)));
    }
    while k < n
        invariant
            0 <= k <= n,
            n == d@.len(),
            v@ == old(v)@ + encode_desc(d@.take(k as int)),
        decreases n - k,
    {
        let c = d.as_str().get_char(k);
        push_encoded_char(v, c);
        proof {
            lemma_encode_desc_snoc(d@.take(k as int), c);
            assert(d@.take(k as int + 1) =~= d@.take(k as int).push(c));
        }
        k = k + 1;
    }
    proof {
        assert(d@.take(n as int) =~= d@);
    }
}

impl Item {
    /// Decodes one record payload. Succeeds exactly on the byte sequences
    /// the payload grammar admits, and then returns the item whose fields
    /// are the ones encoded; every other input is rejected.
    pub fn decode(bytes: &Vec<u8>) -> (r: Result<Item, DecodeError>)
        ensures
            match r {
                Ok(item) => parse_item(bytes@) == Some(item@),
                Err(_) => parse_item(bytes@) is None,
            },
    {
        let i = skip_ws_x(bytes, 0);
        if !(i < bytes.len() && bytes[i] == LBRACE) {
            return Err(DecodeError);
        }
        let j = skip_ws_x(bytes, i + 1);
        if j < bytes.len() && bytes[j] == RBRACE {
            // An empty object is missing all three required members.
            return Err(DecodeError);
        }
        let st0 = FieldsX { id: None, description: None, count: None };
        proof {
            assert(st0@ == empty_fields());
        }
        match parse_members_x(bytes, j, st0) {
            Some((st, p)) => {
                let k = skip_ws_x(bytes, p);
                if k != bytes.len() {
                    return Err(DecodeError);
                }
                match (st.id, st.description, st.count) {
                    (Some(id), Some(d), Some(count)) => match utf8_bytes_to_string(&d) {
                        Some(description) => {
                            let item = Item { id, description, count };
                            proof {
                                assert(item@ == finalize(st@)->Some_0);
                            }
                            Ok(item)
                        },
                        None => {
                            // The grammar admits only valid UTF-8 content.
                            proof {
                                assert(false);
                            }
                            Err(DecodeError)
                        },
                    },
                    _ => Err(DecodeError),
                }
            },
            None => Err(DecodeError),
        }
    }
}

} // verus!
