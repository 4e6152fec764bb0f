//! The encodings that the generated files are made of: Base64 and JSON.
//!
//! Both are written by outside crates. The wrappers below are not verified: what their
//! contracts say is what the crate relies on.
use base64::Engine;
use serde_json::Value;
use vstd::prelude::*;

verus! {

/// A JSON value.
#[verifier::external_type_specification]
#[verifier::external_body]
pub struct ExValue(serde_json::Value);

// Base64.

/// The byte at position `i`, or zero behind the end.
pub open spec fn byte_or_zero(bytes: Seq<u8>, i: int) -> int {
    if 0 <= i < bytes.len() {
        bytes[i] as int
    } else {
        0
    }
}

/// The `i`th group of six bits, counted from the front of `bytes`.
pub open spec fn six_bits(bytes: Seq<u8>, i: int) -> int {
    let two = byte_or_zero(bytes, 6 * i / 8) * 256 + byte_or_zero(bytes, 6 * i / 8 + 1);
    let shifted = if i % 4 == 0 {
        two / 1024
    } else if i % 4 == 1 {
        two / 16
    } else if i % 4 == 2 {
        two / 64
    } else {
        two / 256
    };
    shifted % 64
}

/// The character for a group of six bits in the standard alphabet.
pub open spec fn base64_digit(value: int) -> char {
    if value < 26 {
        (65 + value) as char
    } else if value < 52 {
        (71 + value) as char
    } else if value < 62 {
        (value - 4) as char
    } else if value == 62 {
        '+'
    } else {
        '/'
    }
}

/// `bytes` in Base64 with the standard alphabet, padded to a multiple of four characters.
pub open spec fn base64_text(bytes: Seq<u8>) -> Seq<char> {
    Seq::new(
        4 * ((bytes.len() + 2) / 3),
        |i: int|
            if 6 * i < 8 * bytes.len() {
                base64_digit(six_bits(bytes, i))
            } else {
                '='
            },
    )
}

/// `base64::engine::general_purpose::STANDARD.encode`: the standard, padded Base64 of
/// `bytes`. No vector is so long that computing the length of the text overflows.
#[verifier::external_body]
pub(crate) fn base64_encode(bytes: &Vec<u8>) -> (r: String)
    ensures
        r@ == base64_text(bytes@),
{
    base64::engine::general_purpose::STANDARD.encode(bytes)
}

// JSON.

/// How a character is written inside a JSON string.
pub open spec fn json_char(c: char) -> Seq<char> {
    if c == '"' || c == '\\' {
        seq!['\\', c]
    } else if c == '\u{8}' {
        seq!['\\', 'b']
    } else if c == '\t' {
        seq!['\\', 't']
    } else if c == '\n' {
        seq!['\\', 'n']
    } else if c == '\u{c}' {
        seq!['\\', 'f']
    } else if c == '\r' {
        seq!['\\', 'r']
    } else if (c as u32) < 32 {
        seq!['\\', 'u', '0', '0'] + crate::x509::hex_pair(c as u8, false)
    } else {
        seq![c]
    }
}

/// How a text is written inside a JSON string.
pub open spec fn json_chars(text: Seq<char>) -> Seq<char>
    decreases text.len(),
{
    if text.len() == 0 {
        Seq::empty()
    } else {
        json_chars(text.drop_last()) + json_char(text.last())
    }
}

/// A text as a JSON string.
pub open spec fn json_quoted(text: Seq<char>) -> Seq<char> {
    seq!['"'] + json_chars(text) + seq!['"']
}

/// A JSON array of what is written in `items`.
pub open spec fn json_listed(items: Seq<Seq<char>>) -> Seq<char> {
    seq!['['] + crate::text::joined(items, ","@) + seq![']']
}

/// A JSON object with two members.
pub open spec fn json_pair(
    first: Seq<char>,
    first_value: Seq<char>,
    second: Seq<char>,
    second_value: Seq<char>,
) -> Seq<char> {
    seq!['{'] + json_quoted(first) + seq![':'] + first_value + seq![','] + json_quoted(second)
        + seq![':'] + second_value + seq!['}']
}

/// A JSON value as `serde_json` displays it.
pub uninterp spec fn json_text(value: Value) -> Seq<char>;

/// Each value of a list as `serde_json` displays it.
pub open spec fn json_texts(values: Seq<Value>) -> Seq<Seq<char>> {
    values.map_values(|v: Value| json_text(v))
}

/// `serde_json::Value::String`: displayed between quotes, with quotes, backslashes and
/// control characters escaped.
#[verifier::external_body]
pub(crate) fn json_string(text: &str) -> (r: Value)
    ensures
        json_text(r) == json_quoted(text@),
{
    Value::String(text.to_owned())
}

/// `serde_json::Value::Array`: displayed as its items, with commas between them, in
/// brackets.
#[verifier::external_body]
pub(crate) fn json_array(items: Vec<Value>) -> (r: Value)
    ensures
        json_text(r) == json_listed(json_texts(items@)),
{
    Value::Array(items)
}

/// `serde_json::Value::Object`: displayed as its members in braces. The members come in the
/// order of their keys, which is the order in which they are handed over here.
#[verifier::external_body]
pub(crate) fn json_object(first: &str, first_value: Value, second: &str, second_value: Value) -> (r:
    Value)
    requires
        crate::text::precedes(first@, second@),
    ensures
        json_text(r) == json_pair(
            first@,
            json_text(first_value),
            second@,
            json_text(second_value),
        ),
{
    let mut members = serde_json::Map::new();
    members.insert(first.to_owned(), first_value);
    members.insert(second.to_owned(), second_value);
    Value::Object(members)
}

/// `serde_json::Value` through its `Display`: the compact JSON text.
#[verifier::external_body]
pub(crate) fn json_render(value: &Value) -> (r: String)
    ensures
        r@ == json_text(*value),
{
    value.to_string()
}

/// JSON strings stay on one line: no control character is written as it is.
pub proof fn lemma_json_is_one_line(text: Seq<char>)
    ensures
        forall|i: int|
            0 <= i < json_quoted(text).len() ==> #[trigger] json_quoted(text)[i] as u32 >= 32,
    decreases text.len(),
{
    if text.len() > 0 {
        let front = json_chars(text.drop_last());
        let last = json_char(text.last());
        lemma_json_is_one_line(text.drop_last());
        assert forall|i: int| 0 <= i < front.len() implies front[i] as u32 >= 32 by {
            assert(json_quoted(text.drop_last())[i + 1] == front[i]);
        }
        assert forall|i: int| 0 <= i < last.len() implies last[i] as u32 >= 32 by {
            let c = text.last();
            let pair = crate::x509::hex_pair(c as u8, false);
            if last.len() == 6 && i >= 4 {
                assert(last[i] == pair[i - 4]);
                assert(pair[i - 4] as u32 >= 48);
            }
        }
        assert forall|i: int| 0 <= i < json_quoted(text).len() implies #[trigger] json_quoted(
            text,
        )[i] as u32 >= 32 by {
            let all = json_quoted(text);
            if 0 < i <= front.len() {
                assert(all[i] == front[i - 1]);
            } else if front.len() < i <= front.len() + last.len() {
                assert(all[i] == last[i - 1 - front.len()]);
            }
        }
    }
}

/// How the bytes of one group of three follow from its four groups of six bits.
proof fn lemma_bytes_from_six_bits(bytes: Seq<u8>, k: int)
    requires
        0 <= k,
    ensures
        byte_or_zero(bytes, 3 * k) == six_bits(bytes, 4 * k) * 4 + six_bits(bytes, 4 * k + 1) / 16,
        byte_or_zero(bytes, 3 * k + 1) == (six_bits(bytes, 4 * k + 1) % 16) * 16 + six_bits(
            bytes,
            4 * k + 2,
        ) / 4,
        byte_or_zero(bytes, 3 * k + 2) == (six_bits(bytes, 4 * k + 2) % 4) * 64 + six_bits(
            bytes,
            4 * k + 3,
        ),
{
    let b0 = byte_or_zero(bytes, 3 * k);
    let b1 = byte_or_zero(bytes, 3 * k + 1);
    let b2 = byte_or_zero(bytes, 3 * k + 2);
    let b3 = byte_or_zero(bytes, 3 * k + 3);
    lemma_group_places(k);
    lemma_group_of_three(b0, b1, b2, b3);
}

/// Where the groups of six bits of one group of three bytes begin.
proof fn lemma_group_places(k: int)
    requires
        0 <= k,
    ensures
        6 * (4 * k) / 8 == 3 * k,
        6 * (4 * k + 1) / 8 == 3 * k,
        6 * (4 * k + 2) / 8 == 3 * k + 1,
        6 * (4 * k + 3) / 8 == 3 * k + 2,
        (4 * k) % 4 == 0,
        (4 * k + 1) % 4 == 1,
        (4 * k + 2) % 4 == 2,
        (4 * k + 3) % 4 == 3,
{
}

/// Three bytes in four groups of six bits.
proof fn lemma_group_of_three(b0: int, b1: int, b2: int, b3: int)
    requires
        0 <= b0 < 256,
        0 <= b1 < 256,
        0 <= b2 < 256,
        0 <= b3 < 256,
    ensures
        b0 == (((b0 * 256 + b1) / 1024) % 64) * 4 + (((b0 * 256 + b1) / 16) % 64) / 16,
        b1 == ((((b0 * 256 + b1) / 16) % 64) % 16) * 16 + (((b1 * 256 + b2) / 64) % 64) / 4,
        b2 == ((((b1 * 256 + b2) / 64) % 64) % 4) * 64 + ((b2 * 256 + b3) / 256) % 64,
{
    assert((b0 * 256 + b1) / 1024 == b0 / 4);
    assert((b0 * 256 + b1) / 16 == b0 * 16 + b1 / 16);
    assert((b1 * 256 + b2) / 64 == b1 * 4 + b2 / 64);
    assert((b2 * 256 + b3) / 256 == b2);
    assert((b0 * 16 + b1 / 16) % 64 == (b0 % 4) * 16 + b1 / 16);
    assert((b1 * 4 + b2 / 64) % 64 == (b1 % 16) * 4 + b2 / 64);
}

/// Different groups of six bits have different characters, and none has the padding.
proof fn lemma_base64_digit_injective(a: int, b: int)
    requires
        0 <= a < 64,
        0 <= b < 64,
    ensures
        base64_digit(a) == base64_digit(b) ==> a == b,
        base64_digit(a) != '=',
{
    assert(base64_digit(a) as int == base64_digit(b) as int ==> a == b);
    assert(base64_digit(a) as int != 61);
}

/// Where two byte strings have the same Base64 text, they agree on each group of six bits.
proof fn lemma_same_six_bits(a: Seq<u8>, b: Seq<u8>, i: int)
    requires
        base64_text(a) == base64_text(b),
        a.len() == b.len(),
        0 <= i,
        6 * i < 8 * a.len(),
    ensures
        six_bits(a, i) == six_bits(b, i),
{
    assert(i < base64_text(a).len());
    assert(base64_text(a)[i] == base64_digit(six_bits(a, i)));
    assert(base64_text(b)[i] == base64_digit(six_bits(b, i)));
    lemma_base64_digit_injective(six_bits(a, i), six_bits(b, i));
}

/// The shorter of two byte strings has padding where the longer has none.
proof fn lemma_base64_length(a: Seq<u8>, b: Seq<u8>)
    requires
        base64_text(a) == base64_text(b),
    ensures
        a.len() >= b.len(),
{
    if a.len() < b.len() {
        let i = (8 * a.len() as int + 5) / 6;
        assert(base64_text(a).len() == base64_text(b).len());
        assert(6 * i >= 8 * a.len());
        assert(6 * i < 8 * b.len());
        assert(i < base64_text(b).len());
        assert(base64_text(a)[i] == '=');
        assert(base64_text(b)[i] == base64_digit(six_bits(b, i)));
        lemma_base64_digit_injective(six_bits(b, i), 0);
    }
}

/// Base64 loses nothing: byte strings with the same text are the same.
pub proof fn lemma_base64_injective(a: Seq<u8>, b: Seq<u8>)
    requires
        base64_text(a) == base64_text(b),
    ensures
        a == b,
{
    lemma_base64_length(a, b);
    lemma_base64_length(b, a);
    assert forall|j: int| 0 <= j < a.len() implies a[j] == b[j] by {
        let k = j / 3;
        lemma_bytes_from_six_bits(a, k);
        lemma_bytes_from_six_bits(b, k);
        if j % 3 == 0 {
            lemma_same_six_bits(a, b, 4 * k);
            lemma_same_six_bits(a, b, 4 * k + 1);
        } else if j % 3 == 1 {
            lemma_same_six_bits(a, b, 4 * k + 1);
            lemma_same_six_bits(a, b, 4 * k + 2);
        } else {
            lemma_same_six_bits(a, b, 4 * k + 2);
            lemma_same_six_bits(a, b, 4 * k + 3);
        }
        assert(byte_or_zero(a, j) == byte_or_zero(b, j));
    }
    assert(a =~= b);
}

// Reading JSON, to say what was written.

/// The character that an escape at the beginning of `s` stands for, and how long the escape
/// is.
pub open spec fn json_escape_at(s: Seq<char>) -> Option<(char, int)> {
    if s.len() < 2 {
        None
    } else if s[1] == '"' || s[1] == '\\' || s[1] == '/' {
        Some((s[1], 2))
    } else if s[1] == 'b' {
        Some(('\u{8}', 2))
    } else if s[1] == 't' {
        Some(('\t', 2))
    } else if s[1] == 'n' {
        Some(('\n', 2))
    } else if s[1] == 'f' {
        Some(('\u{c}', 2))
    } else if s[1] == 'r' {
        Some(('\r', 2))
    } else if s[1] == 'u' && s.len() >= 6 && s[2] == '0' && s[3] == '0' {
        match (crate::x509::hex_value(s[4]), crate::x509::hex_value(s[5])) {
            (Some(high), Some(low)) => Some(((high * 16 + low) as char, 6)),
            _ => None,
        }
    } else {
        None
    }
}

/// The text of a JSON string whose opening quote was read, and what stands behind its closing
/// quote.
pub open spec fn json_read_text(s: Seq<char>) -> Option<(Seq<char>, Seq<char>)>
    decreases s.len(),
{
    if s.len() == 0 {
        None
    } else if s[0] == '"' {
        Some((Seq::empty(), s.skip(1)))
    } else if s[0] == '\\' {
        match json_escape_at(s) {
            Some((c, n)) => if 0 < n <= s.len() {
                match json_read_text(s.skip(n)) {
                    Some((text, rest)) => Some((seq![c] + text, rest)),
                    None => None,
                }
            } else {
                None
            },
            None => None,
        }
    } else {
        match json_read_text(s.skip(1)) {
            Some((text, rest)) => Some((seq![s[0]] + text, rest)),
            None => None,
        }
    }
}

/// The texts of a JSON array of strings that is not empty and whose opening bracket was read,
/// and what stands behind its closing bracket.
pub open spec fn json_read_items(s: Seq<char>) -> Option<(Seq<Seq<char>>, Seq<char>)>
    decreases s.len(),
{
    if s.len() == 0 || s[0] != '"' {
        None
    } else {
        match json_read_text(s.skip(1)) {
            None => None,
            Some((text, rest)) => if rest.len() == 0 || rest.len() >= s.len() {
                None
            } else if rest[0] == ']' {
                Some((seq![text], rest.skip(1)))
            } else if rest[0] == ',' {
                match json_read_items(rest.skip(1)) {
                    Some((texts, behind)) => Some((seq![text] + texts, behind)),
                    None => None,
                }
            } else {
                None
            },
        }
    }
}

/// The texts of a JSON array of strings, and what stands behind it.
pub open spec fn json_read_list(s: Seq<char>) -> Option<(Seq<Seq<char>>, Seq<char>)> {
    if s.len() < 2 || s[0] != '[' {
        None
    } else if s[1] == ']' {
        Some((Seq::empty(), s.skip(2)))
    } else {
        json_read_items(s.skip(1))
    }
}

/// What is written for a character is read as it.
proof fn lemma_json_char_reads(c: char, rest: Seq<char>, text: Seq<char>, behind: Seq<char>)
    requires
        json_read_text(rest) == Some((text, behind)),
    ensures
        json_read_text(json_char(c) + rest) == Some((seq![c] + text, behind)),
{
    let head = json_char(c);
    let all = head + rest;
    assert(all.skip(head.len() as int) =~= rest);
    if c == '"' || c == '\\' {
        assert(all[0] == '\\' && all[1] == c);
    } else if c == '\u{8}' || c == '\t' || c == '\n' || c == '\u{c}' || c == '\r' {
        assert(all[0] == '\\' && all[1] == head[1]);
    } else if (c as u32) < 32 {
        let byte = c as u8;
        let pair = crate::x509::hex_pair(byte, false);
        assert(head.len() == 6);
        assert(all[0] == '\\' && all[1] == 'u' && all[2] == '0' && all[3] == '0');
        assert(all[4] == pair[0] && all[5] == pair[1]);
        crate::x509::lemma_hex_digit_decodes(byte as int / 16);
        crate::x509::lemma_hex_digit_decodes(byte as int % 16);
        vstd::utf8::char_u32_cast(c, c as u32);
        assert(json_escape_at(all) == Some((c, 6int)));
    } else {
        assert(all[0] == c);
    }
}

/// What is written for a text, from the front.
proof fn lemma_json_chars_front(text: Seq<char>)
    requires
        text.len() > 0,
    ensures
        json_chars(text) == json_char(text[0]) + json_chars(text.skip(1)),
    decreases text.len(),
{
    if text.len() == 1 {
        assert(text.drop_last() =~= Seq::empty());
        assert(text.skip(1) =~= Seq::empty());
        assert(json_chars(text.drop_last()) =~= Seq::empty());
        assert(json_chars(text) =~= json_char(text[0]) + json_chars(text.skip(1)));
    } else {
        lemma_json_chars_front(text.drop_last());
        assert(text.drop_last().skip(1) =~= text.skip(1).drop_last());
        assert(text.skip(1).last() == text.last());
        assert(json_chars(text) =~= json_char(text[0]) + json_chars(text.skip(1)));
    }
}

/// A JSON string reads back as the text it was written for, whatever that holds and whatever
/// stands behind it.
pub proof fn lemma_json_text_reads_back(text: Seq<char>, rest: Seq<char>)
    ensures
        json_quoted(text).len() > 0,
        json_quoted(text)[0] == '"',
        json_read_text((json_quoted(text) + rest).skip(1)) == Some((text, rest)),
    decreases text.len(),
{
    let quote = seq!['"'];
    let after = json_chars(text) + quote + rest;
    assert((json_quoted(text) + rest).skip(1) =~= after);
    if text.len() == 0 {
        assert(after =~= quote + rest);
        assert(after.skip(1) =~= rest);
        assert(text =~= Seq::empty());
    } else {
        let tail = text.skip(1);
        lemma_json_chars_front(text);
        lemma_json_text_reads_back(tail, rest);
        assert((json_quoted(tail) + rest).skip(1) =~= json_chars(tail) + quote + rest);
        lemma_json_char_reads(text[0], json_chars(tail) + quote + rest, tail, rest);
        assert(after =~= json_char(text[0]) + (json_chars(tail) + quote + rest));
        assert(seq![text[0]] + tail =~= text);
    }
}

/// A JSON array of strings reads back as the texts it was written for, no more and no fewer.
pub proof fn lemma_json_list_reads_back(texts: Seq<Seq<char>>, rest: Seq<char>)
    ensures
        json_read_list(json_listed(texts.map_values(|t: Seq<char>| json_quoted(t))) + rest)
            == Some((texts, rest)),
    decreases texts.len(),
{
    let quoted = texts.map_values(|t: Seq<char>| json_quoted(t));
    let all = json_listed(quoted) + rest;
    assert(all[0] == '[');
    if texts.len() == 0 {
        assert(all[1] == ']');
        assert(all.skip(2) =~= rest);
        assert(texts =~= Seq::empty());
    } else {
        lemma_json_items_read_back(texts, rest);
        let inner = crate::text::joined(quoted, ","@);
        assert(all.skip(1) =~= inner + seq![']'] + rest);
        lemma_json_items_begin(texts);
        assert(all[1] == '"');
    }
}

/// The items of an array begin with a quote.
proof fn lemma_json_items_begin(texts: Seq<Seq<char>>)
    requires
        texts.len() > 0,
    ensures
        ({
            let inner = crate::text::joined(
                texts.map_values(|t: Seq<char>| json_quoted(t)),
                ","@,
            );
            inner.len() > 0 && inner[0] == '"'
        }),
{
    let quoted = texts.map_values(|t: Seq<char>| json_quoted(t));
    if texts.len() > 1 {
        crate::text::lemma_joined_front(quoted, ","@);
    }
    assert(quoted[0] == json_quoted(texts[0]));
}

/// The items of an array read back as the texts they were written for.
proof fn lemma_json_items_read_back(texts: Seq<Seq<char>>, rest: Seq<char>)
    requires
        texts.len() > 0,
    ensures
        json_read_items(
            crate::text::joined(texts.map_values(|t: Seq<char>| json_quoted(t)), ","@) + seq![
                ']',
            ] + rest,
        ) == Some((texts, rest)),
    decreases texts.len(),
{
    reveal_strlit(",");
    let quoted = texts.map_values(|t: Seq<char>| json_quoted(t));
    let first = texts[0];
    let inner = crate::text::joined(quoted, ","@);
    let all = inner + seq![']'] + rest;
    assert(quoted[0] == json_quoted(first));
    if texts.len() == 1 {
        let behind = seq![']'] + rest;
        assert(all =~= json_quoted(first) + behind);
        lemma_json_text_reads_back(first, behind);
        assert(behind.skip(1) =~= rest);
        assert(seq![first] =~= texts);
    } else {
        let tail = texts.skip(1);
        let tail_quoted = tail.map_values(|t: Seq<char>| json_quoted(t));
        assert(quoted.skip(1) =~= tail_quoted);
        crate::text::lemma_joined_front(quoted, ","@);
        let later = crate::text::joined(tail_quoted, ","@) + seq![']'] + rest;
        let behind = seq![','] + later;
        assert(","@ =~= seq![',']);
        assert(all =~= json_quoted(first) + behind);
        lemma_json_text_reads_back(first, behind);
        lemma_json_items_read_back(tail, rest);
        assert(behind.skip(1) =~= later);
        assert(seq![first] + tail =~= texts);
    }
}

/// A text without quotes, backslashes and control characters is written as it is.
pub proof fn lemma_json_plain(text: Seq<char>)
    requires
        forall|i: int|
            0 <= i < text.len() ==> (#[trigger] text[i]) as u32 >= 32 && text[i] != '"' && text[i]
                != '\\',
    ensures
        json_quoted(text) == seq!['"'] + text + seq!['"'],
    decreases text.len(),
{
    if text.len() == 0 {
        assert(json_chars(text) =~= text);
    } else {
        let init = text.drop_last();
        assert forall|i: int| 0 <= i < init.len() implies (#[trigger] init[i]) as u32 >= 32
            && init[i] != '"' && init[i] != '\\' by {
            assert(init[i] == text[i]);
        }
        lemma_json_plain(init);
        assert(json_quoted(init).subrange(1, json_quoted(init).len() - 1) =~= json_chars(init));
        assert(json_quoted(init).subrange(1, json_quoted(init).len() - 1) =~= init);
        let last = text.last();
        assert(text[text.len() - 1] == last);
        assert(json_char(last) =~= seq![last]);
        assert(json_chars(text) =~= text);
    }
}

/// Base64 decodes back: the bytes of each group of three follow from its four characters, and
/// there are as many bytes as the padding says.
pub proof fn lemma_base64_decodes_back(bytes: Seq<u8>, k: int)
    requires
        0 <= k,
        3 * k < bytes.len(),
    ensures
        base64_text(bytes).len() == 4 * ((bytes.len() + 2) / 3),
        base64_text(bytes)[4 * k] == base64_digit(six_bits(bytes, 4 * k)),
        base64_text(bytes)[4 * k + 1] == base64_digit(six_bits(bytes, 4 * k + 1)),
        3 * k + 1 < bytes.len() ==> base64_text(bytes)[4 * k + 2] == base64_digit(
            six_bits(bytes, 4 * k + 2),
        ),
        3 * k + 1 >= bytes.len() ==> base64_text(bytes)[4 * k + 2] == '=',
        3 * k + 2 < bytes.len() ==> base64_text(bytes)[4 * k + 3] == base64_digit(
            six_bits(bytes, 4 * k + 3),
        ),
        3 * k + 2 >= bytes.len() ==> base64_text(bytes)[4 * k + 3] == '=',
        bytes[3 * k] == six_bits(bytes, 4 * k) * 4 + six_bits(bytes, 4 * k + 1) / 16,
        3 * k + 1 < bytes.len() ==> bytes[3 * k + 1] == (six_bits(bytes, 4 * k + 1) % 16) * 16
            + six_bits(bytes, 4 * k + 2) / 4,
        3 * k + 2 < bytes.len() ==> bytes[3 * k + 2] == (six_bits(bytes, 4 * k + 2) % 4) * 64
            + six_bits(bytes, 4 * k + 3),
{
    lemma_bytes_from_six_bits(bytes, k);
}

} // verus!
