//! Percent-encoded names and values.
use crate::text::{
    char_lists, chars_of, cut, cut_chars, eq_chars, eq_text, joined_by,
    law_halves_are_cut_apart, law_joined_texts_are_split_again,
    law_texts_are_cut_at_the_first_separator, lower_all, lower_spec, split_chars, split_spec,
    string_from, trim_end_spec, trim_spec, trim_start_spec, trimmed, white_spec,
};
use vstd::prelude::*;
use vstd::string::*;
use vstd::utf8::{
    decode_utf8, encode_utf8, encode_utf8_decode_utf8, encode_utf8_valid_utf8, is_ascii_chars,
    is_ascii_chars_encode_utf8, valid_utf8,
};

verus! {

/// `String::from_utf8` accepts exactly the valid UTF-8 byte strings, and the
/// text it returns is encoded by those bytes.
#[verifier::external_body]
pub(crate) fn utf8_text(bytes: Vec<u8>) -> (text: Option<String>)
    ensures
        match text {
            Some(text) => valid_utf8(bytes@) && encode_utf8(text@) == bytes@,
            None => !valid_utf8(bytes@),
        },
{
    String::from_utf8(bytes).ok()
}

/// The text that bytes encode, if they are valid.
pub open spec fn text_of(bytes: Seq<u8>) -> Option<Seq<char>> {
    if valid_utf8(bytes) {
        Some(decode_utf8(bytes))
    } else {
        None
    }
}

/// Reads bytes as text.
pub fn text_from_bytes(bytes: Vec<u8>) -> (text: Option<String>)
    ensures
        match text {
            Some(text) => text_of(bytes@) == Some(text@),
            None => text_of(bytes@) is None,
        },
{
    match utf8_text(bytes) {
        Some(text) => {
            proof {
                vstd::utf8::encode_utf8_decode_utf8(text@);
            }
            Some(text)
        },
        None => None,
    }
}

/// The value of a hexadecimal digit.
pub open spec fn hex_value_spec(byte: u8) -> Option<u8> {
    if 0x30 <= byte <= 0x39 {
        Some((byte - 0x30) as u8)
    } else if 0x61 <= byte <= 0x66 {
        Some((byte - 0x61 + 10) as u8)
    } else if 0x41 <= byte <= 0x46 {
        Some((byte - 0x41 + 10) as u8)
    } else {
        None
    }
}

fn hex_value(byte: u8) -> (value: Option<u8>)
    ensures
        value == hex_value_spec(byte),
        value matches Some(digit) ==> digit < 16,
{
    if 0x30 <= byte && byte <= 0x39 {
        Some(byte - 0x30)
    } else if 0x61 <= byte && byte <= 0x66 {
        Some(byte - 0x61 + 10)
    } else if 0x41 <= byte && byte <= 0x46 {
        Some(byte - 0x41 + 10)
    } else {
        None
    }
}

/// The bytes behind a percent-encoded byte string: `%` introduces two
/// hexadecimal digits, and `+` may stand for a space. Nothing comes of an
/// incomplete escape.
pub open spec fn unescaped(bytes: Seq<u8>, plus_as_space: bool) -> Option<Seq<u8>>
    decreases bytes.len(),
{
    if bytes.len() == 0 {
        Some(Seq::empty())
    } else if bytes[0] == 0x25 {
        if bytes.len() < 3 {
            None
        } else {
            match (
                hex_value_spec(bytes[1]),
                hex_value_spec(bytes[2]),
                unescaped(bytes.skip(3), plus_as_space),
            ) {
                (Some(high), Some(low), Some(rest)) => Some(
                    seq![(high * 16 + low) as u8] + rest,
                ),
                _ => None,
            }
        }
    } else {
        match unescaped(bytes.drop_first(), plus_as_space) {
            Some(rest) => Some(
                seq![if bytes[0] == 0x2b && plus_as_space { 0x20u8 } else { bytes[0] }] + rest,
            ),
            None => None,
        }
    }
}

/// The text behind a percent-encoded text.
pub open spec fn decoded(value: Seq<char>, plus_as_space: bool) -> Option<Seq<char>> {
    match unescaped(encode_utf8(value), plus_as_space) {
        Some(bytes) => text_of(bytes),
        None => None,
    }
}

/// Decodes a percent-encoded component.
pub fn decode_url_component(value: &str, plus_as_space: bool) -> (text: Option<String>)
    ensures
        match text {
            Some(text) => decoded(value@, plus_as_space) == Some(text@),
            None => decoded(value@, plus_as_space) is None,
        },
{
    let bytes = value.as_bytes();
    let ghost all = encode_utf8(value@);
    let mut output: Vec<u8> = Vec::new();
    let mut index: usize = 0;
    proof {
        assert(all.skip(0) =~= all);
        if let Some(rest) = unescaped(all, plus_as_space) {
            assert(output@ + rest =~= rest);
        }
    }
    while index < bytes.len()
        invariant
            bytes@ == all,
            all == encode_utf8(value@),
            index <= all.len(),
            match unescaped(all.skip(index as int), plus_as_space) {
                Some(rest) => unescaped(all, plus_as_space) == Some(output@ + rest),
                None => unescaped(all, plus_as_space) is None,
            },
        decreases all.len() - index,
    {
        let byte: u8 = bytes[index];
        let ghost here = all.skip(index as int);
        let ghost before = output@;
        proof {
            assert(here[0] == byte);
        }
        if byte == 0x25 {
            if bytes.len() - index < 3 {
                return None;
            }
            let high = hex_value(bytes[index + 1]);
            let low = hex_value(bytes[index + 2]);
            proof {
                assert(here[1] == all[index + 1]);
                assert(here[2] == all[index + 2]);
                assert(here.skip(3) =~= all.skip(index + 3));
            }
            match (high, low) {
                (Some(high), Some(low)) => {
                    output.push(high * 16 + low);
                    proof {
                        if let Some(rest) = unescaped(all.skip(index + 3), plus_as_space) {
                            assert(before + (seq![(high * 16 + low) as u8] + rest) =~= output@
                                + rest);
                        }
                    }
                    index += 3;
                },
                _ => {
                    return None;
                },
            }
        } else {
            let plain: u8 = if byte == 0x2b && plus_as_space {
                0x20
            } else {
                byte
            };
            output.push(plain);
            proof {
                assert(here.drop_first() =~= all.skip(index + 1));
                if let Some(rest) = unescaped(all.skip(index + 1), plus_as_space) {
                    assert(before + (seq![plain] + rest) =~= output@ + rest);
                }
            }
            index += 1;
        }
    }
    proof {
        assert(all.skip(index as int) =~= Seq::empty());
        assert(output@ + Seq::<u8>::empty() =~= output@);
    }
    text_from_bytes(output)
}

// ---------------------------------------------------------------------------
// Pairs
// ---------------------------------------------------------------------------

/// The name and value of a pair; a pair without `=` has an empty value.
pub open spec fn pair_of(pair: Seq<char>) -> (Seq<char>, Seq<char>) {
    match cut(pair, '=') {
        Some(parts) => parts,
        None => (pair, Seq::empty()),
    }
}

/// The decoded value of the pair that is the `index`-th with a decoded name.
/// Empty pairs do not count, and a name that does not decode ends the search.
pub open spec fn nth_value(pairs: Seq<Seq<char>>, name: Seq<char>, index: nat) -> Option<Seq<char>>
    decreases pairs.len(),
{
    if pairs.len() == 0 {
        None
    } else {
        let pair = pairs[0];
        let rest = pairs.drop_first();
        if pair.len() == 0 {
            nth_value(rest, name, index)
        } else {
            match decoded(pair_of(pair).0, true) {
                None => None,
                Some(found) => if found != name {
                    nth_value(rest, name, index)
                } else if index == 0 {
                    decoded(pair_of(pair).1, true)
                } else {
                    nth_value(rest, name, (index - 1) as nat)
                },
            }
        }
    }
}

/// The query of a request target: what follows the first `?`.
pub open spec fn query_of(target: Seq<char>) -> Option<Seq<char>> {
    match cut(target, '?') {
        Some((_, query)) => Some(query),
        None => None,
    }
}

/// The path of a request target: what precedes the first `?`.
pub open spec fn path_of(target: Seq<char>) -> Seq<char> {
    match cut(target, '?') {
        Some((path, _)) => path,
        None => target,
    }
}

/// The value of a query parameter.
pub open spec fn query_value_spec(target: Seq<char>, name: Seq<char>, index: nat) -> Option<
    Seq<char>,
> {
    match query_of(target) {
        Some(query) => nth_value(split_spec(query, '&'), name, index),
        None => None,
    }
}

fn pair_value(pairs: &[char], name: &str, index: usize) -> (value: Option<String>)
    ensures
        match value {
            Some(text) => nth_value(split_spec(pairs@, '&'), name@, index as nat) == Some(text@),
            None => nth_value(split_spec(pairs@, '&'), name@, index as nat) is None,
        },
{
    let pieces = split_chars(pairs, '&');
    let ghost views = char_lists(pieces@);
    let mut left: usize = index;
    let mut at: usize = 0;
    assert(views.skip(0) =~= views);
    while at < pieces.len()
        invariant
            at <= pieces@.len(),
            views == char_lists(pieces@),
            views == split_spec(pairs@, '&'),
            nth_value(views, name@, index as nat) == nth_value(
                views.skip(at as int),
                name@,
                left as nat,
            ),
        decreases pieces@.len() - at,
    {
        let pair = pieces[at].as_slice();
        proof {
            assert(views.skip(at as int)[0] == pair@);
            assert(views.skip(at as int).drop_first() =~= views.skip(at + 1));
        }
        if pair.len() > 0 {
            let empty: Vec<char> = Vec::new();
            assert(empty@ =~= Seq::<char>::empty());
            let (raw_name, raw_value) = match cut_chars(pair, '=') {
                Some(parts) => parts,
                None => (pair, empty.as_slice()),
            };
            match decode_url_component(string_from(raw_name).as_str(), true) {
                None => {
                    return None;
                },
                Some(found) => {
                    if eq_text(found.as_str(), name) {
                        if left == 0 {
                            return decode_url_component(string_from(raw_value).as_str(), true);
                        }
                        left -= 1;
                    }
                },
            }
        }
        at += 1;
    }
    None
}

/// Reads the `index`-th value of a query parameter from a request target.
pub fn query_value(target: &str, name: &str, index: usize) -> (value: Option<String>)
    ensures
        match value {
            Some(text) => query_value_spec(target@, name@, index as nat) == Some(text@),
            None => query_value_spec(target@, name@, index as nat) is None,
        },
{
    let characters = chars_of(target);
    match cut_chars(characters.as_slice(), '?') {
        Some((_, query)) => pair_value(query, name, index),
        None => None,
    }
}

/// The value of a form field in a request body.
pub open spec fn form_value_spec(body: Seq<u8>, name: Seq<char>, index: nat) -> Option<Seq<char>> {
    match text_of(body) {
        Some(text) => nth_value(split_spec(text, '&'), name, index),
        None => None,
    }
}

/// Reads the `index`-th value of a form field from a request body.
pub fn form_value(body: &[u8], name: &str, index: usize) -> (value: Option<String>)
    ensures
        match value {
            Some(text) => form_value_spec(body@, name@, index as nat) == Some(text@),
            None => form_value_spec(body@, name@, index as nat) is None,
        },
{
    match text_from_bytes(vstd::slice::slice_to_vec(body)) {
        Some(text) => {
            let characters = chars_of(text.as_str());
            pair_value(characters.as_slice(), name, index)
        },
        None => None,
    }
}

// ---------------------------------------------------------------------------
// Cookies
// ---------------------------------------------------------------------------

/// The value of the `index`-th cookie with a name.
pub open spec fn nth_cookie(cookies: Seq<Seq<char>>, name: Seq<char>, index: nat) -> Option<
    Seq<char>,
>
    decreases cookies.len(),
{
    if cookies.len() == 0 {
        None
    } else {
        let pair = pair_of(trim_spec(cookies[0]));
        let rest = cookies.drop_first();
        if pair.0 != name {
            nth_cookie(rest, name, index)
        } else if index == 0 {
            Some(pair.1)
        } else {
            nth_cookie(rest, name, (index - 1) as nat)
        }
    }
}

/// The cookies of a list of cookie headers, in order.
pub open spec fn cookies_of(headers: Seq<Seq<char>>) -> Seq<Seq<char>>
    decreases headers.len(),
{
    if headers.len() == 0 {
        Seq::empty()
    } else {
        split_spec(headers[0], ';') + cookies_of(headers.drop_first())
    }
}

fn push_cookies(cookies: &mut Vec<Vec<char>>, header: &str)
    ensures
        char_lists(final(cookies)@) == char_lists(old(cookies)@) + split_spec(header@, ';'),
{
    let characters = chars_of(header);
    let mut pieces = split_chars(characters.as_slice(), ';');
    cookies.append(&mut pieces);
    assert(char_lists(cookies@) =~= char_lists(old(cookies)@) + split_spec(header@, ';'));
}

/// Reads the `index`-th value of a cookie from the cookie headers of a
/// request.
pub fn cookie_value(headers: &Vec<String>, name: &str, index: usize) -> (value: Option<String>)
    ensures
        match value {
            Some(text) => nth_cookie(
                cookies_of(crate::operation::texts(headers@)),
                name@,
                index as nat,
            ) == Some(text@),
            None => nth_cookie(
                cookies_of(crate::operation::texts(headers@)),
                name@,
                index as nat,
            ) is None,
        },
{
    let ghost views = crate::operation::texts(headers@);
    let mut cookies: Vec<Vec<char>> = Vec::new();
    let mut header: usize = 0;
    proof {
        assert(views.skip(0) =~= views);
        assert(char_lists(cookies@) + cookies_of(views) =~= cookies_of(views));
    }
    while header < headers.len()
        invariant
            header <= headers@.len(),
            views == crate::operation::texts(headers@),
            cookies_of(views) == char_lists(cookies@) + cookies_of(views.skip(header as int)),
        decreases headers@.len() - header,
    {
        let ghost before = char_lists(cookies@);
        proof {
            assert(views.skip(header as int)[0] == headers@[header as int]@);
            assert(views.skip(header as int).drop_first() =~= views.skip(header + 1));
        }
        push_cookies(&mut cookies, headers[header].as_str());
        proof {
            let pieces = split_spec(headers@[header as int]@, ';');
            assert(before + (pieces + cookies_of(views.skip(header + 1))) =~= (before + pieces)
                + cookies_of(views.skip(header + 1)));
        }
        header += 1;
    }
    let ghost all = char_lists(cookies@);
    proof {
        assert(all + cookies_of(views.skip(header as int)) =~= all);
        assert(all.skip(0) =~= all);
    }
    let wanted = chars_of(name);
    let mut left: usize = index;
    let mut at: usize = 0;
    while at < cookies.len()
        invariant
            at <= cookies@.len(),
            all == char_lists(cookies@),
            all == cookies_of(crate::operation::texts(headers@)),
            wanted@ == name@,
            nth_cookie(all, name@, index as nat) == nth_cookie(
                all.skip(at as int),
                name@,
                left as nat,
            ),
        decreases cookies@.len() - at,
    {
        proof {
            assert(all.skip(at as int)[0] == cookies@[at as int]@);
            assert(all.skip(at as int).drop_first() =~= all.skip(at + 1));
        }
        let cookie = trimmed(cookies[at].as_slice());
        let empty: Vec<char> = Vec::new();
        assert(empty@ =~= Seq::<char>::empty());
        let (cookie_name, cookie_text) = match cut_chars(cookie.as_slice(), '=') {
            Some(parts) => parts,
            None => (cookie.as_slice(), empty.as_slice()),
        };
        if eq_chars(cookie_name, wanted.as_slice()) {
            if left == 0 {
                return Some(string_from(cookie_text));
            }
            left -= 1;
        }
        at += 1;
    }
    None
}

// ---------------------------------------------------------------------------
// Request targets and header names
// ---------------------------------------------------------------------------

/// Pairs whose names and values all decode.
pub open spec fn pairs_decode(pairs: Seq<Seq<char>>) -> bool {
    forall|i: int|
        0 <= i < pairs.len() ==> decoded(pair_of(#[trigger] pairs[i]).0, true) is Some && decoded(
            pair_of(pairs[i]).1,
            true,
        ) is Some
}

/// A request target whose path and query decode.
pub open spec fn target_decodes(target: Seq<char>) -> bool {
    &&& decoded(path_of(target), false) is Some
    &&& query_of(target) matches Some(query) ==> pairs_decode(split_spec(query, '&'))
}

/// Checks the percent-encoding of a request target.
pub fn validate_url_encoding(target: &str) -> (valid: bool)
    ensures
        valid == target_decodes(target@),
{
    let characters = chars_of(target);
    let query = match cut_chars(characters.as_slice(), '?') {
        None => {
            return decode_url_component(target, false).is_some();
        },
        Some((path, query)) => {
            if decode_url_component(string_from(path).as_str(), false).is_none() {
                return false;
            }
            query
        },
    };
    let pieces = split_chars(query, '&');
    let ghost views = char_lists(pieces@);
    let mut at: usize = 0;
    while at < pieces.len()
        invariant
            at <= pieces@.len(),
            views == char_lists(pieces@),
            views == split_spec(query@, '&'),
            query_of(target@) == Some(query@),
            forall|i: int|
                0 <= i < at ==> decoded(pair_of(#[trigger] views[i]).0, true) is Some && decoded(
                    pair_of(views[i]).1,
                    true,
                ) is Some,
        decreases pieces@.len() - at,
    {
        let pair = pieces[at].as_slice();
        let empty: Vec<char> = Vec::new();
        assert(empty@ =~= Seq::<char>::empty());
        assert(views[at as int] == pair@);
        let (raw_name, raw_value) = match cut_chars(pair, '=') {
            Some(parts) => parts,
            None => (pair, empty.as_slice()),
        };
        if decode_url_component(string_from(raw_name).as_str(), true).is_none() {
            return false;
        }
        if decode_url_component(string_from(raw_value).as_str(), true).is_none() {
            return false;
        }
        at += 1;
    }
    true
}

/// The header name that a Rust argument name stands for: lower case, with `-`
/// for `_`.
pub open spec fn header_of_argument(argument: Seq<char>) -> Seq<char> {
    argument.map_values(
        |character: char|
            if character == '_' {
                '-'
            } else {
                lower_spec(character)
            },
    )
}

/// Reports whether a normalized header name is the one an argument names.
pub fn header_name_matches(header: &str, argument: &str) -> (matches: bool)
    ensures
        matches == (header@ == header_of_argument(argument@)),
{
    let left = chars_of(header);
    let right = chars_of(argument);
    let ghost expected = header_of_argument(argument@);
    if left.len() != right.len() {
        assert(expected.len() == right@.len());
        return false;
    }
    let mut index: usize = 0;
    while index < left.len()
        invariant
            index <= left@.len(),
            left@ == header@,
            right@ == argument@,
            left@.len() == right@.len(),
            expected == header_of_argument(argument@),
            forall|i: int| 0 <= i < index ==> header@[i] == expected[i],
        decreases left@.len() - index,
    {
        let character = if right[index] == '_' {
            '-'
        } else {
            crate::text::lower(right[index])
        };
        if left[index] != character {
            assert(header@[index as int] != expected[index as int]);
            return false;
        }
        index += 1;
    }
    assert(header@ =~= expected);
    true
}

// ---------------------------------------------------------------------------
// What was written is read back
// ---------------------------------------------------------------------------

/// A hexadecimal digit, in capital or small letters.
pub open spec fn hex_digit_of(digit: u8, small: bool) -> char {
    if digit < 10 {
        ('0' as u32 + digit) as char
    } else if small {
        ('a' as u32 + digit - 10) as char
    } else {
        ('A' as u32 + digit - 10) as char
    }
}

/// One byte as an escape.
pub open spec fn escape_of(byte: u8, small: bool) -> Seq<char> {
    seq!['%', hex_digit_of(byte / 16, small), hex_digit_of(byte % 16, small)]
}

/// Bytes with every byte as an escape.
pub open spec fn escapes_of(bytes: Seq<u8>, small: bool) -> Seq<char>
    decreases bytes.len(),
{
    if bytes.len() == 0 {
        Seq::empty()
    } else {
        escape_of(bytes[0], small) + escapes_of(bytes.drop_first(), small)
    }
}

/// A text with every byte of its encoding as an escape.
pub open spec fn escaped_text(text: Seq<char>, small: bool) -> Seq<char> {
    escapes_of(encode_utf8(text), small)
}

proof fn lemma_hex_digit(digit: u8, small: bool)
    requires
        digit < 16,
    ensures
        hex_value_spec(hex_digit_of(digit, small) as u8) == Some(digit),
        '0' <= hex_digit_of(digit, small) <= 'f',
        hex_digit_of(digit, small) != '=',
        hex_digit_of(digit, small) != '?',
        hex_digit_of(digit, small) != ';',
{
}

proof fn lemma_escapes(bytes: Seq<u8>, small: bool)
    ensures
        is_ascii_chars(escapes_of(bytes, small)),
        forall|i: int|
            0 <= i < escapes_of(bytes, small).len() ==> {
                let c = #[trigger] escapes_of(bytes, small)[i];
                c != '&' && c != '=' && c != '?' && c != '+' && c != ';' && c != '/'
            },
    decreases bytes.len(),
{
    let all = escapes_of(bytes, small);
    if bytes.len() > 0 {
        let rest = escapes_of(bytes.drop_first(), small);
        lemma_escapes(bytes.drop_first(), small);
        lemma_hex_digit(bytes[0] / 16, small);
        lemma_hex_digit(bytes[0] % 16, small);
        assert forall|i: int| 0 <= i < all.len() implies '\0' <= #[trigger] all[i] <= '\u{7f}' && all[i]
            != '&' && all[i] != '=' && all[i] != '?' && all[i] != '+' && all[i] != ';' && all[i]
            != '/' by {
            if i >= 3 {
                assert(all[i] == rest[i - 3]);
            } else {
                assert(all[i] == escape_of(bytes[0], small)[i]);
            }
        }
    }
}

proof fn lemma_unescaped_escapes(bytes: Seq<u8>, small: bool, plus_as_space: bool)
    ensures
        unescaped(encode_utf8(escapes_of(bytes, small)), plus_as_space) == Some(bytes),
    decreases bytes.len(),
{
    let all = escapes_of(bytes, small);
    let raw = encode_utf8(all);
    lemma_escapes(bytes, small);
    is_ascii_chars_encode_utf8(all);
    if bytes.len() == 0 {
        assert(bytes =~= Seq::<u8>::empty());
        assert(raw =~= Seq::<u8>::empty());
    } else {
        let rest = escapes_of(bytes.drop_first(), small);
        lemma_unescaped_escapes(bytes.drop_first(), small, plus_as_space);
        lemma_escapes(bytes.drop_first(), small);
        is_ascii_chars_encode_utf8(rest);
        lemma_hex_digit(bytes[0] / 16, small);
        lemma_hex_digit(bytes[0] % 16, small);
        assert(all[0] == '%');
        assert(all[1] == hex_digit_of(bytes[0] / 16, small));
        assert(all[2] == hex_digit_of(bytes[0] % 16, small));
        assert(raw[0] == all[0] as u8);
        assert(raw[1] == all[1] as u8);
        assert(raw[2] == all[2] as u8);
        assert forall|i: int| 0 <= i < rest.len() implies #[trigger] raw.skip(3)[i] == encode_utf8(
            rest,
        )[i] by {
            assert(all[i + 3] == rest[i]);
            assert(raw[i + 3] == all[i + 3] as u8);
        }
        assert(raw.skip(3) =~= encode_utf8(rest));
        assert(seq![bytes[0]] + bytes.drop_first() =~= bytes);
        assert((bytes[0] / 16) * 16 + bytes[0] % 16 == bytes[0]);
    }
}

/// Every text survives being written in escapes, in capital or small digits.
pub proof fn law_escaped_texts_are_read_back(text: Seq<char>, small: bool, plus_as_space: bool)
    ensures
        decoded(escaped_text(text, small), plus_as_space) == Some(text),
{
    lemma_unescaped_escapes(encode_utf8(text), small, plus_as_space);
    encode_utf8_valid_utf8(text);
    encode_utf8_decode_utf8(text);
}

/// A text of ASCII characters without escapes is read as it stands, but for its
/// `+`, which stand for blanks in queries and forms and for themselves in paths.
pub proof fn law_plain_texts_are_read_as_they_stand(text: Seq<char>, plus_as_space: bool)
    requires
        is_ascii_chars(text),
        !text.contains('%'),
    ensures
        decoded(text, plus_as_space) == Some(
            text.map_values(|c: char| if c == '+' && plus_as_space { ' ' } else { c }),
        ),
{
    let read = text.map_values(|c: char| if c == '+' && plus_as_space { ' ' } else { c });
    lemma_plain_bytes(text, plus_as_space);
    assert(is_ascii_chars(read)) by {
        assert forall|i: int| 0 <= i < read.len() implies '\0' <= #[trigger] read[i] <= '\u{7f}' by {
            assert('\0' <= text[i] <= '\u{7f}');
        }
    }
    encode_utf8_valid_utf8(read);
    encode_utf8_decode_utf8(read);
}

proof fn lemma_plain_bytes(text: Seq<char>, plus_as_space: bool)
    requires
        is_ascii_chars(text),
        !text.contains('%'),
    ensures
        unescaped(encode_utf8(text), plus_as_space) == Some(
            encode_utf8(text.map_values(|c: char| if c == '+' && plus_as_space { ' ' } else { c })),
        ),
    decreases text.len(),
{
    let plain = |c: char| if c == '+' && plus_as_space { ' ' } else { c };
    let read = text.map_values(plain);
    is_ascii_chars_encode_utf8(text);
    if text.len() == 0 {
        assert(encode_utf8(text) =~= Seq::<u8>::empty());
        assert(encode_utf8(read) =~= Seq::<u8>::empty());
    } else {
        let rest = text.drop_first();
        assert(text[0] != '%') by {
            assert(text.contains(text[0]));
        }
        assert(!rest.contains('%')) by {
            if rest.contains('%') {
                let i = choose|i: int| 0 <= i < rest.len() && rest[i] == '%';
                assert(text[i + 1] == '%');
            }
        }
        assert(is_ascii_chars(rest)) by {
            assert forall|i: int| 0 <= i < rest.len() implies '\0' <= #[trigger] rest[i]
                <= '\u{7f}' by {
                assert('\0' <= text[i + 1] <= '\u{7f}');
            }
        }
        lemma_plain_bytes(rest, plus_as_space);
        is_ascii_chars_encode_utf8(rest);
        assert forall|i: int| 0 <= i < read.len() implies '\0' <= #[trigger] read[i] <= '\u{7f}' by {
            assert('\0' <= text[i] <= '\u{7f}');
        }
        is_ascii_chars_encode_utf8(read);
        let after = rest.map_values(plain);
        assert(read.drop_first() =~= after);
        assert forall|i: int| 0 <= i < after.len() implies '\0' <= #[trigger] after[i]
            <= '\u{7f}' by {
            assert(read[i + 1] == after[i]);
        }
        is_ascii_chars_encode_utf8(after);
        let raw = encode_utf8(text);
        assert(raw[0] == text[0] as u8);
        assert forall|i: int| 0 <= i < rest.len() implies #[trigger] raw.drop_first()[i]
            == encode_utf8(rest)[i] by {
            assert(text[i + 1] == rest[i]);
            assert(raw[i + 1] == text[i + 1] as u8);
        }
        assert(raw.drop_first() =~= encode_utf8(rest));
        let expected = encode_utf8(read);
        assert(expected[0] == read[0] as u8);
        assert forall|i: int| 0 <= i < after.len() implies #[trigger] expected[i + 1]
            == encode_utf8(after)[i] by {
            assert(read[i + 1] == after[i]);
            assert(expected[i + 1] == read[i + 1] as u8);
        }
        assert(seq![read[0] as u8] + encode_utf8(after) =~= expected);
    }
}

/// A broken escape cannot be read: one that is cut short, or whose digits are
/// none.
pub proof fn law_broken_escapes_are_refused(rest: Seq<u8>, plus_as_space: bool)
    ensures
        rest.len() < 2 ==> unescaped(seq![0x25u8] + rest, plus_as_space) is None,
        rest.len() >= 2 && (hex_value_spec(rest[0]) is None || hex_value_spec(rest[1]) is None)
            ==> unescaped(seq![0x25u8] + rest, plus_as_space) is None,
        hex_value_spec('g' as u8) is None && hex_value_spec('G' as u8) is None && hex_value_spec(
            '%' as u8,
        ) is None,
{
    let all = seq![0x25u8] + rest;
    assert(all[0] == 0x25u8);
    if rest.len() >= 2 {
        assert(all[1] == rest[0]);
        assert(all[2] == rest[1]);
    }
}

/// The values given under a name, in order.
pub open spec fn values_under(pairs: Seq<(Seq<char>, Seq<char>)>, name: Seq<char>) -> Seq<Seq<char>>
    decreases pairs.len(),
{
    if pairs.len() == 0 {
        Seq::empty()
    } else if pairs[0].0 == name {
        seq![pairs[0].1] + values_under(pairs.drop_first(), name)
    } else {
        values_under(pairs.drop_first(), name)
    }
}

/// Names and values in escapes, as they stand in a query or a form.
pub open spec fn written_pairs(pairs: Seq<(Seq<char>, Seq<char>)>, small: bool) -> Seq<Seq<char>> {
    pairs.map_values(
        |pair: (Seq<char>, Seq<char>)|
            escaped_text(pair.0, small).push('=') + escaped_text(pair.1, small),
    )
}

proof fn lemma_written_pair(pair: (Seq<char>, Seq<char>), small: bool)
    ensures
        ({
            let written = escaped_text(pair.0, small).push('=') + escaped_text(pair.1, small);
            &&& pair_of(written) == (escaped_text(pair.0, small), escaped_text(pair.1, small))
            &&& !written.contains('&')
            &&& !written.contains('?')
        }),
{
    let name = escaped_text(pair.0, small);
    let value = escaped_text(pair.1, small);
    let written = name.push('=') + value;
    lemma_escapes(encode_utf8(pair.0), small);
    lemma_escapes(encode_utf8(pair.1), small);
    if name.contains('=') {
        let i = choose|i: int| 0 <= i < name.len() && name[i] == '=';
        assert(name[i] != '=');
    }
    law_halves_are_cut_apart(name, value, '=');
    assert forall|i: int| 0 <= i < written.len() implies #[trigger] written[i] != '&' && written[i]
        != '?' by {
        if i < name.len() {
            assert(written[i] == name[i]);
        } else if i > name.len() {
            assert(written[i] == value[i - name.len() - 1]);
        }
    }
}

proof fn lemma_written_values(
    pairs: Seq<(Seq<char>, Seq<char>)>,
    small: bool,
    name: Seq<char>,
    index: nat,
)
    ensures
        nth_value(written_pairs(pairs, small), name, index) == if index < values_under(
            pairs,
            name,
        ).len() {
            Some(values_under(pairs, name)[index as int])
        } else {
            None
        },
    decreases pairs.len(),
{
    let written = written_pairs(pairs, small);
    if pairs.len() > 0 {
        let rest = pairs.drop_first();
        assert(written.drop_first() =~= written_pairs(rest, small));
        lemma_written_pair(pairs[0], small);
        assert(written[0] == escaped_text(pairs[0].0, small).push('=') + escaped_text(
            pairs[0].1,
            small,
        ));
        law_escaped_texts_are_read_back(pairs[0].0, small, true);
        law_escaped_texts_are_read_back(pairs[0].1, small, true);
        lemma_written_values(rest, small, name, index);
        if index > 0 {
            lemma_written_values(rest, small, name, (index - 1) as nat);
        }
    }
}

/// A query gives back what was written into it: the value at an index under a
/// name is the one that was given there, whatever characters names and values
/// hold.
pub proof fn law_query_values_are_read_back(
    path: Seq<char>,
    pairs: Seq<(Seq<char>, Seq<char>)>,
    small: bool,
    name: Seq<char>,
    index: nat,
)
    requires
        !path.contains('?'),
        pairs.len() > 0,
    ensures
        ({
            let target = path.push('?') + joined_by(written_pairs(pairs, small), '&');
            let given = values_under(pairs, name);
            &&& path_of(target) == path
            &&& query_value_spec(target, name, index) == if index < given.len() {
                Some(given[index as int])
            } else {
                None
            }
        }),
{
    let query = joined_by(written_pairs(pairs, small), '&');
    law_halves_are_cut_apart(path, query, '?');
    lemma_pairs_split(pairs, small);
    lemma_written_values(pairs, small, name, index);
}

/// A form gives back what was written into it, just as a query does.
pub proof fn law_form_values_are_read_back(
    pairs: Seq<(Seq<char>, Seq<char>)>,
    small: bool,
    name: Seq<char>,
    index: nat,
)
    requires
        pairs.len() > 0,
    ensures
        ({
            let body = encode_utf8(joined_by(written_pairs(pairs, small), '&'));
            let given = values_under(pairs, name);
            form_value_spec(body, name, index) == if index < given.len() {
                Some(given[index as int])
            } else {
                None
            }
        }),
{
    let form = joined_by(written_pairs(pairs, small), '&');
    encode_utf8_valid_utf8(form);
    encode_utf8_decode_utf8(form);
    lemma_pairs_split(pairs, small);
    lemma_written_values(pairs, small, name, index);
}

proof fn lemma_pairs_split(pairs: Seq<(Seq<char>, Seq<char>)>, small: bool)
    requires
        pairs.len() > 0,
    ensures
        split_spec(joined_by(written_pairs(pairs, small), '&'), '&') == written_pairs(pairs, small),
{
    let written = written_pairs(pairs, small);
    assert forall|i: int, j: int| 0 <= i < written.len() && 0 <= j < written[i].len() implies (
    #[trigger] written[i][j]) != '&' by {
        lemma_written_pair(pairs[i], small);
        assert(written[i].contains(written[i][j]));
    }
    law_joined_texts_are_split_again(written, '&');
}

/// A target without a query has no query values, and is its own path.
pub proof fn law_targets_without_query_have_no_values(
    target: Seq<char>,
    name: Seq<char>,
    index: nat,
)
    requires
        !target.contains('?'),
    ensures
        path_of(target) == target,
        query_value_spec(target, name, index) is None,
{
    law_texts_are_cut_at_the_first_separator(target, '?');
    match cut(target, '?') {
        Some((head, tail)) => {
            assert((head.push('?') + tail)[head.len() as int] == '?');
        },
        None => {},
    }
}

/// A cookie as it stands in a header.
pub open spec fn written_cookie(cookie: (Seq<char>, Seq<char>)) -> Seq<char> {
    cookie.0.push('=') + cookie.1
}

/// A cookie that a header can carry: without separators, and without white space
/// at the ends of its name and its value.
pub open spec fn carried_cookie(cookie: (Seq<char>, Seq<char>)) -> bool {
    &&& cookie.0.len() > 0 && !white_spec(cookie.0[0])
    &&& cookie.1.len() > 0 && !white_spec(cookie.1.last())
    &&& !cookie.0.contains('=') && !cookie.0.contains(';') && !cookie.1.contains(';')
}

proof fn lemma_trim_kept(text: Seq<char>)
    requires
        text.len() > 0,
        !white_spec(text[0]),
        !white_spec(text.last()),
    ensures
        trim_spec(text) == text,
        trim_spec(seq![' '] + text) == text,
{
    let padded = seq![' '] + text;
    assert(padded[0] == ' ');
    assert(padded.drop_first() =~= text);
    assert(trim_start_spec(text) == text);
    assert(trim_start_spec(padded) == text);
    assert(trim_end_spec(text) == text);
}

/// Cookies are read back from a header that carries them one after the other,
/// with a blank behind each `;`: the value at an index under a name is the one
/// that was given there.
pub proof fn law_cookies_are_read_back(
    cookies: Seq<(Seq<char>, Seq<char>)>,
    name: Seq<char>,
    index: nat,
)
    requires
        cookies.len() > 0,
        forall|i: int| 0 <= i < cookies.len() ==> carried_cookie(#[trigger] cookies[i]),
    ensures
        ({
            let header = joined_by(spaced_cookies(cookies), ';');
            let given = values_under(cookies, name);
            nth_cookie(cookies_of(seq![header]), name, index) == if index < given.len() {
                Some(given[index as int])
            } else {
                None
            }
        }),
{
    let written = spaced_cookies(cookies);
    let header = joined_by(written, ';');
    assert forall|i: int, j: int| 0 <= i < written.len() && 0 <= j < written[i].len() implies (
    #[trigger] written[i][j]) != ';' by {
        let cookie = cookies[i];
        assert(carried_cookie(cookie));
        let text = written_cookie(cookie);
        let c = written[i][j];
        let k = if i == 0 { j } else { j - 1 };
        if k >= 0 {
            assert(c == text[k]);
            if k < cookie.0.len() {
                assert(text[k] == cookie.0[k]);
                assert(cookie.0.contains(text[k]));
            } else if k > cookie.0.len() {
                assert(text[k] == cookie.1[k - cookie.0.len() - 1]);
                assert(cookie.1.contains(text[k]));
            }
        }
    }
    law_joined_texts_are_split_again(written, ';');
    assert(seq![header].drop_first() =~= Seq::<Seq<char>>::empty());
    assert(cookies_of(seq![header].drop_first()) =~= Seq::<Seq<char>>::empty());
    assert(cookies_of(seq![header]) =~= written);
    lemma_written_cookies(written, cookies, name, index);
}

/// Cookies as they stand in a header, a blank before each but the first.
pub open spec fn spaced_cookies(cookies: Seq<(Seq<char>, Seq<char>)>) -> Seq<Seq<char>> {
    Seq::new(
        cookies.len(),
        |i: int|
            if i == 0 {
                written_cookie(cookies[i])
            } else {
                seq![' '] + written_cookie(cookies[i])
            },
    )
}

proof fn lemma_written_cookies(
    written: Seq<Seq<char>>,
    cookies: Seq<(Seq<char>, Seq<char>)>,
    name: Seq<char>,
    index: nat,
)
    requires
        written.len() == cookies.len(),
        forall|i: int| 0 <= i < cookies.len() ==> carried_cookie(#[trigger] cookies[i]),
        forall|i: int|
            0 <= i < written.len() ==> (#[trigger] written[i] == written_cookie(cookies[i])
                || written[i] == seq![' '] + written_cookie(cookies[i])),
    ensures
        nth_cookie(written, name, index) == if index < values_under(cookies, name).len() {
            Some(values_under(cookies, name)[index as int])
        } else {
            None
        },
    decreases cookies.len(),
{
    if cookies.len() > 0 {
        let cookie = cookies[0];
        let text = written_cookie(cookie);
        let rest = cookies.drop_first();
        assert(carried_cookie(cookie));
        assert(text[0] == cookie.0[0]);
        assert(text.last() == cookie.1.last());
        lemma_trim_kept(text);
        assert(written[0] == text || written[0] == seq![' '] + text);
        law_halves_are_cut_apart(cookie.0, cookie.1, '=');
        assert(pair_of(trim_spec(written[0])) == cookie);
        assert forall|i: int| 0 <= i < rest.len() implies carried_cookie(#[trigger] rest[i]) by {
            assert(rest[i] == cookies[i + 1]);
        }
        assert forall|i: int| 0 <= i < rest.len() implies (#[trigger] written.drop_first()[i]
            == written_cookie(rest[i]) || written.drop_first()[i] == seq![' '] + written_cookie(
            rest[i],
        )) by {
            assert(written[i + 1] == written.drop_first()[i]);
        }
        lemma_written_cookies(written.drop_first(), rest, name, index);
        if index > 0 {
            lemma_written_cookies(written.drop_first(), rest, name, (index - 1) as nat);
        }
    }
}

/// An argument names the header in small letters with hyphens for underscores, so
/// that an argument and the header that it stands for name the same header.
pub proof fn law_arguments_name_headers(argument: Seq<char>)
    ensures
        header_of_argument(argument).len() == argument.len(),
        forall|i: int|
            0 <= i < argument.len() ==> {
                &&& #[trigger] argument[i] == '_' ==> header_of_argument(argument)[i] == '-'
                &&& argument[i] != '_' ==> seq![header_of_argument(argument)[i]] == lower_all(
                    seq![argument[i]],
                )
            },
        header_of_argument(header_of_argument(argument)) == header_of_argument(argument),
{
    assert forall|i: int| 0 <= i < argument.len() && argument[i] != '_' implies seq![
        header_of_argument(argument)[i],
    ] == lower_all(seq![#[trigger] argument[i]]) by {
        assert(lower_all(seq![argument[i]]) =~= seq![header_of_argument(argument)[i]]);
    }
    assert(header_of_argument(header_of_argument(argument)) =~= header_of_argument(argument));
}

/// Empty pairs do not count: doubled separators change nothing of what is found.
pub proof fn law_empty_pairs_do_not_count(
    before: Seq<Seq<char>>,
    after: Seq<Seq<char>>,
    name: Seq<char>,
    index: nat,
)
    ensures
        nth_value(before + seq![Seq::<char>::empty()] + after, name, index) == nth_value(
            before + after,
            name,
            index,
        ),
    decreases before.len(),
{
    let all = before + seq![Seq::<char>::empty()] + after;
    if before.len() == 0 {
        assert(all[0].len() == 0);
        assert(all.drop_first() =~= after);
        assert(before + after =~= after);
    } else {
        let rest = before.drop_first();
        assert(all[0] == before[0] && (before + after)[0] == before[0]);
        assert(all.drop_first() =~= rest + seq![Seq::<char>::empty()] + after);
        assert((before + after).drop_first() =~= rest + after);
        law_empty_pairs_do_not_count(rest, after, name, index);
        if index > 0 {
            law_empty_pairs_do_not_count(rest, after, name, (index - 1) as nat);
        }
    }
}

} // verus!
