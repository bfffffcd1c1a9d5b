//! Text as sequences of characters: the operations the rest of the library
//! builds its rules from.
use vstd::prelude::*;
use vstd::string::*;
use vstd::utf8::*;

verus! {

/// The characters of a text.
pub type TextView = Seq<char>;

/// `String::push` appends one character to the end of the string.
pub assume_specification[ std::string::String::push ](
    text: &mut std::string::String,
    character: char,
)
    ensures
        final(text)@ == old(text)@.push(character),
;

// ---------------------------------------------------------------------------
// Equality and order
// ---------------------------------------------------------------------------

/// Two texts are equal when they hold the same characters.
pub fn eq_text(left: &str, right: &str) -> (same: bool)
    ensures
        same == (left@ == right@),
{
    let a = left.as_bytes();
    let b = right.as_bytes();
    proof {
        encode_utf8_decode_utf8(left@);
        encode_utf8_decode_utf8(right@);
    }
    if a.len() != b.len() {
        return false;
    }
    let mut index: usize = 0;
    while index < a.len()
        invariant
            index <= a@.len(),
            a@.len() == b@.len(),
            a@ == encode_utf8(left@),
            b@ == encode_utf8(right@),
            forall|i: int| 0 <= i < index ==> a@[i] == b@[i],
        decreases a@.len() - index,
    {
        if a[index] != b[index] {
            return false;
        }
        index += 1;
    }
    assert(a@ =~= b@);
    true
}

/// Strict lexicographic order of characters, which is also the order of the
/// encoded bytes.
pub open spec fn text_before_spec(left: Seq<char>, right: Seq<char>) -> bool
    decreases left.len(),
{
    if right.len() == 0 {
        false
    } else if left.len() == 0 {
        true
    } else if left[0] != right[0] {
        left[0] < right[0]
    } else {
        text_before_spec(left.drop_first(), right.drop_first())
    }
}

/// Reports whether `left` sorts strictly before `right`.
pub fn text_before(left: &str, right: &str) -> (before: bool)
    ensures
        before == text_before_spec(left@, right@),
{
    let a = chars_of(left);
    let b = chars_of(right);
    let mut index: usize = 0;
    proof {
        assert(a@.skip(0) =~= left@);
        assert(b@.skip(0) =~= right@);
    }
    while index < a.len() && index < b.len()
        invariant
            index <= a@.len(),
            index <= b@.len(),
            text_before_spec(a@.skip(index as int), b@.skip(index as int)) == text_before_spec(
                left@,
                right@,
            ),
        decreases a@.len() - index,
    {
        if a[index] != b[index] {
            return a[index] < b[index];
        }
        proof {
            assert(a@.skip(index as int).drop_first() =~= a@.skip(index + 1));
            assert(b@.skip(index as int).drop_first() =~= b@.skip(index + 1));
        }
        index += 1;
    }
    index < b.len()
}

/// The order is irreflexive.
pub proof fn lemma_before_irreflexive(text: Seq<char>)
    ensures
        !text_before_spec(text, text),
    decreases text.len(),
{
    if text.len() > 0 {
        lemma_before_irreflexive(text.drop_first());
    }
}

/// The order is transitive.
pub proof fn lemma_before_transitive(a: Seq<char>, b: Seq<char>, c: Seq<char>)
    requires
        text_before_spec(a, b),
        text_before_spec(b, c),
    ensures
        text_before_spec(a, c),
    decreases a.len(),
{
    if a.len() > 0 && b.len() > 0 && c.len() > 0 && a[0] == b[0] && b[0] == c[0] {
        lemma_before_transitive(a.drop_first(), b.drop_first(), c.drop_first());
    }
}

/// Any two different texts are ordered one way.
pub proof fn lemma_before_total(a: Seq<char>, b: Seq<char>)
    ensures
        a == b || text_before_spec(a, b) || text_before_spec(b, a),
    decreases a.len(),
{
    if a.len() > 0 && b.len() > 0 && a[0] == b[0] {
        lemma_before_total(a.drop_first(), b.drop_first());
        if a.drop_first() == b.drop_first() {
            assert(a =~= seq![a[0]] + a.drop_first());
            assert(b =~= seq![b[0]] + b.drop_first());
        }
    } else if a.len() == 0 && b.len() == 0 {
        assert(a =~= b);
    }
}

// ---------------------------------------------------------------------------
// Characters
// ---------------------------------------------------------------------------

/// The characters of a text, in order.
pub fn chars_of(text: &str) -> (characters: Vec<char>)
    ensures
        characters@ == text@,
{
    let mut characters: Vec<char> = Vec::new();
    for character in it: text.chars()
        invariant
            characters@ =~= it.seq().take(it.index()),
            it.seq() == text@,
    {
        characters.push(character);
    }
    characters
}

/// The text made of the given characters.
pub fn string_from(characters: &[char]) -> (text: String)
    ensures
        text@ == characters@,
{
    let mut text = String::new();
    let mut index: usize = 0;
    while index < characters.len()
        invariant
            index <= characters@.len(),
            text@ == characters@.take(index as int),
        decreases characters@.len() - index,
    {
        text.push(characters[index]);
        proof {
            assert(characters@.take(index as int).push(characters@[index as int])
                =~= characters@.take(index + 1));
        }
        index += 1;
    }
    proof {
        assert(characters@.take(index as int) =~= characters@);
    }
    text
}

/// The lower-case form of one ASCII letter; every other character is itself.
pub open spec fn lower_spec(character: char) -> char {
    if 'A' <= character <= 'Z' {
        ((character as u32) + 32) as char
    } else {
        character
    }
}

/// A text with its ASCII letters in lower case.
pub open spec fn lower_all(text: Seq<char>) -> Seq<char> {
    text.map_values(|character: char| lower_spec(character))
}

pub(crate) fn lower(character: char) -> (lowered: char)
    ensures
        lowered == lower_spec(character),
{
    if 'A' <= character && character <= 'Z' {
        let code: u8 = (character as u8) + 32;
        code as char
    } else {
        character
    }
}

/// Replaces ASCII upper-case letters by their lower-case form.
pub fn lower_text(text: &str) -> (lowered: String)
    ensures
        lowered@ == lower_all(text@),
{
    let mut lowered = String::new();
    for character in it: text.chars()
        invariant
            lowered@ =~= lower_all(it.seq().take(it.index())),
            it.seq() == text@,
    {
        lowered.push(lower(character));
    }
    proof {
        assert(text@.take(text@.len() as int) =~= text@);
    }
    lowered
}

/// Compares two texts without regard to the case of ASCII letters.
pub fn eq_ignore_ascii_case(left: &str, right: &str) -> (same: bool)
    ensures
        same == (lower_all(left@) == lower_all(right@)),
{
    let a = lower_text(left);
    let b = lower_text(right);
    eq_text(a.as_str(), b.as_str())
}

/// The characters with the Unicode `White_Space` property.
pub open spec fn white_spec(character: char) -> bool {
    let code = character as u32;
    ||| 0x09 <= code <= 0x0d
    ||| code == 0x20
    ||| code == 0x85
    ||| code == 0xa0
    ||| code == 0x1680
    ||| 0x2000 <= code <= 0x200a
    ||| code == 0x2028
    ||| code == 0x2029
    ||| code == 0x202f
    ||| code == 0x205f
    ||| code == 0x3000
}

/// Reports whether a character is white space.
pub fn is_white(character: char) -> (white: bool)
    ensures
        white == white_spec(character),
{
    let code = character as u32;
    (0x09 <= code && code <= 0x0d) || code == 0x20 || code == 0x85 || code == 0xa0 || code == 0x1680
        || (0x2000 <= code && code <= 0x200a) || code == 0x2028 || code == 0x2029 || code == 0x202f
        || code == 0x205f || code == 0x3000
}

/// A text without its leading white space.
pub open spec fn trim_start_spec(text: Seq<char>) -> Seq<char>
    decreases text.len(),
{
    if text.len() > 0 && white_spec(text[0]) {
        trim_start_spec(text.drop_first())
    } else {
        text
    }
}

/// A text without its trailing white space.
pub open spec fn trim_end_spec(text: Seq<char>) -> Seq<char>
    decreases text.len(),
{
    if text.len() > 0 && white_spec(text.last()) {
        trim_end_spec(text.drop_last())
    } else {
        text
    }
}

/// A text without leading and trailing white space.
pub open spec fn trim_spec(text: Seq<char>) -> Seq<char> {
    trim_end_spec(trim_start_spec(text))
}

/// The characters of a text between its leading and trailing white space.
pub fn trimmed(text: &[char]) -> (kept: Vec<char>)
    ensures
        kept@ == trim_spec(text@),
{
    let mut start: usize = 0;
    proof {
        assert(text@.skip(0) =~= text@);
    }
    while start < text.len() && is_white(text[start])
        invariant
            start <= text@.len(),
            trim_start_spec(text@.skip(start as int)) == trim_start_spec(text@),
        decreases text@.len() - start,
    {
        proof {
            assert(text@.skip(start as int).drop_first() =~= text@.skip(start + 1));
        }
        start += 1;
    }
    let ghost head = text@.skip(start as int);
    let mut end: usize = text.len();
    proof {
        assert(text@.subrange(start as int, end as int) =~= head);
    }
    while end > start && is_white(text[end - 1])
        invariant
            start <= end <= text@.len(),
            trim_end_spec(text@.subrange(start as int, end as int)) == trim_end_spec(head),
        decreases end,
    {
        proof {
            assert(text@.subrange(start as int, end as int).drop_last() =~= text@.subrange(
                start as int,
                end - 1,
            ));
        }
        end -= 1;
    }
    let mut kept: Vec<char> = Vec::new();
    let mut index: usize = start;
    while index < end
        invariant
            start <= index <= end <= text@.len(),
            kept@ =~= text@.subrange(start as int, index as int),
        decreases end - index,
    {
        kept.push(text[index]);
        index += 1;
    }
    kept
}

// ---------------------------------------------------------------------------
// Splitting
// ---------------------------------------------------------------------------

/// The pieces of a text between occurrences of a separator. There is always
/// at least one piece.
pub open spec fn split_spec(text: Seq<char>, separator: char) -> Seq<Seq<char>>
    decreases text.len(),
{
    if text.len() == 0 {
        seq![Seq::empty()]
    } else {
        let pieces = split_spec(text.drop_last(), separator);
        if text.last() == separator {
            pieces.push(Seq::empty())
        } else {
            pieces.drop_last().push(pieces.last().push(text.last()))
        }
    }
}

/// What a list of character lists says.
pub open spec fn char_lists(list: Seq<Vec<char>>) -> Seq<Seq<char>> {
    list.map_values(|piece: Vec<char>| piece@)
}

/// Splits a text at every occurrence of a separator.
pub fn split_chars(text: &[char], separator: char) -> (pieces: Vec<Vec<char>>)
    ensures
        char_lists(pieces@) == split_spec(text@, separator),
        pieces@.len() >= 1,
{
    let mut pieces: Vec<Vec<char>> = Vec::new();
    let mut piece: Vec<char> = Vec::new();
    let mut index: usize = 0;
    proof {
        assert(text@.take(0) =~= Seq::empty());
        assert(char_lists(pieces@).push(piece@) =~= seq![Seq::<char>::empty()]);
    }
    while index < text.len()
        invariant
            index <= text@.len(),
            char_lists(pieces@).push(piece@) =~= split_spec(text@.take(index as int), separator),
        decreases text@.len() - index,
    {
        let character = text[index];
        let ghost before = char_lists(pieces@).push(piece@);
        proof {
            assert(text@.take(index + 1).drop_last() =~= text@.take(index as int));
            assert(text@.take(index + 1).last() == character);
            assert(before.drop_last() =~= char_lists(pieces@));
        }
        if character == separator {
            let done = piece;
            let ghost finished = char_lists(pieces@);
            piece = Vec::new();
            proof {
                assert(char_lists(pieces@.push(done)) =~= finished.push(done@));
            }
            pieces.push(done);
            assert(piece@ =~= Seq::<char>::empty());
        } else {
            piece.push(character);
        }
        index += 1;
    }
    let ghost finished = char_lists(pieces@);
    let ghost last = piece@;
    pieces.push(piece);
    proof {
        assert(char_lists(pieces@) =~= finished.push(last));
        assert(text@.take(text@.len() as int) =~= text@);
    }
    pieces
}

/// The position of the first occurrence of a character.
pub open spec fn index_of(text: Seq<char>, wanted: char) -> Option<int>
    decreases text.len(),
{
    if text.len() == 0 {
        None
    } else if text[0] == wanted {
        Some(0)
    } else {
        match index_of(text.drop_first(), wanted) {
            Some(at) => Some(at + 1),
            None => None,
        }
    }
}

/// Finds the first occurrence of a character.
pub fn find_char(text: &[char], wanted: char) -> (found: Option<usize>)
    ensures
        match found {
            Some(at) => index_of(text@, wanted) == Some(at as int) && at < text@.len(),
            None => index_of(text@, wanted) is None,
        },
{
    let mut index: usize = 0;
    assert(text@.skip(0) =~= text@);
    while index < text.len()
        invariant
            index <= text@.len(),
            index_of(text@, wanted) == match index_of(text@.skip(index as int), wanted) {
                Some(at) => Some(at + index),
                None => None,
            },
        decreases text@.len() - index,
    {
        proof {
            assert(text@.skip(index as int)[0] == text@[index as int]);
            assert(text@.skip(index as int).drop_first() =~= text@.skip(index + 1));
        }
        if text[index] == wanted {
            return Some(index);
        }
        index += 1;
    }
    None
}

/// A text cut at the first occurrence of a separator, which belongs to neither
/// side.
pub open spec fn cut(text: Seq<char>, separator: char) -> Option<(Seq<char>, Seq<char>)> {
    match index_of(text, separator) {
        Some(at) => Some((text.take(at), text.skip(at + 1))),
        None => None,
    }
}

/// Cuts a text at the first occurrence of a separator.
pub fn cut_chars<'text>(text: &'text [char], separator: char) -> (parts: Option<
    (&'text [char], &'text [char]),
>)
    ensures
        match parts {
            Some((head, tail)) => cut(text@, separator) == Some((head@, tail@)),
            None => cut(text@, separator) is None,
        },
{
    match find_char(text, separator) {
        Some(at) => {
            let count: usize = text.len();
            assert(at < count);
            let head = vstd::slice::slice_subrange(text, 0, at);
            let tail = vstd::slice::slice_subrange(text, at + 1, count);
            assert(head@ =~= text@.take(at as int));
            assert(tail@ =~= text@.skip(at + 1));
            Some((head, tail))
        },
        None => None,
    }
}

/// Compares two lists of characters.
pub fn eq_chars(left: &[char], right: &[char]) -> (same: bool)
    ensures
        same == (left@ == right@),
{
    if left.len() != right.len() {
        return false;
    }
    let mut index: usize = 0;
    while index < left.len()
        invariant
            index <= left@.len(),
            left@.len() == right@.len(),
            forall|i: int| 0 <= i < index ==> left@[i] == right@[i],
        decreases left@.len() - index,
    {
        if left[index] != right[index] {
            return false;
        }
        index += 1;
    }
    assert(left@ =~= right@);
    true
}

// ---------------------------------------------------------------------------
// Numbers
// ---------------------------------------------------------------------------

/// One decimal digit as a character.
pub open spec fn digit_char(digit: nat) -> char {
    (48 + digit) as char
}

/// The decimal notation of a natural number, without leading zeros.
pub open spec fn decimal(number: nat) -> Seq<char>
    decreases number,
{
    if number < 10 {
        seq![digit_char(number)]
    } else {
        decimal(number / 10).push(digit_char(number % 10))
    }
}

/// Writes a number in decimal notation.
pub fn decimal_text(number: u64) -> (text: String)
    ensures
        text@ == decimal(number as nat),
    decreases number,
{
    let digit: u8 = (number % 10) as u8;
    let character: char = (48u8 + digit) as char;
    if number < 10 {
        let mut text = String::new();
        text.push(character);
        assert(text@ =~= seq![digit_char(number as nat)]);
        text
    } else {
        let mut text = decimal_text(number / 10);
        text.push(character);
        text
    }
}

// ---------------------------------------------------------------------------
// What the text functions do
// ---------------------------------------------------------------------------

/// Lowering changes the ASCII capitals into their small letters and nothing else,
/// so it can be repeated freely.
pub proof fn law_lowering_changes_capitals_only(text: Seq<char>)
    ensures
        lower_all(text).len() == text.len(),
        forall|i: int|
            0 <= i < text.len() ==> {
                &&& 'A' <= #[trigger] text[i] <= 'Z' ==> lower_all(text)[i] as int - 'a' as int
                    == text[i] as int - 'A' as int
                &&& !('A' <= text[i] <= 'Z') ==> lower_all(text)[i] == text[i]
            },
        lower_all(lower_all(text)) == lower_all(text),
{
    assert(lower_all(lower_all(text)) =~= lower_all(text));
}

/// Trimming takes white space off both ends and nothing else: a text is its
/// trimmed middle between two runs of white space, and the middle neither begins
/// nor ends with any.
pub proof fn law_trimming_takes_off_white_space(text: Seq<char>) -> (ends: (int, int))
    ensures
        0 <= ends.0 <= ends.1 <= text.len(),
        trim_spec(text) == text.subrange(ends.0, ends.1),
        forall|i: int| 0 <= i < ends.0 ==> white_spec(#[trigger] text[i]),
        forall|i: int| ends.1 <= i < text.len() ==> white_spec(#[trigger] text[i]),
        ends.0 < ends.1 ==> !white_spec(text[ends.0]) && !white_spec(text[ends.1 - 1]),
        trim_spec(trim_spec(text)) == trim_spec(text),
{
    let start = lemma_trimmed_start(text);
    let rest = text.skip(start);
    let kept = lemma_trimmed_end(rest);
    let middle = trim_spec(text);
    assert(middle =~= text.subrange(start, start + kept));
    assert forall|i: int| start + kept <= i < text.len() implies white_spec(#[trigger] text[i]) by {
        assert(rest[i - start] == text[i]);
    }
    if kept > 0 {
        assert(rest[0] == text[start]);
        assert(rest[kept - 1] == text[start + kept - 1]);
        assert(middle[0] == text[start]);
        assert(middle.last() == text[start + kept - 1]);
    }
    assert(trim_start_spec(middle) == middle);
    assert(trim_end_spec(middle) == middle);
    (start, start + kept)
}

proof fn lemma_trimmed_start(text: Seq<char>) -> (start: int)
    ensures
        0 <= start <= text.len(),
        trim_start_spec(text) == text.skip(start),
        forall|i: int| 0 <= i < start ==> white_spec(#[trigger] text[i]),
        start < text.len() ==> !white_spec(text[start]),
    decreases text.len(),
{
    if text.len() > 0 && white_spec(text[0]) {
        let rest = text.drop_first();
        let start = lemma_trimmed_start(rest) + 1;
        assert(rest.skip(start - 1) =~= text.skip(start));
        assert forall|i: int| 0 <= i < start implies white_spec(#[trigger] text[i]) by {
            if i > 0 {
                assert(rest[i - 1] == text[i]);
            }
        }
        if start < text.len() {
            assert(rest[start - 1] == text[start]);
        }
        start
    } else {
        assert(text.skip(0) =~= text);
        0
    }
}

proof fn lemma_trimmed_end(text: Seq<char>) -> (end: int)
    ensures
        0 <= end <= text.len(),
        trim_end_spec(text) == text.take(end),
        forall|i: int| end <= i < text.len() ==> white_spec(#[trigger] text[i]),
        end > 0 ==> !white_spec(text[end - 1]),
    decreases text.len(),
{
    if text.len() > 0 && white_spec(text.last()) {
        let rest = text.drop_last();
        let end = lemma_trimmed_end(rest);
        assert(rest.take(end) =~= text.take(end));
        assert forall|i: int| end <= i < text.len() implies white_spec(#[trigger] text[i]) by {
            if i < rest.len() {
                assert(rest[i] == text[i]);
            }
        }
        end
    } else {
        assert(text.take(text.len() as int) =~= text);
        text.len() as int
    }
}

/// Blanks, tabs and line ends are white space; no visible ASCII character is.
pub proof fn law_visible_characters_are_no_white_space(character: char)
    ensures
        white_spec(' ') && white_spec('\t') && white_spec('\r') && white_spec('\n'),
        '!' <= character <= '~' ==> !white_spec(character),
{
}

/// Texts one after the other, with a separator between them.
pub open spec fn joined_by(pieces: Seq<Seq<char>>, separator: char) -> Seq<char>
    decreases pieces.len(),
{
    if pieces.len() == 0 {
        Seq::empty()
    } else if pieces.len() == 1 {
        pieces[0]
    } else {
        joined_by(pieces.drop_last(), separator).push(separator) + pieces.last()
    }
}

/// Splitting takes a text apart at every separator and loses nothing: no piece
/// holds a separator, and the pieces joined by it are the text.
pub proof fn law_pieces_join_to_the_text(text: Seq<char>, separator: char)
    ensures
        split_spec(text, separator).len() >= 1,
        joined_by(split_spec(text, separator), separator) == text,
        forall|i: int, j: int|
            0 <= i < split_spec(text, separator).len() && 0 <= j < split_spec(
                text,
                separator,
            )[i].len() ==> #[trigger] split_spec(text, separator)[i][j] != separator,
    decreases text.len(),
{
    let pieces = split_spec(text, separator);
    if text.len() == 0 {
        assert(joined_by(pieces, separator) =~= text);
    } else {
        let shorter = text.drop_last();
        let before = split_spec(shorter, separator);
        law_pieces_join_to_the_text(shorter, separator);
        if text.last() == separator {
            assert(pieces.drop_last() =~= before);
            assert(joined_by(pieces, separator) =~= text);
        } else {
            assert(pieces.drop_last() =~= before.drop_last());
            assert(text =~= shorter.push(text.last()));
            assert(pieces.len() == before.len());
            assert(pieces.last() == before.last().push(text.last()));
            if pieces.len() == 1 {
                assert(joined_by(before, separator) == before[0]);
                assert(joined_by(pieces, separator) == pieces[0]);
                assert(before[0] == before.last());
                assert(pieces[0] == pieces.last());
            } else {
                let start = joined_by(before.drop_last(), separator).push(separator);
                assert(joined_by(before, separator) == start + before.last());
                assert(joined_by(pieces, separator) == start + pieces.last());
                assert(start + before.last().push(text.last()) =~= (start + before.last()).push(
                    text.last(),
                ));
            }
            assert forall|i: int, j: int|
                0 <= i < pieces.len() && 0 <= j < pieces[i].len() implies #[trigger] pieces[i][j]
                != separator by {
                if i < pieces.len() - 1 {
                    assert(pieces[i] == before[i]);
                    assert(before[i][j] != separator);
                } else if j < pieces[i].len() - 1 {
                    assert(before[before.len() - 1][j] != separator);
                }
            }
        }
    }
}

proof fn lemma_split_onto(text: Seq<char>, piece: Seq<char>, separator: char)
    requires
        forall|i: int| 0 <= i < piece.len() ==> #[trigger] piece[i] != separator,
    ensures
        split_spec(text.push(separator) + piece, separator) == split_spec(text, separator).push(
            piece,
        ),
    decreases piece.len(),
{
    let whole = text.push(separator) + piece;
    if piece.len() == 0 {
        assert(whole.drop_last() =~= text);
        assert(piece =~= Seq::empty());
    } else {
        let shorter = piece.drop_last();
        assert(whole.drop_last() =~= text.push(separator) + shorter);
        lemma_split_onto(text, shorter, separator);
        let pieces = split_spec(text, separator).push(shorter);
        assert(pieces.drop_last() =~= split_spec(text, separator));
        assert(shorter.push(piece.last()) =~= piece);
        assert(whole.last() == piece.last());
    }
}

proof fn lemma_split_alone(piece: Seq<char>, separator: char)
    requires
        forall|i: int| 0 <= i < piece.len() ==> #[trigger] piece[i] != separator,
    ensures
        split_spec(piece, separator) == seq![piece],
    decreases piece.len(),
{
    if piece.len() == 0 {
        assert(piece =~= Seq::empty());
    } else {
        lemma_split_alone(piece.drop_last(), separator);
        let pieces = seq![piece.drop_last()];
        assert(piece.drop_last().push(piece.last()) =~= piece);
        assert(pieces.drop_last().push(pieces.last().push(piece.last())) =~= seq![piece]);
    }
}

/// Texts that were joined are split again into the same texts, in order.
pub proof fn law_joined_texts_are_split_again(pieces: Seq<Seq<char>>, separator: char)
    requires
        pieces.len() > 0,
        forall|i: int, j: int|
            0 <= i < pieces.len() && 0 <= j < pieces[i].len() ==> #[trigger] pieces[i][j]
                != separator,
    ensures
        split_spec(joined_by(pieces, separator), separator) == pieces,
    decreases pieces.len(),
{
    let last = pieces.last();
    assert forall|i: int| 0 <= i < last.len() implies #[trigger] last[i] != separator by {
        assert(pieces[pieces.len() - 1][i] != separator);
    }
    if pieces.len() == 1 {
        lemma_split_alone(pieces[0], separator);
        assert(seq![pieces[0]] =~= pieces);
    } else {
        let head = pieces.drop_last();
        assert forall|i: int, j: int| 0 <= i < head.len() && 0 <= j < head[i].len() implies (
        #[trigger] head[i][j]) != separator by {
            assert(pieces[i][j] != separator);
        }
        law_joined_texts_are_split_again(head, separator);
        lemma_split_onto(joined_by(head, separator), last, separator);
        assert(head.push(last) =~= pieces);
    }
}

/// A text is cut at its first separator: what stands before it holds none, and
/// the two sides with the separator between them are the text. A text without a
/// separator is not cut.
pub proof fn law_texts_are_cut_at_the_first_separator(text: Seq<char>, separator: char)
    ensures
        match cut(text, separator) {
            Some((head, tail)) => text == head.push(separator) + tail && !head.contains(separator),
            None => !text.contains(separator),
        },
{
    lemma_index_found(text, separator);
    match index_of(text, separator) {
        Some(at) => {
            let head = text.take(at);
            assert(text =~= head.push(separator) + text.skip(at + 1));
            if head.contains(separator) {
                let i = choose|i: int| 0 <= i < head.len() && head[i] == separator;
                assert(text[i] == separator);
            }
        },
        None => {
            if text.contains(separator) {
                let i = choose|i: int| 0 <= i < text.len() && text[i] == separator;
                assert(text[i] != separator);
            }
        },
    }
}

proof fn lemma_index_found(text: Seq<char>, wanted: char)
    ensures
        match index_of(text, wanted) {
            Some(at) => 0 <= at < text.len() && text[at] == wanted && forall|i: int|
                0 <= i < at ==> #[trigger] text[i] != wanted,
            None => forall|i: int| 0 <= i < text.len() ==> #[trigger] text[i] != wanted,
        },
    decreases text.len(),
{
    if text.len() > 0 && text[0] != wanted {
        let rest = text.drop_first();
        lemma_index_found(rest, wanted);
        assert forall|i: int| 0 < i < text.len() implies #[trigger] text[i] == rest[i - 1] by {}
    }
}

/// Two halves around a separator are cut apart again, where the first half holds
/// none.
pub proof fn law_halves_are_cut_apart(head: Seq<char>, tail: Seq<char>, separator: char)
    requires
        !head.contains(separator),
    ensures
        cut(head.push(separator) + tail, separator) == Some((head, tail)),
        cut(head, separator) is None,
{
    let whole = head.push(separator) + tail;
    lemma_index_found(whole, separator);
    lemma_index_found(head, separator);
    assert(whole[head.len() as int] == separator);
    let at = index_of(whole, separator)->Some_0;
    if at < head.len() {
        assert(head[at] == whole[at]);
        assert(head.contains(separator));
    }
    assert(whole.take(at) =~= head);
    assert(whole.skip(at + 1) =~= tail);
}

/// The number that a decimal notation stands for.
pub open spec fn decimal_value(text: Seq<char>) -> int
    decreases text.len(),
{
    if text.len() == 0 {
        0
    } else {
        decimal_value(text.drop_last()) * 10 + (text.last() as int - '0' as int)
    }
}

/// The decimal notation of a number holds digits only, has no leading zero but
/// for zero itself, and stands for the number.
pub proof fn law_decimals_stand_for_their_number(number: nat)
    ensures
        decimal_value(decimal(number)) == number,
        decimal(number).len() > 0,
        forall|i: int| 0 <= i < decimal(number).len() ==> '0' <= #[trigger] decimal(number)[i] <= '9',
        number > 0 ==> decimal(number)[0] != '0',
    decreases number,
{
    if number < 10 {
        assert(decimal(number).drop_last() =~= Seq::empty());
        assert(decimal_value(decimal(number).drop_last()) == 0);
    } else {
        let head = decimal(number / 10);
        law_decimals_stand_for_their_number(number / 10);
        assert(decimal(number).drop_last() =~= head);
        assert forall|i: int| 0 <= i < decimal(number).len() implies '0' <= #[trigger] decimal(
            number,
        )[i] <= '9' by {
            if i < head.len() {
                assert(decimal(number)[i] == head[i]);
            }
        }
        assert(decimal(number)[0] == head[0]);
    }
}

/// Texts are ordered by the first character in which they differ, and a text
/// comes before its own continuations.
pub proof fn law_texts_are_ordered_by_their_first_difference(
    start: Seq<char>,
    a: char,
    left: Seq<char>,
    b: char,
    right: Seq<char>,
)
    ensures
        a < b ==> text_before_spec(start.push(a) + left, start.push(b) + right),
        text_before_spec(start, start.push(a) + left),
        !text_before_spec(start.push(a) + left, start),
    decreases start.len(),
{
    let x = start.push(a) + left;
    let y = start.push(b) + right;
    if start.len() > 0 {
        let rest = start.drop_first();
        law_texts_are_ordered_by_their_first_difference(rest, a, left, b, right);
        assert(x.drop_first() =~= rest.push(a) + left);
        assert(y.drop_first() =~= rest.push(b) + right);
        assert(x[0] == start[0] && y[0] == start[0]);
    } else {
        assert(x[0] == a && y[0] == b);
    }
}

} // verus!
