//! The syntax of `multipart/form-data` documents.
use crate::operation::opt_text;
use crate::text::{
    char_lists, chars_of, cut, cut_chars, eq_ignore_ascii_case, joined_by,
    law_halves_are_cut_apart, law_joined_texts_are_split_again, law_trimming_takes_off_white_space,
    law_visible_characters_are_no_white_space, lower_all, split_spec, string_from, trim_spec,
    trimmed, white_spec,
};
use vstd::prelude::*;
use vstd::string::*;

verus! {

/// Largest header block accepted for one `multipart/form-data` part.
///
/// The buffered and the streaming readers share this bound, so a body that one
/// accepts is not rejected by the other.
pub const MAX_MULTIPART_HEADER_BYTES: usize = 16384;

/// Largest number of parts accepted in one `multipart/form-data` body.
pub const MAX_MULTIPART_PARTS: usize = 256;

// ---------------------------------------------------------------------------
// Header parameters
// ---------------------------------------------------------------------------

/// Where a reader of header parameters stands.
pub struct ParameterState {
    pub quoted: bool,
    pub escaped: bool,
    pub pieces: Seq<Seq<char>>,
}

/// Reads a header value up to its end: a semicolon outside quotes starts the
/// next parameter, and a backslash inside quotes escapes one character.
pub open spec fn parameter_state(value: Seq<char>) -> ParameterState
    decreases value.len(),
{
    if value.len() == 0 {
        ParameterState { quoted: false, escaped: false, pieces: seq![Seq::empty()] }
    } else {
        let before = parameter_state(value.drop_last());
        let character = value.last();
        let grown = before.pieces.drop_last().push(before.pieces.last().push(character));
        if before.escaped {
            ParameterState { quoted: before.quoted, escaped: false, pieces: grown }
        } else if character == '\\' && before.quoted {
            ParameterState { quoted: before.quoted, escaped: true, pieces: grown }
        } else if character == '"' {
            ParameterState { quoted: !before.quoted, escaped: false, pieces: grown }
        } else if character == ';' && !before.quoted {
            ParameterState {
                quoted: before.quoted,
                escaped: false,
                pieces: before.pieces.push(Seq::empty()),
            }
        } else {
            ParameterState { quoted: before.quoted, escaped: false, pieces: grown }
        }
    }
}

/// The parameters of a header value.
pub open spec fn parameters_of(value: Seq<char>) -> Seq<Seq<char>> {
    parameter_state(value).pieces
}

fn parameter_chars(value: &[char]) -> (pieces: Vec<Vec<char>>)
    ensures
        char_lists(pieces@) == parameters_of(value@),
        pieces@.len() >= 1,
{
    let mut pieces: Vec<Vec<char>> = Vec::new();
    let mut piece: Vec<char> = Vec::new();
    let mut quoted = false;
    let mut escaped = false;
    let mut index: usize = 0;
    proof {
        assert(value@.take(0) =~= Seq::empty());
        assert(char_lists(pieces@).push(piece@) =~= seq![Seq::<char>::empty()]);
    }
    while index < value.len()
        invariant
            index <= value@.len(),
            parameter_state(value@.take(index as int)).quoted == quoted,
            parameter_state(value@.take(index as int)).escaped == escaped,
            parameter_state(value@.take(index as int)).pieces =~= char_lists(pieces@).push(piece@),
        decreases value@.len() - index,
    {
        let character = value[index];
        let ghost before = char_lists(pieces@).push(piece@);
        proof {
            assert(value@.take(index + 1).drop_last() =~= value@.take(index as int));
            assert(value@.take(index + 1).last() == character);
            assert(before.drop_last() =~= char_lists(pieces@));
        }
        let ends = !escaped && !(character == '\\' && quoted) && character != '"' && character
            == ';' && !quoted;
        if escaped {
            escaped = false;
        } else if character == '\\' && quoted {
            escaped = true;
        } else if character == '"' {
            quoted = !quoted;
        }
        if ends {
            let done = piece;
            let ghost finished = char_lists(pieces@);
            piece = Vec::new();
            proof {
                assert(char_lists(pieces@.push(done)) =~= finished.push(done@));
            }
            pieces.push(done);
            assert(piece@ =~= Seq::<char>::empty());
        } else {
            piece.push(character);
        }
        index += 1;
    }
    let ghost finished = char_lists(pieces@);
    let ghost last = piece@;
    pieces.push(piece);
    proof {
        assert(char_lists(pieces@) =~= finished.push(last));
        assert(value@.take(value@.len() as int) =~= value@);
    }
    pieces
}

/// Splits a header value on unquoted semicolons.
pub fn header_parameters(value: &str) -> (parameters: Vec<String>)
    ensures
        crate::operation::texts(parameters@) == parameters_of(value@),
{
    let characters = chars_of(value);
    let pieces = parameter_chars(characters.as_slice());
    let mut parameters: Vec<String> = Vec::new();
    let mut index: usize = 0;
    while index < pieces.len()
        invariant
            index <= pieces@.len(),
            parameters@.len() == index,
            forall|i: int| 0 <= i < index ==> (#[trigger] parameters@[i])@ == pieces@[i]@,
        decreases pieces@.len() - index,
    {
        parameters.push(string_from(pieces[index].as_slice()));
        index += 1;
    }
    assert(crate::operation::texts(parameters@) =~= char_lists(pieces@));
    parameters
}

/// A text with its backslash escapes resolved; nothing comes of a backslash
/// at the end.
pub open spec fn without_escapes(text: Seq<char>) -> Option<Seq<char>>
    decreases text.len(),
{
    if text.len() == 0 {
        Some(Seq::empty())
    } else if text[0] == '\\' {
        if text.len() == 1 {
            None
        } else {
            match without_escapes(text.skip(2)) {
                Some(rest) => Some(seq![text[1]] + rest),
                None => None,
            }
        }
    } else {
        match without_escapes(text.drop_first()) {
            Some(rest) => Some(seq![text[0]] + rest),
            None => None,
        }
    }
}

/// A header parameter value without its quotes and escapes.
pub open spec fn unquoted(value: Seq<char>) -> Option<Seq<char>> {
    if value.len() > 0 && value[0] == '"' {
        if value.len() > 1 && value.last() == '"' {
            without_escapes(value.subrange(1, value.len() - 1))
        } else {
            None
        }
    } else {
        Some(value)
    }
}

fn unquoted_chars(value: &[char]) -> (text: Option<Vec<char>>)
    ensures
        match text {
            Some(text) => unquoted(value@) == Some(text@),
            None => unquoted(value@) is None,
        },
{
    if value.len() == 0 || value[0] != '"' {
        return Some(vstd::slice::slice_to_vec(value));
    }
    if value.len() == 1 || value[value.len() - 1] != '"' {
        return None;
    }
    let inner = vstd::slice::slice_subrange(value, 1, value.len() - 1);
    let ghost all = inner@;
    let mut output: Vec<char> = Vec::new();
    let mut index: usize = 0;
    proof {
        assert(all =~= value@.subrange(1, value@.len() - 1));
        assert(all.skip(0) =~= all);
        if let Some(rest) = without_escapes(all) {
            assert(output@ + rest =~= rest);
        }
    }
    while index < inner.len()
        invariant
            inner@ == all,
            unquoted(value@) == without_escapes(all),
            index <= all.len(),
            match without_escapes(all.skip(index as int)) {
                Some(rest) => without_escapes(all) == Some(output@ + rest),
                None => without_escapes(all) is None,
            },
        decreases all.len() - index,
    {
        let ghost here = all.skip(index as int);
        let ghost before = output@;
        proof {
            assert(here[0] == all[index as int]);
        }
        if inner[index] == '\\' {
            if index + 1 == inner.len() {
                return None;
            }
            output.push(inner[index + 1]);
            proof {
                assert(here[1] == all[index + 1]);
                assert(here.skip(2) =~= all.skip(index + 2));
                if let Some(rest) = without_escapes(all.skip(index + 2)) {
                    assert(before + (seq![all[index + 1]] + rest) =~= output@ + rest);
                }
            }
            index += 2;
        } else {
            output.push(inner[index]);
            proof {
                assert(here.drop_first() =~= all.skip(index + 1));
                if let Some(rest) = without_escapes(all.skip(index + 1)) {
                    assert(before + (seq![all[index as int]] + rest) =~= output@ + rest);
                }
            }
            index += 1;
        }
    }
    proof {
        assert(all.skip(index as int) =~= Seq::empty());
        assert(output@ + Seq::<char>::empty() =~= output@);
    }
    Some(output)
}

/// Removes the quotes and backslash escapes from one header parameter value.
#[must_use]
pub fn unquote_header_value(value: &str) -> (text: Option<String>)
    ensures
        match text {
            Some(text) => unquoted(value@) == Some(text@),
            None => unquoted(value@) is None,
        },
{
    let characters = chars_of(value);
    match unquoted_chars(characters.as_slice()) {
        Some(text) => Some(string_from(text.as_slice())),
        None => None,
    }
}

fn trimmed_is(text: &[char], expected: &str) -> (same: bool)
    ensures
        same == (lower_all(trim_spec(text@)) == lower_all(expected@)),
{
    let kept = trimmed(text);
    eq_ignore_ascii_case(string_from(kept.as_slice()).as_str(), expected)
}

// ---------------------------------------------------------------------------
// Boundaries
// ---------------------------------------------------------------------------

/// One to seventy printable ASCII characters without spaces.
pub open spec fn valid_boundary(boundary: Seq<char>) -> bool {
    &&& 1 <= boundary.len() <= 70
    &&& forall|i: int| 0 <= i < boundary.len() ==> ' ' < #[trigger] boundary[i] < '\x7f'
}

/// The boundary among the parameters from one position on. A parameter
/// without `=` before it spoils the header.
pub open spec fn boundary_parameter(parameters: Seq<Seq<char>>, at: int) -> Option<Seq<char>>
    decreases parameters.len() - at,
{
    if at >= parameters.len() {
        None
    } else {
        match cut(parameters[at], '=') {
            None => None,
            Some((name, value)) => if lower_all(trim_spec(name)) == lower_all("boundary"@) {
                match unquoted(trim_spec(value)) {
                    Some(boundary) => if valid_boundary(boundary) {
                        Some(boundary)
                    } else {
                        None
                    },
                    None => None,
                }
            } else {
                boundary_parameter(parameters, at + 1)
            },
        }
    }
}

/// The boundary that a content type declares.
pub open spec fn boundary_of(content_type: Seq<char>) -> Option<Seq<char>> {
    let parameters = parameters_of(content_type);
    if lower_all(trim_spec(parameters[0])) != lower_all("multipart/form-data"@) {
        None
    } else {
        boundary_parameter(parameters, 1)
    }
}

fn is_valid_boundary(boundary: &[char]) -> (valid: bool)
    ensures
        valid == valid_boundary(boundary@),
{
    if boundary.len() == 0 || boundary.len() > 70 {
        return false;
    }
    let mut index: usize = 0;
    while index < boundary.len()
        invariant
            index <= boundary@.len(),
            1 <= boundary@.len() <= 70,
            forall|i: int| 0 <= i < index ==> ' ' < #[trigger] boundary@[i] < '\x7f',
        decreases boundary@.len() - index,
    {
        if boundary[index] <= ' ' || boundary[index] >= '\x7f' {
            return false;
        }
        index += 1;
    }
    true
}

/// Extracts the boundary from a `multipart/form-data` content type.
///
/// Nothing comes of another media type, an absent boundary parameter, or a
/// boundary that is not made of 1 to 70 printable non-space characters.
#[must_use]
pub fn multipart_boundary(content_type: &str) -> (boundary: Option<String>)
    ensures
        match boundary {
            Some(boundary) => boundary_of(content_type@) == Some(boundary@) && valid_boundary(
                boundary@,
            ),
            None => boundary_of(content_type@) is None,
        },
{
    let characters = chars_of(content_type);
    let parameters = parameter_chars(characters.as_slice());
    let ghost views = char_lists(parameters@);
    assert(views[0] == parameters@[0]@);
    if !trimmed_is(parameters[0].as_slice(), "multipart/form-data") {
        return None;
    }
    let mut index: usize = 1;
    while index < parameters.len()
        invariant
            1 <= index <= parameters@.len(),
            views == char_lists(parameters@),
            boundary_of(content_type@) == boundary_parameter(views, index as int),
        decreases parameters@.len() - index,
    {
        assert(views[index as int] == parameters@[index as int]@);
        match cut_chars(parameters[index].as_slice(), '=') {
            None => {
                return None;
            },
            Some((name, value)) => {
                if trimmed_is(name, "boundary") {
                    let kept = trimmed(value);
                    match unquoted_chars(kept.as_slice()) {
                        Some(boundary) => {
                            if is_valid_boundary(boundary.as_slice()) {
                                return Some(string_from(boundary.as_slice()));
                            }
                            return None;
                        },
                        None => {
                            return None;
                        },
                    }
                }
            },
        }
        index += 1;
    }
    None
}

// ---------------------------------------------------------------------------
// Part headers
// ---------------------------------------------------------------------------

/// The disposition and type one multipart part declared.
#[derive(Clone, Debug, PartialEq, Eq)]
pub struct MultipartPartHeaders {
    pub name: String,
    pub file_name: Option<String>,
    pub content_type: Option<String>,
}

/// What a part's header block says.
#[verifier::ext_equal]
pub struct PartView {
    pub name: Seq<char>,
    pub file_name: Option<Seq<char>>,
    pub content_type: Option<Seq<char>>,
}

impl View for MultipartPartHeaders {
    type V = PartView;

    open spec fn view(&self) -> PartView {
        PartView {
            name: self.name@,
            file_name: opt_text(self.file_name),
            content_type: opt_text(self.content_type),
        }
    }
}

/// What the header lines read so far say.
pub struct HeaderState {
    pub name: Option<Seq<char>>,
    pub file_name: Option<Seq<char>>,
    pub content_type: Option<Seq<char>>,
}

/// The lines of a text, parted by carriage return and line feed.
pub open spec fn crlf_lines(text: Seq<char>) -> Seq<Seq<char>>
    decreases text.len(),
{
    if text.len() == 0 {
        seq![Seq::empty()]
    } else {
        let before = crlf_lines(text.drop_last());
        let line = before.last();
        if text.last() == '\n' && line.len() > 0 && line.last() == '\r' {
            before.drop_last().push(line.drop_last()).push(Seq::empty())
        } else {
            before.drop_last().push(line.push(text.last()))
        }
    }
}

/// One disposition parameter taken in: a later `name` or `filename` replaces
/// an earlier one, even where its value cannot be unquoted.
pub open spec fn with_parameter(state: HeaderState, parameter: Seq<char>) -> HeaderState {
    match cut(parameter, '=') {
        None => state,
        Some((name, value)) => if lower_all(trim_spec(name)) == lower_all("name"@) {
            HeaderState { name: unquoted(trim_spec(value)), ..state }
        } else if lower_all(trim_spec(name)) == lower_all("filename"@) {
            HeaderState { file_name: unquoted(trim_spec(value)), ..state }
        } else {
            state
        },
    }
}

/// The parameters between two positions taken in, in order.
pub open spec fn with_parameters(
    state: HeaderState,
    parameters: Seq<Seq<char>>,
    from: int,
    until: int,
) -> HeaderState
    decreases until - from,
{
    if until <= from {
        state
    } else {
        with_parameter(
            with_parameters(state, parameters, from, until - 1),
            parameters[until - 1],
        )
    }
}

/// One header line taken in, or the reason it is refused.
pub open spec fn with_header(state: HeaderState, line: Seq<char>) -> Result<
    HeaderState,
    Seq<char>,
> {
    match cut(line, ':') {
        None => Err("multipart part header is malformed"@),
        Some((name, value)) => if lower_all(name) == lower_all("content-disposition"@) {
            let parameters = parameters_of(value);
            if lower_all(trim_spec(parameters[0])) != lower_all("form-data"@) {
                Err("multipart Content-Disposition must be form-data"@)
            } else {
                Ok(with_parameters(state, parameters, 1, parameters.len() as int))
            }
        } else if lower_all(name) == lower_all("content-type"@) {
            Ok(HeaderState { content_type: Some(trim_spec(value)), ..state })
        } else {
            Ok(state)
        },
    }
}

/// The first so many header lines taken in.
pub open spec fn headers_read(lines: Seq<Seq<char>>, count: nat) -> Result<HeaderState, Seq<char>>
    decreases count,
{
    if count == 0 {
        Ok(HeaderState { name: None, file_name: None, content_type: None })
    } else {
        match headers_read(lines, (count - 1) as nat) {
            Err(reason) => Err(reason),
            Ok(state) => with_header(state, lines[count - 1]),
        }
    }
}

/// What a part's header block declares, or the reason it is refused.
pub open spec fn part_declared(headers: Seq<char>) -> Result<PartView, Seq<char>> {
    let lines = crlf_lines(headers);
    match headers_read(lines, lines.len()) {
        Err(reason) => Err(reason),
        Ok(state) => match state.name {
            Some(name) => if name.len() > 0 {
                Ok(
                    PartView {
                        name,
                        file_name: state.file_name,
                        content_type: state.content_type,
                    },
                )
            } else {
                Err("multipart part has no field name"@)
            },
            None => Err("multipart part has no field name"@),
        },
    }
}

/// A refusal, once met, is not overcome by later lines.
proof fn lemma_refusal_stands(lines: Seq<Seq<char>>, early: nat, late: nat)
    requires
        early <= late,
        headers_read(lines, early) is Err,
    ensures
        headers_read(lines, late) == headers_read(lines, early),
    decreases late - early,
{
    if early < late {
        lemma_refusal_stands(lines, early, (late - 1) as nat);
    }
}

fn crlf_split(text: &[char]) -> (lines: Vec<Vec<char>>)
    ensures
        char_lists(lines@) == crlf_lines(text@),
{
    let mut lines: Vec<Vec<char>> = Vec::new();
    let mut line: Vec<char> = Vec::new();
    let mut index: usize = 0;
    proof {
        assert(text@.take(0) =~= Seq::empty());
        assert(char_lists(lines@).push(line@) =~= seq![Seq::<char>::empty()]);
    }
    while index < text.len()
        invariant
            index <= text@.len(),
            crlf_lines(text@.take(index as int)) =~= char_lists(lines@).push(line@),
        decreases text@.len() - index,
    {
        let character = text[index];
        let ghost finished = char_lists(lines@);
        proof {
            assert(text@.take(index + 1).drop_last() =~= text@.take(index as int));
            assert(text@.take(index + 1).last() == character);
            assert(finished.push(line@).drop_last() =~= finished);
        }
        if character == '\n' && line.len() > 0 && line[line.len() - 1] == '\r' {
            let ghost whole = line@;
            let dropped = line.pop();
            assert(line@ =~= whole.drop_last());
            let done = line;
            proof {
                assert(char_lists(lines@.push(done)) =~= finished.push(done@));
            }
            lines.push(done);
            line = Vec::new();
            assert(line@ =~= Seq::<char>::empty());
        } else {
            line.push(character);
        }
        index += 1;
    }
    let ghost finished = char_lists(lines@);
    let ghost last = line@;
    lines.push(line);
    proof {
        assert(char_lists(lines@) =~= finished.push(last));
        assert(text@.take(text@.len() as int) =~= text@);
    }
    lines
}

/// The header lines read so far, as values.
struct HeaderDraft {
    name: Option<Vec<char>>,
    file_name: Option<Vec<char>>,
    content_type: Option<Vec<char>>,
}

spec fn opt_chars(text: Option<Vec<char>>) -> Option<Seq<char>> {
    match text {
        Some(text) => Some(text@),
        None => None,
    }
}

impl HeaderDraft {
    spec fn state(&self) -> HeaderState {
        HeaderState {
            name: opt_chars(self.name),
            file_name: opt_chars(self.file_name),
            content_type: opt_chars(self.content_type),
        }
    }

    fn take_parameter(&mut self, parameter: &[char])
        ensures
            final(self).state() == with_parameter(old(self).state(), parameter@),
    {
        if let Some((name, value)) = cut_chars(parameter, '=') {
            if trimmed_is(name, "name") {
                let kept = trimmed(value);
                self.name = unquoted_chars(kept.as_slice());
            } else if trimmed_is(name, "filename") {
                let kept = trimmed(value);
                self.file_name = unquoted_chars(kept.as_slice());
            }
        }
    }

    fn take_disposition(&mut self, value: &[char]) -> (taken: Result<(), &'static str>)
        ensures
            match taken {
                Ok(_) => lower_all(trim_spec(parameters_of(value@)[0])) == lower_all("form-data"@)
                    && final(self).state() == with_parameters(
                    old(self).state(),
                    parameters_of(value@),
                    1,
                    parameters_of(value@).len() as int,
                ),
                Err(reason) => lower_all(trim_spec(parameters_of(value@)[0])) != lower_all(
                    "form-data"@,
                ) && reason@ == "multipart Content-Disposition must be form-data"@,
            },
    {
        let parameters = parameter_chars(value);
        let ghost views = char_lists(parameters@);
        assert(views[0] == parameters@[0]@);
        if !trimmed_is(parameters[0].as_slice(), "form-data") {
            return Err("multipart Content-Disposition must be form-data");
        }
        let ghost start = self.state();
        let mut index: usize = 1;
        while index < parameters.len()
            invariant
                1 <= index <= parameters@.len(),
                views == char_lists(parameters@),
                self.state() == with_parameters(start, views, 1, index as int),
            decreases parameters@.len() - index,
        {
            assert(views[index as int] == parameters@[index as int]@);
            self.take_parameter(parameters[index].as_slice());
            index += 1;
        }
        Ok(())
    }

    fn take_line(&mut self, line: &[char]) -> (taken: Result<(), &'static str>)
        ensures
            match taken {
                Ok(_) => with_header(old(self).state(), line@) == Ok::<HeaderState, Seq<char>>(
                    final(self).state(),
                ),
                Err(reason) => with_header(old(self).state(), line@) == Err::<
                    HeaderState,
                    Seq<char>,
                >(reason@),
            },
    {
        match cut_chars(line, ':') {
            None => Err("multipart part header is malformed"),
            Some((name, value)) => {
                let header = string_from(name);
                if eq_ignore_ascii_case(header.as_str(), "content-disposition") {
                    self.take_disposition(value)
                } else if eq_ignore_ascii_case(header.as_str(), "content-type") {
                    self.content_type = Some(trimmed(value));
                    Ok(())
                } else {
                    Ok(())
                }
            },
        }
    }
}

fn opt_string(text: &Option<Vec<char>>) -> (string: Option<String>)
    ensures
        opt_text(string) == opt_chars(*text),
{
    match text {
        Some(text) => Some(string_from(text.as_slice())),
        None => None,
    }
}

/// Parses one multipart part's header block.
///
/// The error is the stable reason that both multipart readers report.
pub fn multipart_part_headers(headers: &str) -> (parsed: Result<
    MultipartPartHeaders,
    &'static str,
>)
    ensures
        match parsed {
            Ok(parsed) => part_declared(headers@) == Ok::<PartView, Seq<char>>(parsed@),
            Err(reason) => part_declared(headers@) == Err::<PartView, Seq<char>>(reason@),
        },
{
    let characters = chars_of(headers);
    let lines = crlf_split(characters.as_slice());
    let ghost views = char_lists(lines@);
    let mut draft = HeaderDraft { name: None, file_name: None, content_type: None };
    let mut index: usize = 0;
    while index < lines.len()
        invariant
            index <= lines@.len(),
            views == char_lists(lines@),
            views == crlf_lines(headers@),
            headers_read(views, index as nat) == Ok::<HeaderState, Seq<char>>(draft.state()),
        decreases lines@.len() - index,
    {
        assert(views[index as int] == lines@[index as int]@);
        if let Err(reason) = draft.take_line(lines[index].as_slice()) {
            proof {
                lemma_refusal_stands(views, (index + 1) as nat, views.len());
            }
            return Err(reason);
        }
        index += 1;
    }
    match &draft.name {
        Some(name) => {
            if name.len() == 0 {
                return Err("multipart part has no field name");
            }
            Ok(
                MultipartPartHeaders {
                    name: string_from(name.as_slice()),
                    file_name: opt_string(&draft.file_name),
                    content_type: opt_string(&draft.content_type),
                },
            )
        },
        None => Err("multipart part has no field name"),
    }
}

/// A text with a backslash before every quote and every backslash.
pub open spec fn escaped(text: Seq<char>) -> Seq<char>
    decreases text.len(),
{
    if text.len() == 0 {
        Seq::empty()
    } else if text[0] == '"' || text[0] == '\\' {
        seq!['\\', text[0]] + escaped(text.drop_first())
    } else {
        seq![text[0]] + escaped(text.drop_first())
    }
}

/// A text between quotes.
pub open spec fn quoted(text: Seq<char>) -> Seq<char> {
    seq!['"'] + escaped(text) + seq!['"']
}

/// A quoted text is read back, whatever it holds; a text that does not start with a
/// quote stands for itself.
pub proof fn law_quoted_texts_are_read_back(text: Seq<char>)
    ensures
        unquoted(quoted(text)) == Some(text),
        text.len() > 0 && text[0] == '"' || unquoted(text) == Some(text),
{
    let value = quoted(text);
    assert(value[0] == '"' && value.last() == '"');
    assert(value.subrange(1, value.len() - 1) =~= escaped(text));
    lemma_escapes_taken_off(text);
}

proof fn lemma_escapes_taken_off(text: Seq<char>)
    ensures
        without_escapes(escaped(text)) == Some(text),
    decreases text.len(),
{
    if text.len() > 0 {
        let rest = text.drop_first();
        let value = escaped(text);
        lemma_escapes_taken_off(rest);
        if text[0] == '"' || text[0] == '\\' {
            assert(value[0] == '\\' && value[1] == text[0]);
            assert(value.skip(2) =~= escaped(rest));
        } else {
            assert(value[0] == text[0]);
            assert(value.drop_first() =~= escaped(rest));
        }
        assert(seq![text[0]] + rest =~= text);
    } else {
        assert(text =~= Seq::empty());
    }
}

/// A text goes on the last of some pieces.
spec fn grown(pieces: Seq<Seq<char>>, text: Seq<char>) -> Seq<Seq<char>> {
    pieces.drop_last().push(pieces.last() + text)
}

proof fn lemma_grown_twice(pieces: Seq<Seq<char>>, first: Seq<char>, second: Seq<char>)
    requires
        pieces.len() > 0,
    ensures
        grown(grown(pieces, first), second) == grown(pieces, first + second),
        grown(pieces, Seq::empty()) == pieces,
{
    let once = grown(pieces, first);
    assert(once.drop_last() =~= pieces.drop_last());
    assert(once.last() + second =~= pieces.last() + (first + second));
    assert(pieces.last() + Seq::<char>::empty() =~= pieces.last());
    assert(grown(pieces, Seq::empty()) =~= pieces);
}

proof fn lemma_one_more(value: Seq<char>, character: char)
    ensures
        parameter_state(value).pieces.len() > 0,
        ({
            let before = parameter_state(value);
            let after = parameter_state(value.push(character));
            let splits = character == ';' && !before.quoted && !before.escaped;
            &&& !splits ==> after.pieces == grown(before.pieces, seq![character])
            &&& splits ==> after.pieces == before.pieces.push(Seq::empty())
            &&& after.escaped <==> !before.escaped && character == '\\' && before.quoted
            &&& after.quoted <==> (if !before.escaped && character == '"' {
                !before.quoted
            } else {
                before.quoted
            })
        }),
    decreases value.len(),
{
    if value.len() > 0 {
        lemma_one_more(value.drop_last(), value.last());
        assert(value =~= value.drop_last().push(value.last()));
    }
    let before = parameter_state(value);
    assert(value.push(character).drop_last() =~= value);
    assert(before.pieces.last() + seq![character] =~= before.pieces.last().push(character));
}

/// Nothing is lost of a header value: its parameters, with semicolons between, are
/// the value.
pub proof fn law_parameters_join_to_the_value(value: Seq<char>)
    ensures
        parameters_of(value).len() > 0,
        joined_by(parameters_of(value), ';') == value,
    decreases value.len(),
{
    if value.len() == 0 {
        assert(parameters_of(value)[0] =~= value);
    } else {
        let shorter = value.drop_last();
        let last = value.last();
        law_parameters_join_to_the_value(shorter);
        lemma_one_more(shorter, last);
        assert(value =~= shorter.push(last));
        let before = parameters_of(shorter);
        let after = parameters_of(value);
        if after == before.push(Seq::empty()) && last == ';' {
            assert(after.drop_last() =~= before);
            assert(joined_by(after, ';') =~= value);
        } else {
            assert(after == grown(before, seq![last]));
            assert(after.drop_last() =~= before.drop_last());
            if before.len() == 1 {
                assert(after[0] == after.last() && before[0] == before.last());
                assert(joined_by(after, ';') =~= value);
            } else {
                assert(joined_by(after, ';') =~= value);
            }
        }
    }
}

/// A value without quotes is split at every semicolon.
pub proof fn law_plain_values_are_split_at_semicolons(value: Seq<char>)
    requires
        !value.contains('"'),
    ensures
        parameters_of(value) == split_spec(value, ';'),
        !parameter_state(value).quoted && !parameter_state(value).escaped,
    decreases value.len(),
{
    if value.len() > 0 {
        let shorter = value.drop_last();
        assert(value[value.len() - 1] == value.last());
        if shorter.contains('"') {
            let i = choose|i: int| 0 <= i < shorter.len() && shorter[i] == '"';
            assert(value[i] == '"');
        }
        law_plain_values_are_split_at_semicolons(shorter);
    }
}

/// What stands between quotes is never split: behind a value in which no quote is
/// open, a quoted text belongs to the last parameter as a whole.
pub proof fn law_quoted_texts_are_not_split(value: Seq<char>, text: Seq<char>)
    requires
        !parameter_state(value).quoted,
        !parameter_state(value).escaped,
    ensures
        ({
            let before = parameters_of(value);
            let after = parameters_of(value + quoted(text));
            &&& before.len() > 0 && after.len() == before.len()
            &&& after.last() == before.last() + quoted(text)
            &&& after.drop_last() == before.drop_last()
        }),
        !parameter_state(value + quoted(text)).quoted,
        !parameter_state(value + quoted(text)).escaped,
{
    let opened = value.push('"');
    let run = opened + escaped(text);
    lemma_one_more(value, '"');
    lemma_quoted_run(opened, text);
    lemma_one_more(run, '"');
    assert(value + quoted(text) =~= run.push('"'));
    let before = parameters_of(value);
    lemma_grown_twice(before, seq!['"'], escaped(text));
    lemma_grown_twice(before, seq!['"'] + escaped(text), seq!['"']);
    assert(parameters_of(value + quoted(text)) == grown(before, quoted(text)));
    assert(grown(before, quoted(text)).drop_last() =~= before.drop_last());
}

proof fn lemma_quoted_run(value: Seq<char>, text: Seq<char>)
    requires
        parameter_state(value).quoted,
        !parameter_state(value).escaped,
    ensures
        parameter_state(value + escaped(text)).quoted,
        !parameter_state(value + escaped(text)).escaped,
        parameters_of(value + escaped(text)) == grown(parameters_of(value), escaped(text)),
    decreases text.len(),
{
    let pieces = parameters_of(value);
    lemma_one_more(value, 'a');
    if text.len() == 0 {
        assert(value + escaped(text) =~= value);
        lemma_grown_twice(pieces, Seq::empty(), Seq::empty());
    } else {
        let rest = text.drop_first();
        let first = text[0];
        if first == '"' || first == '\\' {
            let slashed = value.push('\\');
            let both = slashed.push(first);
            lemma_one_more(value, '\\');
            lemma_one_more(slashed, first);
            lemma_grown_twice(pieces, seq!['\\'], seq![first]);
            assert(seq!['\\'] + seq![first] =~= seq!['\\', first]);
            lemma_quoted_run(both, rest);
            lemma_grown_twice(pieces, seq!['\\', first], escaped(rest));
            assert(value + escaped(text) =~= both + escaped(rest));
        } else {
            let one = value.push(first);
            lemma_one_more(value, first);
            lemma_quoted_run(one, rest);
            lemma_grown_twice(pieces, seq![first], escaped(rest));
            assert(value + escaped(text) =~= one + escaped(rest));
        }
    }
}

proof fn lemma_trimmed_is(text: Seq<char>, from: int, to: int)
    requires
        0 <= from < to <= text.len(),
        forall|i: int| 0 <= i < from ==> white_spec(#[trigger] text[i]),
        forall|i: int| to <= i < text.len() ==> white_spec(#[trigger] text[i]),
        !white_spec(text[from]),
        !white_spec(text[to - 1]),
    ensures
        trim_spec(text) == text.subrange(from, to),
{
    let ends = law_trimming_takes_off_white_space(text);
    assert(ends.0 < ends.1);
}

proof fn lemma_two_pieces(head: Seq<char>, tail: Seq<char>)
    requires
        !head.contains(';'),
        !tail.contains(';'),
    ensures
        split_spec(head.push(';') + tail, ';') == seq![head, tail],
{
    let pieces = seq![head, tail];
    assert(pieces.drop_last() =~= seq![head]);
    assert(joined_by(seq![head], ';') == head);
    assert(joined_by(pieces, ';') == head.push(';') + tail);
    assert forall|i: int, j: int| 0 <= i < pieces.len() && 0 <= j < pieces[i].len() implies (
    #[trigger] pieces[i][j]) != ';' by {
        assert(pieces[i].contains(pieces[i][j]));
    }
    law_joined_texts_are_split_again(pieces, ';');
}

/// The boundary of a content type is the one that it declares, where that is valid.
pub proof fn law_boundaries_are_those_declared(boundary: Seq<char>)
    requires
        valid_boundary(boundary),
        !boundary.contains(';'),
        !boundary.contains('"'),
    ensures
        boundary_of("multipart/form-data; boundary="@ + boundary) == Some(boundary),
{
    let kind = "multipart/form-data"@;
    let name = " boundary"@;
    let value = "multipart/form-data; boundary="@ + boundary;
    let parameter = name.push('=') + boundary;
    reveal_strlit("multipart/form-data");
    reveal_strlit(" boundary");
    reveal_strlit("boundary");
    reveal_strlit("multipart/form-data; boundary=");
    assert("multipart/form-data; boundary="@ =~= kind.push(';') + name.push('='));
    assert(value =~= kind.push(';') + parameter);
    assert forall|i: int| 0 <= i < value.len() implies value[i] != '"' by {
        if i >= 30 {
            assert(value[i] == boundary[i - 30]);
            assert(boundary.contains(boundary[i - 30]));
        }
    }
    assert forall|i: int| 0 <= i < parameter.len() implies parameter[i] != ';' by {
        if i >= 10 {
            assert(parameter[i] == boundary[i - 10]);
            assert(boundary.contains(boundary[i - 10]));
        }
    }
    law_plain_values_are_split_at_semicolons(value);
    lemma_two_pieces(kind, parameter);
    let parameters = parameters_of(value);
    assert(parameters[0] == kind && parameters[1] == parameter && parameters.len() == 2);
    law_halves_are_cut_apart(name, boundary, '=');
    law_visible_characters_are_no_white_space('m');
    law_visible_characters_are_no_white_space('a');
    law_visible_characters_are_no_white_space('b');
    law_visible_characters_are_no_white_space('y');
    lemma_trimmed_is(kind, 0, kind.len() as int);
    assert(kind.subrange(0, kind.len() as int) =~= kind);
    lemma_trimmed_is(name, 1, name.len() as int);
    assert(name.subrange(1, name.len() as int) =~= "boundary"@);
    assert(' ' < boundary[0] < '\x7f' && ' ' < boundary[boundary.len() - 1] < '\x7f');
    law_visible_characters_are_no_white_space(boundary[0]);
    law_visible_characters_are_no_white_space(boundary[boundary.len() - 1]);
    lemma_trimmed_is(boundary, 0, boundary.len() as int);
    assert(boundary.subrange(0, boundary.len() as int) =~= boundary);
    assert(boundary.contains(boundary[0]));
    law_quoted_texts_are_read_back(boundary);
}

proof fn lemma_one_line(text: Seq<char>)
    requires
        !text.contains('\n'),
    ensures
        crlf_lines(text) == seq![text],
    decreases text.len(),
{
    if text.len() > 0 {
        let shorter = text.drop_last();
        assert(text[text.len() - 1] == text.last());
        if shorter.contains('\n') {
            let i = choose|i: int| 0 <= i < shorter.len() && shorter[i] == '\n';
            assert(text[i] == '\n');
        }
        lemma_one_line(shorter);
        assert(shorter.push(text.last()) =~= text);
        assert(crlf_lines(text) =~= seq![text]);
    } else {
        assert(text =~= Seq::empty());
    }
}

proof fn lemma_escaped_lines(text: Seq<char>)
    requires
        !text.contains('\n'),
    ensures
        !escaped(text).contains('\n'),
    decreases text.len(),
{
    if text.len() > 0 {
        let rest = text.drop_first();
        assert(text.contains(text[0]));
        if rest.contains('\n') {
            let i = choose|i: int| 0 <= i < rest.len() && rest[i] == '\n';
            assert(text[i + 1] == '\n');
        }
        lemma_escaped_lines(rest);
        let value = escaped(text);
        assert forall|i: int| 0 <= i < value.len() implies value[i] != '\n' by {
            let skipped: int = if text[0] == '"' || text[0] == '\\' {
                2
            } else {
                1
            };
            if i >= skipped {
                assert(value[i] == escaped(rest)[i - skipped]);
                assert(escaped(rest).contains(value[i]));
            }
        }
    }
}

/// A part goes by the name that its headers declare, whatever that holds.
pub proof fn law_parts_go_by_their_declared_name(name: Seq<char>)
    requires
        name.len() > 0,
        !name.contains('\n'),
    ensures
        part_declared("Content-Disposition: form-data; name="@ + quoted(name)) == Ok::<
            PartView,
            Seq<char>,
        >(PartView { name, file_name: None, content_type: None }),
{
    let header = "Content-Disposition"@;
    let kind = " form-data"@;
    let key = " name"@;
    let lead = " form-data; name="@;
    let value = lead + quoted(name);
    let line = "Content-Disposition: form-data; name="@ + quoted(name);
    let parameter = key.push('=') + quoted(name);
    reveal_strlit("Content-Disposition");
    reveal_strlit("content-disposition");
    reveal_strlit(" form-data");
    reveal_strlit("form-data");
    reveal_strlit(" name");
    reveal_strlit("name");
    reveal_strlit(" form-data; name=");
    reveal_strlit("Content-Disposition: form-data; name=");
    assert("Content-Disposition: form-data; name="@ =~= header.push(':') + lead);
    assert(line =~= header.push(':') + value);
    lemma_escaped_lines(name);
    assert forall|i: int| 0 <= i < line.len() implies line[i] != '\n' by {
        let at = i - 37;
        if at >= 0 {
            assert(line[i] == quoted(name)[at]);
            if 0 < at < quoted(name).len() - 1 {
                assert(quoted(name)[at] == escaped(name)[at - 1]);
                assert(escaped(name).contains(escaped(name)[at - 1]));
            }
        }
    }
    lemma_one_line(line);
    let lines = crlf_lines(line);
    assert(lines.len() == 1 && lines[0] == line);
    law_halves_are_cut_apart(header, value, ':');
    assert(lower_all(header) =~= lower_all("content-disposition"@));
    assert(lead =~= kind.push(';') + key.push('='));
    law_plain_values_are_split_at_semicolons(lead);
    lemma_two_pieces(kind, key.push('='));
    law_quoted_texts_are_not_split(lead, name);
    let parameters = parameters_of(value);
    assert(parameters_of(lead).len() == 2 && parameters.len() == 2);
    assert(parameters[1] == parameters.last() && parameters[0] == parameters.drop_last()[0]);
    assert(parameters_of(lead)[0] == parameters_of(lead).drop_last()[0]);
    assert(parameters[0] == kind);
    assert(parameters[1] =~= parameter);
    law_visible_characters_are_no_white_space('f');
    law_visible_characters_are_no_white_space('a');
    law_visible_characters_are_no_white_space('n');
    law_visible_characters_are_no_white_space('e');
    law_visible_characters_are_no_white_space('"');
    lemma_trimmed_is(kind, 1, kind.len() as int);
    assert(kind.subrange(1, kind.len() as int) =~= "form-data"@);
    law_halves_are_cut_apart(key, quoted(name), '=');
    lemma_trimmed_is(key, 1, key.len() as int);
    assert(key.subrange(1, key.len() as int) =~= "name"@);
    let marked = quoted(name);
    assert(marked[0] == '"' && marked[marked.len() - 1] == '"');
    lemma_trimmed_is(marked, 0, marked.len() as int);
    assert(marked.subrange(0, marked.len() as int) =~= marked);
    law_quoted_texts_are_read_back(name);
    let none = HeaderState { name: None, file_name: None, content_type: None };
    reveal_with_fuel(with_parameters, 3);
    reveal_with_fuel(headers_read, 3);
    assert(with_parameter(none, parameters[1]) == (HeaderState { name: Some(name), ..none }));
    assert(with_header(none, line) == Ok::<HeaderState, Seq<char>>(
        HeaderState { name: Some(name), ..none },
    ));
}

} // verus!
