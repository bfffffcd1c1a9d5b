//! Where the parts of a `multipart/form-data` body begin and end.
use crate::multipart::{
    multipart_part_headers, part_declared, MultipartPartHeaders, PartView, MAX_MULTIPART_HEADER_BYTES,
    MAX_MULTIPART_PARTS,
};
use crate::url::{text_from_bytes, text_of};
use vstd::prelude::*;
use vstd::string::*;
use vstd::utf8::encode_utf8;

verus! {

// ---------------------------------------------------------------------------
// Searching bytes
// ---------------------------------------------------------------------------

/// The first position at which a byte stands, as `memchr::memchr` reports it.
#[verifier::external_body]
fn byte_position(needle: u8, haystack: &[u8]) -> (found: Option<usize>)
    ensures
        match found {
            Some(index) => {
                &&& index < haystack@.len()
                &&& haystack@[index as int] == needle
                &&& forall|i: int| 0 <= i < index ==> #[trigger] haystack@[i] != needle
            },
            None => forall|i: int| 0 <= i < haystack@.len() ==> #[trigger] haystack@[i] != needle,
        },
{
    memchr::memchr(needle, haystack)
}

/// One byte string stands in another at a position.
pub open spec fn occurs_at(haystack: Seq<u8>, needle: Seq<u8>, at: int) -> bool {
    &&& 0 <= at
    &&& at + needle.len() <= haystack.len()
    &&& haystack.subrange(at, at + needle.len()) == needle
}

/// The first position, from one on, at which a byte string stands in another.
pub open spec fn first_match(haystack: Seq<u8>, needle: Seq<u8>, from: int) -> Option<int>
    decreases haystack.len() - from + 1,
{
    if from + needle.len() > haystack.len() {
        None
    } else if occurs_at(haystack, needle, from) {
        Some(from)
    } else {
        first_match(haystack, needle, from + 1)
    }
}

/// The first match of a byte string that is not empty.
pub open spec fn found_bytes(haystack: Seq<u8>, needle: Seq<u8>, from: int) -> Option<int> {
    if needle.len() == 0 {
        None
    } else {
        first_match(haystack, needle, from)
    }
}

proof fn lemma_no_match_skips(haystack: Seq<u8>, needle: Seq<u8>, from: int, until: int)
    requires
        0 <= from <= until,
        forall|i: int| from <= i < until ==> !occurs_at(haystack, needle, i),
    ensures
        first_match(haystack, needle, from) == first_match(haystack, needle, until),
    decreases until - from,
{
    if from < until {
        assert(!occurs_at(haystack, needle, from));
        lemma_no_match_skips(haystack, needle, from + 1, until);
        if from + needle.len() > haystack.len() {
            assert(first_match(haystack, needle, until) is None);
        }
    }
}

/// A match is where the search says, and nowhere before it.
pub proof fn lemma_first_match(haystack: Seq<u8>, needle: Seq<u8>, from: int)
    ensures
        match first_match(haystack, needle, from) {
            Some(at) => {
                &&& from <= at
                &&& occurs_at(haystack, needle, at)
                &&& forall|i: int| from <= i < at ==> !occurs_at(haystack, needle, i)
            },
            None => forall|i: int| from <= i ==> !occurs_at(haystack, needle, i),
        },
    decreases haystack.len() - from + 1,
{
    if from + needle.len() > haystack.len() {
    } else if occurs_at(haystack, needle, from) {
    } else {
        lemma_first_match(haystack, needle, from + 1);
    }
}

fn bytes_match(haystack: &[u8], needle: &[u8], at: usize) -> (matches: bool)
    requires
        at + needle@.len() <= haystack@.len(),
    ensures
        matches == occurs_at(haystack@, needle@, at as int),
{
    let ghost window = haystack@.subrange(at as int, at + needle@.len());
    let count: usize = haystack.len();
    let mut index: usize = 0;
    while index < needle.len()
        invariant
            index <= needle@.len(),
            count == haystack@.len(),
            at + needle@.len() <= haystack@.len(),
            window == haystack@.subrange(at as int, at + needle@.len()),
            forall|i: int| 0 <= i < index ==> #[trigger] window[i] == needle@[i],
        decreases needle@.len() - index,
    {
        if haystack[at + index] != needle[index] {
            assert(window[index as int] != needle@[index as int]);
            return false;
        }
        assert(window[index as int] == needle@[index as int]);
        index += 1;
    }
    assert(window =~= needle@);
    true
}

/// Finds `needle` in `haystack` at or after `from`.
///
/// The scan looks for the first byte and only then compares the rest, so a
/// large body costs one pass over the data.
#[must_use]
pub fn find_bytes(haystack: &[u8], needle: &[u8], from: usize) -> (found: Option<usize>)
    ensures
        match found {
            Some(at) => found_bytes(haystack@, needle@, from as int) == Some(at as int),
            None => found_bytes(haystack@, needle@, from as int) is None,
        },
{
    if needle.len() == 0 || needle.len() > haystack.len() {
        return None;
    }
    let first = needle[0];
    let count: usize = haystack.len();
    let last_start: usize = count - needle.len();
    let mut position: usize = from;
    while position <= last_start
        invariant
            needle@.len() > 0,
            first == needle@[0],
            count == haystack@.len(),
            last_start + needle@.len() == count,
            from <= position,
            position <= last_start || position <= from || position == last_start + 1,
            first_match(haystack@, needle@, from as int) == first_match(
                haystack@,
                needle@,
                position as int,
            ),
        decreases last_start + 1 - position,
    {
        let window = vstd::slice::slice_subrange(haystack, position, last_start + 1);
        match byte_position(first, window) {
            None => {
                proof {
                    assert forall|i: int| position <= i < last_start + 1 implies !occurs_at(
                        haystack@,
                        needle@,
                        i,
                    ) by {
                        assert(window@[i - position] == haystack@[i]);
                        if occurs_at(haystack@, needle@, i) {
                            assert(haystack@.subrange(i, i + needle@.len())[0] == haystack@[i]);
                        }
                    }
                    lemma_no_match_skips(haystack@, needle@, position as int, last_start + 1);
                }
                return None;
            },
            Some(offset) => {
                let candidate: usize = position + offset;
                proof {
                    assert forall|i: int| position <= i < candidate implies !occurs_at(
                        haystack@,
                        needle@,
                        i,
                    ) by {
                        assert(window@[i - position] == haystack@[i]);
                        if occurs_at(haystack@, needle@, i) {
                            assert(haystack@.subrange(i, i + needle@.len())[0] == haystack@[i]);
                        }
                    }
                    lemma_no_match_skips(haystack@, needle@, position as int, candidate as int);
                }
                if bytes_match(haystack, needle, candidate) {
                    return Some(candidate);
                }
                position = candidate + 1;
            },
        }
    }
    None
}

// ---------------------------------------------------------------------------
// Boundaries
// ---------------------------------------------------------------------------

/// Carriage return and line feed.
pub open spec fn line_break() -> Seq<u8> {
    seq![13u8, 10u8]
}

/// The two hyphens that close a document.
pub open spec fn dashes() -> Seq<u8> {
    seq![45u8, 45u8]
}

/// The empty line that ends a header block.
pub open spec fn blank_line() -> Seq<u8> {
    seq![13u8, 10u8, 13u8, 10u8]
}

/// What every boundary between two parts starts with.
pub open spec fn boundary_lead() -> Seq<u8> {
    seq![13u8, 10u8, 45u8, 45u8]
}

/// The bytes that announce a boundary: two hyphens and the declared text.
pub open spec fn delimiter_of(boundary: Seq<char>) -> Seq<u8> {
    dashes() + encode_utf8(boundary)
}

/// A delimiter starts with two hyphens.
pub open spec fn is_delimiter(delimiter: Seq<u8>) -> bool {
    &&& delimiter.len() >= 2
    &&& delimiter[0] == 45
    &&& delimiter[1] == 45
}

/// A boundary stands in the body at a position: a line break, the delimiter,
/// and then a line break or two hyphens.
pub open spec fn is_boundary(body: Seq<u8>, delimiter: Seq<u8>, at: int) -> bool {
    let suffix = at + 2 + delimiter.len();
    &&& occurs_at(body, line_break(), at)
    &&& occurs_at(body, delimiter, at + 2)
    &&& occurs_at(body, line_break(), suffix) || occurs_at(body, dashes(), suffix)
}

/// The first boundary from one position on: where a part's data ends.
pub open spec fn part_end(body: Seq<u8>, delimiter: Seq<u8>, from: int) -> Option<int>
    decreases body.len() - from + 1,
{
    if from > body.len() {
        None
    } else if is_boundary(body, delimiter, from) {
        Some(from)
    } else {
        part_end(body, delimiter, from + 1)
    }
}

/// A part ends at its first boundary.
pub proof fn lemma_part_end(body: Seq<u8>, delimiter: Seq<u8>, from: int)
    ensures
        match part_end(body, delimiter, from) {
            Some(at) => {
                &&& from <= at
                &&& is_boundary(body, delimiter, at)
                &&& forall|i: int| from <= i < at ==> !is_boundary(body, delimiter, i)
            },
            None => forall|i: int| from <= i ==> !is_boundary(body, delimiter, i),
        },
    decreases body.len() - from + 1,
{
    if from > body.len() {
    } else if is_boundary(body, delimiter, from) {
    } else {
        lemma_part_end(body, delimiter, from + 1);
    }
}

/// The first boundary is the only position with nothing before it.
pub proof fn lemma_part_end_is(body: Seq<u8>, delimiter: Seq<u8>, from: int, at: int)
    requires
        from <= at,
        is_boundary(body, delimiter, at),
        forall|i: int| from <= i < at ==> !is_boundary(body, delimiter, i),
    ensures
        part_end(body, delimiter, from) == Some(at),
{
    lemma_part_end(body, delimiter, from);
}

proof fn lemma_boundary_leads(body: Seq<u8>, delimiter: Seq<u8>, at: int)
    requires
        is_delimiter(delimiter),
        is_boundary(body, delimiter, at),
    ensures
        occurs_at(body, boundary_lead(), at),
{
    let window = body.subrange(at, at + 4);
    assert(body.subrange(at, at + 2)[0] == body[at]);
    assert(body.subrange(at, at + 2)[1] == body[at + 1]);
    assert(body.subrange(at + 2, at + 2 + delimiter.len())[0] == body[at + 2]);
    assert(body.subrange(at + 2, at + 2 + delimiter.len())[1] == body[at + 3]);
    assert(window =~= boundary_lead());
}

/// Two boundary leads are not one byte apart.
proof fn lemma_leads_apart(body: Seq<u8>, at: int)
    requires
        occurs_at(body, boundary_lead(), at),
    ensures
        !occurs_at(body, boundary_lead(), at + 1),
        occurs_at(body, line_break(), at),
{
    let window = body.subrange(at, at + 4);
    assert(window[1] == body[at + 1]);
    assert(window[0] == body[at]);
    assert(body.subrange(at, at + 2) =~= line_break());
    if occurs_at(body, boundary_lead(), at + 1) {
        assert(body.subrange(at + 1, at + 5)[0] == body[at + 1]);
    }
}

/// Whether one byte string stands in another at a position.
pub(crate) fn stands_at(haystack: &[u8], needle: &[u8], at: usize) -> (stands: bool)
    ensures
        stands == occurs_at(haystack@, needle@, at as int),
{
    if at > haystack.len() || needle.len() > haystack.len() - at {
        return false;
    }
    bytes_match(haystack, needle, at)
}

fn line_break_bytes() -> (bytes: Vec<u8>)
    ensures
        bytes@ == line_break(),
{
    let bytes: Vec<u8> = vec![13, 10];
    assert(bytes@ =~= line_break());
    bytes
}

fn dash_bytes() -> (bytes: Vec<u8>)
    ensures
        bytes@ == dashes(),
{
    let bytes: Vec<u8> = vec![45, 45];
    assert(bytes@ =~= dashes());
    bytes
}

fn blank_line_bytes() -> (bytes: Vec<u8>)
    ensures
        bytes@ == blank_line(),
{
    let bytes: Vec<u8> = vec![13, 10, 13, 10];
    assert(bytes@ =~= blank_line());
    bytes
}

fn boundary_lead_bytes() -> (bytes: Vec<u8>)
    ensures
        bytes@ == boundary_lead(),
{
    let bytes: Vec<u8> = vec![13, 10, 45, 45];
    assert(bytes@ =~= boundary_lead());
    bytes
}

/// The delimiter that a boundary text announces.
pub(crate) fn delimiter_bytes(boundary: &str) -> (delimiter: Vec<u8>)
    ensures
        delimiter@ == delimiter_of(boundary@),
        is_delimiter(delimiter@),
{
    let mut delimiter = dash_bytes();
    delimiter.extend_from_slice(boundary.as_bytes());
    assert(delimiter@ =~= delimiter_of(boundary@));
    delimiter
}

/// Looks for the boundary that ends a part's data.
fn find_multipart_boundary(body: &[u8], delimiter: &[u8], from: usize) -> (found: Option<usize>)
    requires
        is_delimiter(delimiter@),
    ensures
        match found {
            Some(at) => part_end(body@, delimiter@, from as int) == Some(at as int),
            None => part_end(body@, delimiter@, from as int) is None,
        },
{
    let lead = boundary_lead_bytes();
    let line = line_break_bytes();
    let close = dash_bytes();
    let count: usize = body.len();
    let mut position: usize = from;
    loop
        invariant
            is_delimiter(delimiter@),
            lead@ == boundary_lead(),
            line@ == line_break(),
            close@ == dashes(),
            count == body@.len(),
            from <= position,
            position <= count || position == from,
            forall|i: int| from <= i < position ==> !is_boundary(body@, delimiter@, i),
        decreases count + 1 - position,
    {
        let candidate = find_bytes(body, lead.as_slice(), position);
        proof {
            lemma_first_match(body@, boundary_lead(), position as int);
            assert forall|i: int|
                from <= i && is_boundary(body@, delimiter@, i) implies occurs_at(
                body@,
                boundary_lead(),
                i,
            ) by {
                lemma_boundary_leads(body@, delimiter@, i);
            }
        }
        match candidate {
            None => {
                proof {
                    lemma_part_end(body@, delimiter@, from as int);
                }
                return None;
            },
            Some(at) => {
                proof {
                    lemma_leads_apart(body@, at as int);
                }
                let start: usize = at + 2;
                if stands_at(body, delimiter, start) {
                    let suffix: usize = start + delimiter.len();
                    if stands_at(body, line.as_slice(), suffix) || stands_at(
                        body,
                        close.as_slice(),
                        suffix,
                    ) {
                        proof {
                            lemma_part_end_is(body@, delimiter@, from as int, at as int);
                        }
                        return Some(at);
                    }
                }
                position = start;
            },
        }
    }
}

// ---------------------------------------------------------------------------
// Whole documents
// ---------------------------------------------------------------------------

/// One part of a buffered body.
#[derive(Clone, Debug, PartialEq, Eq)]
pub struct MultipartPart {
    pub headers: MultipartPartHeaders,
    pub bytes: Vec<u8>,
}

/// What one part of a body holds.
#[verifier::ext_equal]
pub struct PartContent {
    pub headers: PartView,
    pub bytes: Seq<u8>,
}

impl View for MultipartPart {
    type V = PartContent;

    open spec fn view(&self) -> PartContent {
        PartContent { headers: self.headers@, bytes: self.bytes@ }
    }
}

pub open spec fn parts_view(parts: Seq<MultipartPart>) -> Seq<PartContent> {
    parts.map_values(|part: MultipartPart| part@)
}

/// The header block at a position and where its part's data begins, or the
/// reason it is refused.
pub open spec fn part_headers_at(body: Seq<u8>, from: int) -> Result<(PartView, int), Seq<char>> {
    match first_match(body, blank_line(), from) {
        None => Err("multipart part headers are incomplete"@),
        Some(end) => if end - from > MAX_MULTIPART_HEADER_BYTES {
            Err("multipart part headers exceed the configured limit"@)
        } else {
            match text_of(body.subrange(from, end)) {
                None => Err("multipart part headers are not valid UTF-8"@),
                Some(headers) => match part_declared(headers) {
                    Err(reason) => Err(reason),
                    Ok(part) => Ok((part, end + 4)),
                },
            }
        },
    }
}

/// The parts read before a position and those from it on, or the reason the
/// body is refused.
pub open spec fn parts_from(
    body: Seq<u8>,
    delimiter: Seq<u8>,
    from: int,
    read: Seq<PartContent>,
) -> Result<Seq<PartContent>, Seq<char>>
    decreases body.len() - from,
{
    match part_headers_at(body, from) {
        Err(reason) => Err(reason),
        Ok((part, start)) => match part_end(body, delimiter, start) {
            None => Err("multipart part has no closing boundary"@),
            Some(end) => {
                let parts = read.push(
                    PartContent { headers: part, bytes: body.subrange(start, end) },
                );
                let suffix = end + 2 + delimiter.len();
                if parts.len() > MAX_MULTIPART_PARTS {
                    Err("multipart body contains too many parts"@)
                } else if occurs_at(body, dashes(), suffix) {
                    Ok(parts)
                } else if !occurs_at(body, line_break(), suffix) {
                    Err("multipart boundary is malformed"@)
                } else {
                    proof {
                        lemma_first_match(body, blank_line(), from);
                        lemma_part_end(body, delimiter, start);
                    }
                    parts_from(body, delimiter, suffix + 2, parts)
                }
            },
        },
    }
}

/// The parts of a body, or the reason it is refused.
pub open spec fn document(body: Seq<u8>, delimiter: Seq<u8>) -> Result<
    Seq<PartContent>,
    Seq<char>,
> {
    if !occurs_at(body, delimiter, 0) {
        Err("multipart body does not start with its declared boundary"@)
    } else if occurs_at(body, dashes(), delimiter.len() as int) {
        Ok(Seq::empty())
    } else if !occurs_at(body, line_break(), delimiter.len() as int) {
        Err("multipart boundary is malformed"@)
    } else {
        parts_from(body, delimiter, delimiter.len() as int + 2, Seq::empty())
    }
}

fn read_part_headers(body: &[u8], from: usize) -> (read: Result<
    (MultipartPartHeaders, usize),
    &'static str,
>)
    requires
        from <= body@.len(),
    ensures
        match read {
            Ok((headers, start)) => {
                &&& part_headers_at(body@, from as int) == Ok::<(PartView, int), Seq<char>>(
                    (headers@, start as int),
                )
                &&& from + 4 <= start <= body@.len()
            },
            Err(reason) => part_headers_at(body@, from as int) == Err::<(PartView, int), Seq<char>>(
                reason@,
            ),
        },
{
    let blank = blank_line_bytes();
    let count: usize = body.len();
    match find_bytes(body, blank.as_slice(), from) {
        None => Err("multipart part headers are incomplete"),
        Some(end) => {
            proof {
                lemma_first_match(body@, blank_line(), from as int);
            }
            if end - from > MAX_MULTIPART_HEADER_BYTES {
                return Err("multipart part headers exceed the configured limit");
            }
            let block = vstd::slice::slice_to_vec(vstd::slice::slice_subrange(body, from, end));
            match text_from_bytes(block) {
                None => Err("multipart part headers are not valid UTF-8"),
                Some(text) => match multipart_part_headers(text.as_str()) {
                    Ok(headers) => {
                        assert(end + 4 <= count);
                        Ok((headers, end + 4))
                    },
                    Err(reason) => Err(reason),
                },
            }
        },
    }
}

/// Reads the parts of a whole `multipart/form-data` body.
pub fn parse_multipart(body: &[u8], boundary: &str) -> (parsed: Result<
    Vec<MultipartPart>,
    &'static str,
>)
    ensures
        match parsed {
            Ok(parts) => document(body@, delimiter_of(boundary@)) == Ok::<
                Seq<PartContent>,
                Seq<char>,
            >(parts_view(parts@)),
            Err(reason) => document(body@, delimiter_of(boundary@)) == Err::<
                Seq<PartContent>,
                Seq<char>,
            >(reason@),
        },
{
    let delimiter = delimiter_bytes(boundary);
    let line = line_break_bytes();
    let close = dash_bytes();
    let ghost marks = delimiter@;
    let count: usize = body.len();
    if !stands_at(body, delimiter.as_slice(), 0) {
        return Err("multipart body does not start with its declared boundary");
    }
    let mut position: usize = delimiter.len();
    let mut parts: Vec<MultipartPart> = Vec::new();
    assert(parts_view(parts@) =~= Seq::empty());
    if stands_at(body, close.as_slice(), position) {
        return Ok(parts);
    }
    if !stands_at(body, line.as_slice(), position) {
        return Err("multipart boundary is malformed");
    }
    assert(position + 2 <= count);
    position = position + 2;
    loop
        invariant
            is_delimiter(marks),
            marks == delimiter_of(boundary@),
            delimiter@ == marks,
            line@ == line_break(),
            close@ == dashes(),
            count == body@.len(),
            position <= count,
            document(body@, marks) == parts_from(
                body@,
                marks,
                position as int,
                parts_view(parts@),
            ),
        decreases body@.len() - position,
    {
        let (headers, start) = match read_part_headers(body, position) {
            Ok(read) => read,
            Err(reason) => {
                return Err(reason);
            },
        };
        let end = match find_multipart_boundary(body, delimiter.as_slice(), start) {
            Some(end) => end,
            None => {
                return Err("multipart part has no closing boundary");
            },
        };
        proof {
            lemma_part_end(body@, marks, start as int);
        }
        let data = vstd::slice::slice_to_vec(vstd::slice::slice_subrange(body, start, end));
        let ghost before = parts_view(parts@);
        let part = MultipartPart { headers, bytes: data };
        proof {
            assert(parts_view(parts@.push(part)) =~= before.push(part@));
        }
        parts.push(part);
        if parts.len() > MAX_MULTIPART_PARTS {
            return Err("multipart body contains too many parts");
        }
        assert(end + 2 + marks.len() <= count);
        position = end + 2 + delimiter.len();
        if stands_at(body, close.as_slice(), position) {
            return Ok(parts);
        }
        if !stands_at(body, line.as_slice(), position) {
            return Err("multipart boundary is malformed");
        }
        position = position + 2;
    }
}

/// A part as it is written: its headers, and its bytes.
pub struct Frame {
    pub headers: Seq<u8>,
    pub bytes: Seq<u8>,
}

/// What follows a delimiter: the parts that are left, each on a line of its own and
/// with a blank line between headers and bytes, and two dashes behind the last.
pub open spec fn framed(frames: Seq<Frame>, delimiter: Seq<u8>) -> Seq<u8>
    decreases frames.len(),
{
    if frames.len() == 0 {
        dashes()
    } else {
        line_break() + frames[0].headers + blank_line() + frames[0].bytes + line_break() + delimiter
            + framed(frames.drop_first(), delimiter)
    }
}

/// A part can be written: its headers are read as those of a part and hold no blank
/// line, and its bytes do not hold the delimiter on a line.
pub open spec fn can_be_framed(frame: Frame, delimiter: Seq<u8>) -> bool {
    &&& frame.headers.len() <= MAX_MULTIPART_HEADER_BYTES
    &&& text_of(frame.headers) matches Some(text) && part_declared(text) is Ok
    &&& forall|j: int|
        0 <= j < frame.headers.len() ==> !#[trigger] occurs_at(
            frame.headers + blank_line(),
            blank_line(),
            j,
        )
    &&& forall|j: int|
        0 <= j < frame.bytes.len() ==> !#[trigger] occurs_at(
            frame.bytes + line_break() + delimiter,
            line_break() + delimiter,
            j,
        )
}

/// What a written part is read as.
pub open spec fn part_framed(frame: Frame) -> PartContent {
    PartContent {
        headers: part_declared(text_of(frame.headers)->Some_0)->Ok_0,
        bytes: frame.bytes,
    }
}

/// Written parts are read back: a document of parts between delimiters gives those
/// parts, with their headers and their bytes, in order, as long as there are not
/// too many of them.
pub proof fn law_written_parts_are_read_back(frames: Seq<Frame>, delimiter: Seq<u8>)
    requires
        frames.len() <= MAX_MULTIPART_PARTS,
        forall|i: int| 0 <= i < frames.len() ==> can_be_framed(#[trigger] frames[i], delimiter),
    ensures
        document(delimiter + framed(frames, delimiter), delimiter) == Ok::<
            Seq<PartContent>,
            Seq<char>,
        >(frames.map_values(|frame: Frame| part_framed(frame))),
{
    let body = delimiter + framed(frames, delimiter);
    let parts = frames.map_values(|frame: Frame| part_framed(frame));
    assert(body.subrange(0, delimiter.len() as int) =~= delimiter);
    if frames.len() == 0 {
        assert(body.subrange(delimiter.len() as int, delimiter.len() as int + 2) =~= dashes());
        assert(parts =~= Seq::empty());
    } else {
        let lead = delimiter + line_break();
        lemma_line_break_follows(delimiter, frames, delimiter);
        lemma_frames(lead, frames, delimiter, Seq::empty());
        assert(body =~= lead + framed(frames, delimiter).skip(2));
        assert(Seq::<PartContent>::empty() + parts =~= parts);
    }
}

proof fn lemma_line_break_follows(lead: Seq<u8>, frames: Seq<Frame>, delimiter: Seq<u8>)
    requires
        frames.len() > 0,
    ensures
        occurs_at(lead + framed(frames, delimiter), line_break(), lead.len() as int),
        !occurs_at(lead + framed(frames, delimiter), dashes(), lead.len() as int),
{
    let body = lead + framed(frames, delimiter);
    let at = lead.len() as int;
    assert(body[at] == 13 && body[at + 1] == 10);
    assert(body.subrange(at, at + 2) =~= line_break());
    assert(body.subrange(at, at + 2)[0] == 13);
    assert(dashes()[0] == 45);
}

proof fn lemma_frames(
    lead: Seq<u8>,
    frames: Seq<Frame>,
    delimiter: Seq<u8>,
    read: Seq<PartContent>,
)
    requires
        frames.len() > 0,
        read.len() + frames.len() <= MAX_MULTIPART_PARTS,
        forall|i: int| 0 <= i < frames.len() ==> can_be_framed(#[trigger] frames[i], delimiter),
    ensures
        parts_from(
            lead + framed(frames, delimiter).skip(2),
            delimiter,
            lead.len() as int,
            read,
        ) == Ok::<Seq<PartContent>, Seq<char>>(
            read + frames.map_values(|frame: Frame| part_framed(frame)),
        ),
    decreases frames.len(),
{
    let frame = frames[0];
    let rest = frames.drop_first();
    let body = lead + framed(frames, delimiter).skip(2);
    let from = lead.len() as int;
    let end = from + frame.headers.len();
    let start = end + 4;
    let close = start + frame.bytes.len();
    let suffix = close + 2 + delimiter.len();
    let tail = framed(rest, delimiter);
    let before = lead + frame.headers + blank_line() + frame.bytes + line_break() + delimiter;
    assert(can_be_framed(frame, delimiter));
    assert(body =~= before + tail);
    assert(before.len() == suffix);
    lemma_headers_end(lead, frame, line_break() + delimiter + tail, delimiter);
    assert(body =~= lead + frame.headers + blank_line() + frame.bytes + (line_break() + delimiter
        + tail));
    assert(body.subrange(from, end) =~= frame.headers);
    lemma_bytes_end(lead + frame.headers + blank_line(), frame, tail, delimiter, rest);
    assert(body =~= lead + frame.headers + blank_line() + (frame.bytes + line_break() + delimiter
        + tail));
    assert(body.subrange(start, close) =~= frame.bytes);
    let parts = read.push(part_framed(frame));
    let views = frames.map_values(|frame: Frame| part_framed(frame));
    let later = rest.map_values(|frame: Frame| part_framed(frame));
    assert(read + views =~= parts + later);
    if rest.len() == 0 {
        assert(body.subrange(suffix, suffix + 2) =~= dashes());
        assert(occurs_at(body, dashes(), suffix));
        assert(parts + later =~= parts);
    } else {
        lemma_line_break_follows(before, rest, delimiter);
        assert forall|i: int| 0 <= i < rest.len() implies can_be_framed(
            #[trigger] rest[i],
            delimiter,
        ) by {
            assert(rest[i] == frames[i + 1]);
        }
        let next = before + line_break();
        lemma_frames(next, rest, delimiter, parts);
        assert(tail.take(2) =~= line_break());
        assert(body =~= next + tail.skip(2));
    }
}

proof fn lemma_headers_end(lead: Seq<u8>, frame: Frame, tail: Seq<u8>, delimiter: Seq<u8>)
    requires
        can_be_framed(frame, delimiter),
    ensures
        first_match(
            lead + frame.headers + blank_line() + frame.bytes + tail,
            blank_line(),
            lead.len() as int,
        ) == Some(lead.len() as int + frame.headers.len()),
{
    let body = lead + frame.headers + blank_line() + frame.bytes + tail;
    let from = lead.len() as int;
    let end = from + frame.headers.len();
    let short = frame.headers + blank_line();
    assert(body.subrange(end, end + 4) =~= blank_line());
    assert forall|i: int| from <= i < end implies !occurs_at(body, blank_line(), i) by {
        assert(body.subrange(i, i + 4) =~= short.subrange(i - from, i - from + 4));
        assert(!occurs_at(short, blank_line(), i - from));
    }
    lemma_no_match_skips(body, blank_line(), from, end);
    assert(occurs_at(body, blank_line(), end));
}

proof fn lemma_bytes_end(
    lead: Seq<u8>,
    frame: Frame,
    tail: Seq<u8>,
    delimiter: Seq<u8>,
    rest: Seq<Frame>,
)
    requires
        can_be_framed(frame, delimiter),
        tail == framed(rest, delimiter),
    ensures
        part_end(
            lead + (frame.bytes + line_break() + delimiter + tail),
            delimiter,
            lead.len() as int,
        ) == Some(lead.len() as int + frame.bytes.len()),
{
    let body = lead + (frame.bytes + line_break() + delimiter + tail);
    let from = lead.len() as int;
    let close = from + frame.bytes.len();
    let suffix = close + 2 + delimiter.len();
    let short = frame.bytes + line_break() + delimiter;
    let sign = line_break() + delimiter;
    assert(body.subrange(close, close + 2) =~= line_break());
    assert(body.subrange(close + 2, suffix) =~= delimiter);
    if rest.len() == 0 {
        assert(body.subrange(suffix, suffix + 2) =~= dashes());
    } else {
        assert(body.subrange(suffix, suffix + 2) =~= line_break());
    }
    assert forall|i: int| from <= i < close implies !is_boundary(body, delimiter, i) by {
        let j = i - from;
        assert(!occurs_at(short, sign, j));
        if is_boundary(body, delimiter, i) {
            let one = body.subrange(i, i + 2);
            let other = body.subrange(i + 2, i + 2 + delimiter.len());
            assert(short.subrange(j, j + sign.len()) =~= one + other);
            assert(occurs_at(short, sign, j));
        }
    }
    lemma_part_end_is(body, delimiter, from, close);
}

} // verus!
