//! A `multipart/form-data` body read part by part while it arrives.
use crate::body::{BodyStreamError, UploadFile, UploadView};
use crate::framing::{
    blank_line, boundary_lead, dashes, delimiter_bytes, delimiter_of, document, find_bytes,
    first_match, is_boundary, is_delimiter, lemma_first_match, lemma_part_end, lemma_part_end_is,
    line_break, occurs_at, part_end, part_headers_at, parts_from, stands_at, PartContent,
};
use crate::json::{compact_json, compact_text, members, JsonValue, JsonView, NumberView};
use crate::multipart::{
    boundary_of, multipart_boundary, multipart_part_headers, MultipartPartHeaders, PartView,
    MAX_MULTIPART_HEADER_BYTES, MAX_MULTIPART_PARTS,
};
use crate::operation::{
    responses_view, ApiError, OperationFailure, ResponseBuildError, ResponseDescriptor,
    ResponseView,
};
use crate::text::{decimal, decimal_text};
use crate::url::{text_from_bytes, text_of};
use vstd::prelude::*;
use vstd::string::*;
use vstd::utf8::encode_utf8;

verus! {

// ---------------------------------------------------------------------------
// Failures
// ---------------------------------------------------------------------------

/// A failure produced while reading a `multipart/form-data` request body.
#[derive(Clone, Debug, PartialEq, Eq)]
pub enum MultipartError {
    /// The bytes are not a well-formed `multipart/form-data` document.
    Malformed(&'static str),
    /// A part turned out to be larger than the limit its handler named.
    TooLarge { limit: usize },
    /// The transport could not deliver the rest of the body.
    Transport(BodyStreamError),
}

/// What a failure says.
pub enum MultipartFault {
    Malformed(Seq<char>),
    TooLarge(nat),
    Transport(Seq<char>, Seq<char>),
}

impl View for MultipartError {
    type V = MultipartFault;

    open spec fn view(&self) -> MultipartFault {
        match self {
            MultipartError::Malformed(reason) => MultipartFault::Malformed(reason@),
            MultipartError::TooLarge { limit } => MultipartFault::TooLarge(*limit as nat),
            MultipartError::Transport(error) => MultipartFault::Transport(
                error.code@,
                error.message@,
            ),
        }
    }
}

pub const MALFORMED_MULTIPART_MESSAGE: &'static str =
    "request body is not valid multipart form data";

pub const UPLOAD_STREAM_MESSAGE: &'static str = "the request body could not be read to its end";

pub const MULTIPART_TOO_LARGE_MESSAGE: &'static str =
    "multipart part exceeds the limit the handler set";

/// The HTTP status a failure projects to.
pub open spec fn fault_status(fault: MultipartFault) -> u16 {
    match fault {
        MultipartFault::Malformed(_) => 422,
        MultipartFault::TooLarge(_) => 413,
        MultipartFault::Transport(_, _) => 400,
    }
}

/// The client-visible code a failure projects to.
pub open spec fn fault_code(fault: MultipartFault) -> Seq<char> {
    match fault {
        MultipartFault::Malformed(_) => "invalid_multipart"@,
        MultipartFault::TooLarge(_) => "payload_too_large"@,
        MultipartFault::Transport(_, _) => "upload_stream_failed"@,
    }
}

/// The client-visible message a failure projects to.
pub open spec fn fault_message(fault: MultipartFault) -> Seq<char> {
    match fault {
        MultipartFault::Malformed(_) => MALFORMED_MULTIPART_MESSAGE@,
        MultipartFault::TooLarge(_) => MULTIPART_TOO_LARGE_MESSAGE@,
        MultipartFault::Transport(_, _) => UPLOAD_STREAM_MESSAGE@,
    }
}

/// The details a failure carries to the client.
pub open spec fn fault_details(fault: MultipartFault) -> JsonView {
    match fault {
        MultipartFault::Malformed(reason) => JsonView::Object(
            map!["source"@ => JsonView::Text("multipart"@), "reason"@ => JsonView::Text(reason)],
        ),
        MultipartFault::TooLarge(limit) => JsonView::Object(
            map![
                "source"@ => JsonView::Text("multipart"@),
                "limit"@ => JsonView::Number(NumberView::Unsigned(limit as u64)),
            ],
        ),
        MultipartFault::Transport(code, _) => JsonView::Object(
            map!["source"@ => JsonView::Text("stream"@), "reason"@ => JsonView::Text(code)],
        ),
    }
}

/// A failure as shown to people.
pub open spec fn fault_text(fault: MultipartFault) -> Seq<char> {
    match fault {
        MultipartFault::Malformed(reason) => reason,
        MultipartFault::TooLarge(limit) => "multipart part exceeds the "@ + decimal(limit)
            + "-byte limit"@,
        MultipartFault::Transport(_, message) => message,
    }
}

impl MultipartError {
    /// The HTTP status this failure projects to.
    #[must_use]
    pub fn status(&self) -> (status: u16)
        ensures
            status == fault_status(self@),
    {
        match self {
            MultipartError::Malformed(_) => 422,
            MultipartError::TooLarge { .. } => 413,
            MultipartError::Transport(_) => 400,
        }
    }

    /// The stable client-visible code this failure projects to.
    #[must_use]
    pub fn code(&self) -> (code: &'static str)
        ensures
            code@ == fault_code(self@),
    {
        match self {
            MultipartError::Malformed(_) => "invalid_multipart",
            MultipartError::TooLarge { .. } => "payload_too_large",
            MultipartError::Transport(_) => "upload_stream_failed",
        }
    }

    /// The stable client-visible message this failure projects to.
    #[must_use]
    pub fn message(&self) -> (message: &'static str)
        ensures
            message@ == fault_message(self@),
    {
        match self {
            MultipartError::Malformed(_) => MALFORMED_MULTIPART_MESSAGE,
            MultipartError::TooLarge { .. } => MULTIPART_TOO_LARGE_MESSAGE,
            MultipartError::Transport(_) => UPLOAD_STREAM_MESSAGE,
        }
    }

    /// What the client is told beyond the message.
    #[must_use]
    pub fn details(&self) -> (details: JsonValue)
        ensures
            details@ == fault_details(self@),
    {
        let empty = JsonValue::object();
        let details = match self {
            MultipartError::Malformed(reason) => empty.with(
                "source",
                JsonValue::text("multipart"),
            ).with("reason", JsonValue::text(reason)),
            MultipartError::TooLarge { limit } => empty.with(
                "source",
                JsonValue::text("multipart"),
            ).with("limit", JsonValue::unsigned(*limit as u64)),
            MultipartError::Transport(error) => empty.with(
                "source",
                JsonValue::text("stream"),
            ).with("reason", JsonValue::text(error.code.as_str())),
        };
        assert(details@ == fault_details(self@));
        details
    }

    /// The failure as shown to people.
    #[must_use]
    pub fn to_string(&self) -> (text: String)
        ensures
            text@ == fault_text(self@),
    {
        match self {
            MultipartError::Malformed(reason) => (*reason).to_owned(),
            MultipartError::TooLarge { limit } => {
                let mut text = "multipart part exceeds the ".to_owned();
                text.append(decimal_text(*limit as u64).as_str());
                text.append("-byte limit");
                text
            },
            MultipartError::Transport(error) => error.message.clone(),
        }
    }
}

/// A declared failure without a payload.
pub open spec fn failure_response(status: u16, code: Seq<char>, message: Seq<char>) -> ResponseView {
    ResponseView {
        status,
        body: None,
        error_code: Some(code),
        error_message: Some(message),
        headers: Seq::empty(),
    }
}

impl ApiError for MultipartError {
    fn response_descriptors() -> (descriptors: Vec<ResponseDescriptor>)
        ensures
            responses_view(descriptors@) == seq![
                failure_response(400, "upload_stream_failed"@, UPLOAD_STREAM_MESSAGE@),
                failure_response(413, "payload_too_large"@, MULTIPART_TOO_LARGE_MESSAGE@),
                failure_response(422, "invalid_multipart"@, MALFORMED_MULTIPART_MESSAGE@),
            ],
    {
        let mut descriptors: Vec<ResponseDescriptor> = Vec::new();
        descriptors.push(
            ResponseDescriptor::error(400, "upload_stream_failed", UPLOAD_STREAM_MESSAGE, None),
        );
        descriptors.push(
            ResponseDescriptor::error(413, "payload_too_large", MULTIPART_TOO_LARGE_MESSAGE, None),
        );
        descriptors.push(
            ResponseDescriptor::error(422, "invalid_multipart", MALFORMED_MULTIPART_MESSAGE, None),
        );
        assert(responses_view(descriptors@) =~= seq![
            failure_response(400, "upload_stream_failed"@, UPLOAD_STREAM_MESSAGE@),
            failure_response(413, "payload_too_large"@, MULTIPART_TOO_LARGE_MESSAGE@),
            failure_response(422, "invalid_multipart"@, MALFORMED_MULTIPART_MESSAGE@),
        ]);
        descriptors
    }

    open spec fn fails_as(self, failure: Result<OperationFailure, ResponseBuildError>) -> bool {
        match failure {
            Ok(failure) => {
                &&& failure.status == fault_status(self@)
                &&& failure.code@ == fault_code(self@)
                &&& failure.message@ == fault_message(self@)
                &&& failure.headers@.len() == 0
                &&& failure.details matches Some(details) && compact_json(fault_details(self@))
                    matches Some(text) && details@ == encode_utf8(text)
            },
            Err(error) => {
                &&& compact_json(fault_details(self@)) is None
                &&& error.code@ == "serialization_failed"@
                &&& error.message@ == "operation response could not be serialized"@
            },
        }
    }

    fn into_failure(self) -> (failure: Result<OperationFailure, ResponseBuildError>)
    {
        match compact_text(&self.details()) {
            Some(text) => {
                let details = vstd::slice::slice_to_vec(text.as_str().as_bytes());
                Ok(
                    OperationFailure::new(
                        self.status(),
                        self.code(),
                        self.message(),
                    ).with_details(details),
                )
            },
            None => Err(ResponseBuildError::serialization_failed()),
        }
    }
}

// ---------------------------------------------------------------------------
// Looking for the end of a part in what has arrived
// ---------------------------------------------------------------------------

/// What a scan of the available part data found.
#[derive(Clone, Copy, Debug, PartialEq, Eq)]
pub enum MultipartScan {
    /// A boundary begins at this offset.
    Terminator(usize),
    /// This many leading bytes are certainly part data. The rest is withheld
    /// because it could still turn out to be the start of a boundary.
    Data(usize),
}

/// What a scan finds.
pub enum ScanView {
    Terminator(int),
    Data(int),
}

impl View for MultipartScan {
    type V = ScanView;

    open spec fn view(&self) -> ScanView {
        match self {
            MultipartScan::Terminator(at) => ScanView::Terminator(*at as int),
            MultipartScan::Data(safe) => ScanView::Data(*safe as int),
        }
    }
}

/// How much of the delimiter has arrived behind a position.
pub open spec fn arrived(data: Seq<u8>, delimiter: Seq<u8>, at: int) -> int {
    if data.len() - (at + 2) < delimiter.len() {
        data.len() - (at + 2)
    } else {
        delimiter.len() as int
    }
}

/// The data ends before a boundary at a position is decided, and what did
/// arrive agrees with one.
pub open spec fn undecided(data: Seq<u8>, delimiter: Seq<u8>, at: int) -> bool {
    &&& occurs_at(data, boundary_lead(), at)
    &&& at + 2 + delimiter.len() + 2 > data.len()
    &&& data.subrange(at + 2, at + 2 + arrived(data, delimiter, at)) == delimiter.take(
        arrived(data, delimiter, at),
    )
}

/// The first position, from one on, that is a boundary or undecided; without
/// one, all but the last three bytes are data.
pub open spec fn scan_from(data: Seq<u8>, delimiter: Seq<u8>, at: int) -> ScanView
    decreases data.len() - at,
{
    if at + 4 > data.len() {
        ScanView::Data(
            if data.len() < 3 {
                0
            } else {
                data.len() - 3
            },
        )
    } else if is_boundary(data, delimiter, at) {
        ScanView::Terminator(at)
    } else if undecided(data, delimiter, at) {
        ScanView::Data(at)
    } else {
        scan_from(data, delimiter, at + 1)
    }
}

/// No boundary starts at a position, whatever follows the data.
pub open spec fn never_boundary(data: Seq<u8>, delimiter: Seq<u8>, at: int) -> bool {
    forall|more: Seq<u8>| !is_boundary(#[trigger] (data + more), delimiter, at)
}

proof fn lemma_within(data: Seq<u8>, more: Seq<u8>, needle: Seq<u8>, at: int)
    requires
        0 <= at,
        at + needle.len() <= data.len(),
    ensures
        occurs_at(data + more, needle, at) == occurs_at(data, needle, at),
{
    assert((data + more).subrange(at, at + needle.len()) =~= data.subrange(
        at,
        at + needle.len(),
    ));
}

proof fn lemma_lead_parts(data: Seq<u8>, delimiter: Seq<u8>, at: int)
    requires
        is_delimiter(delimiter),
        is_boundary(data, delimiter, at),
    ensures
        occurs_at(data, boundary_lead(), at),
{
    assert(data.subrange(at, at + 2)[0] == data[at]);
    assert(data.subrange(at, at + 2)[1] == data[at + 1]);
    assert(data.subrange(at + 2, at + 2 + delimiter.len())[0] == data[at + 2]);
    assert(data.subrange(at + 2, at + 2 + delimiter.len())[1] == data[at + 3]);
    assert(data.subrange(at, at + 4) =~= boundary_lead());
}

/// A position that was passed over can never become a boundary.
proof fn lemma_passed_over(data: Seq<u8>, delimiter: Seq<u8>, at: int)
    requires
        is_delimiter(delimiter),
        0 <= at,
        at + 4 <= data.len(),
        !is_boundary(data, delimiter, at),
        !undecided(data, delimiter, at),
    ensures
        never_boundary(data, delimiter, at),
{
    assert forall|more: Seq<u8>| !is_boundary(#[trigger] (data + more), delimiter, at) by {
        let whole = data + more;
        if is_boundary(whole, delimiter, at) {
            lemma_lead_parts(whole, delimiter, at);
            lemma_within(data, more, boundary_lead(), at);
            lemma_within(data, more, line_break(), at);
            let suffix = at + 2 + delimiter.len();
            if suffix + 2 <= data.len() {
                lemma_within(data, more, delimiter, at + 2);
                lemma_within(data, more, line_break(), suffix);
                lemma_within(data, more, dashes(), suffix);
            } else {
                let n = arrived(data, delimiter, at);
                let window = whole.subrange(at + 2, at + 2 + delimiter.len());
                assert(window == delimiter);
                assert(data.subrange(at + 2, at + 2 + n) =~= window.take(n));
            }
        }
    }
}

/// Every position before the one a scan stops at is passed over for good.
proof fn lemma_scan(data: Seq<u8>, delimiter: Seq<u8>, from: int)
    requires
        is_delimiter(delimiter),
        0 <= from,
    ensures
        match scan_from(data, delimiter, from) {
            ScanView::Terminator(at) => {
                &&& from <= at
                &&& is_boundary(data, delimiter, at)
                &&& forall|i: int| from <= i < at ==> never_boundary(data, delimiter, i)
            },
            ScanView::Data(safe) => {
                &&& 0 <= safe <= data.len()
                &&& forall|i: int| from <= i < safe ==> never_boundary(data, delimiter, i)
            },
        },
    decreases data.len() - from,
{
    if from + 4 > data.len() {
    } else if is_boundary(data, delimiter, from) {
    } else if undecided(data, delimiter, from) {
    } else {
        lemma_passed_over(data, delimiter, from);
        lemma_scan(data, delimiter, from + 1);
    }
}

/// What a scan withholds is no longer than a delimiter and four bytes.
proof fn lemma_scan_withholds(data: Seq<u8>, delimiter: Seq<u8>, from: int)
    requires
        0 <= from,
    ensures
        scan_from(data, delimiter, from) matches ScanView::Data(safe) ==> data.len() - safe
            <= delimiter.len() + 4,
    decreases data.len() - from,
{
    if from + 4 <= data.len() && !is_boundary(data, delimiter, from) && !undecided(
        data,
        delimiter,
        from,
    ) {
        lemma_scan_withholds(data, delimiter, from + 1);
    }
}

proof fn lemma_scan_skips(data: Seq<u8>, delimiter: Seq<u8>, from: int, until: int)
    requires
        is_delimiter(delimiter),
        0 <= from <= until,
        forall|i: int| from <= i < until ==> !occurs_at(data, boundary_lead(), i),
    ensures
        scan_from(data, delimiter, from) == scan_from(data, delimiter, until),
    decreases until - from,
{
    if from < until {
        assert(!occurs_at(data, boundary_lead(), from));
        if is_boundary(data, delimiter, from) {
            lemma_lead_parts(data, delimiter, from);
        }
        lemma_scan_skips(data, delimiter, from + 1, until);
    }
}

proof fn lemma_lead_is_single(data: Seq<u8>, at: int)
    requires
        occurs_at(data, boundary_lead(), at),
    ensures
        !occurs_at(data, boundary_lead(), at + 1),
        occurs_at(data, line_break(), at),
{
    assert(data.subrange(at, at + 4)[1] == data[at + 1]);
    assert(data.subrange(at, at + 4)[0] == data[at]);
    assert(data.subrange(at, at + 2) =~= line_break());
    if occurs_at(data, boundary_lead(), at + 1) {
        assert(data.subrange(at + 1, at + 5)[0] == data[at + 1]);
    }
}

/// Whether what has arrived behind a position agrees with the delimiter.
fn agrees(data: &[u8], delimiter: &[u8], at: usize) -> (agrees: bool)
    requires
        at + 2 <= data@.len(),
    ensures
        agrees == (data@.subrange(at + 2, at + 2 + arrived(data@, delimiter@, at as int))
            == delimiter@.take(arrived(data@, delimiter@, at as int))),
{
    let count: usize = data.len();
    assert(at + 2 <= count);
    let start: usize = at + 2;
    let left: usize = count - start;
    let compared: usize = if left < delimiter.len() {
        left
    } else {
        delimiter.len()
    };
    let tail = vstd::slice::slice_subrange(data, start, start + compared);
    let head = vstd::slice::slice_subrange(delimiter, 0, compared);
    assert(head@ =~= delimiter@.take(compared as int));
    let same = stands_at(tail, head, 0);
    assert(tail@.subrange(0, compared as int) =~= tail@);
    same
}

/// Looks for the closing boundary in the part data available so far.
pub fn scan_multipart_terminator(data: &[u8], delimiter: &[u8]) -> (scan: MultipartScan)
    requires
        is_delimiter(delimiter@),
    ensures
        scan@ == scan_from(data@, delimiter@, 0),
{
    let lead: Vec<u8> = vec![13, 10, 45, 45];
    let line: Vec<u8> = vec![13, 10];
    let close: Vec<u8> = vec![45, 45];
    assert(lead@ =~= boundary_lead());
    assert(line@ =~= line_break());
    assert(close@ =~= dashes());
    let count: usize = data.len();
    let mut from: usize = 0;
    loop
        invariant
            is_delimiter(delimiter@),
            lead@ == boundary_lead(),
            line@ == line_break(),
            close@ == dashes(),
            count == data@.len(),
            from <= count,
            scan_from(data@, delimiter@, 0) == scan_from(data@, delimiter@, from as int),
        decreases count - from,
    {
        let candidate = find_bytes(data, lead.as_slice(), from);
        proof {
            lemma_first_match(data@, boundary_lead(), from as int);
        }
        match candidate {
            None => {
                proof {
                    lemma_scan_skips(data@, delimiter@, from as int, count as int);
                }
                return MultipartScan::Data(
                    if count < 3 {
                        0
                    } else {
                        count - 3
                    },
                );
            },
            Some(found) => {
                proof {
                    lemma_scan_skips(data@, delimiter@, from as int, found as int);
                    lemma_lead_is_single(data@, found as int);
                    if !is_boundary(data@, delimiter@, found as int) && !undecided(
                        data@,
                        delimiter@,
                        found as int,
                    ) {
                        assert(scan_from(data@, delimiter@, found as int) == scan_from(
                            data@,
                            delimiter@,
                            found + 1,
                        ));
                        lemma_scan_skips(data@, delimiter@, found + 1, found + 2);
                    }
                }
                let start: usize = found + 2;
                if delimiter.len() > count - start || count - start - delimiter.len() < 2 {
                    if agrees(data, delimiter, found) {
                        return MultipartScan::Data(found);
                    }
                } else {
                    let suffix: usize = start + delimiter.len();
                    if stands_at(data, delimiter, start) && (stands_at(
                        data,
                        line.as_slice(),
                        suffix,
                    ) || stands_at(data, close.as_slice(), suffix)) {
                        return MultipartScan::Terminator(found);
                    }
                }
                from = start;
            },
        }
    }
}

// ---------------------------------------------------------------------------
// The reader
// ---------------------------------------------------------------------------

/// Where a reader stands in the document.
#[derive(Clone, Copy, Debug, PartialEq, Eq)]
pub enum MultipartState {
    /// Before the opening delimiter.
    Opening,
    /// Behind the opening delimiter, before the two bytes that follow it.
    Suffix,
    /// Between two parts, with a header block still to read.
    Headers,
    /// Inside one part's data.
    Part,
    /// The closing delimiter has been consumed.
    Done,
    /// A failure was already reported; the document cannot be resumed.
    Failed,
}

/// A step of reading that either completed or waits for more of the body.
#[derive(Clone, Debug, PartialEq, Eq)]
pub enum Polled<T> {
    Pending,
    Ready(T),
}

/// What a reader knows: the bytes that arrived, how far they are consumed,
/// and where the data of the current part began.
#[verifier::ext_equal]
pub struct StreamView {
    pub delimiter: Seq<u8>,
    pub seen: Seq<u8>,
    pub position: int,
    pub state: MultipartState,
    pub parts: nat,
    pub data_from: int,
    pub ended: bool,
}

/// The bytes that arrived and are not consumed.
pub open spec fn available(stream: StreamView) -> Seq<u8> {
    stream.seen.skip(stream.position)
}

/// What holds of a reader at every moment. Inside a part, nothing consumed
/// since the part's data began can be the start of a boundary, whatever the
/// rest of the body turns out to be.
pub open spec fn placed(stream: StreamView) -> bool {
    &&& is_delimiter(stream.delimiter)
    &&& 0 <= stream.position <= stream.seen.len()
    &&& stream.parts <= MAX_MULTIPART_PARTS + 1
    &&& !(stream.state is Failed) ==> stream.parts <= MAX_MULTIPART_PARTS
    &&& stream.state is Part ==> {
        &&& 0 <= stream.data_from <= stream.position
        &&& forall|i: int|
            stream.data_from <= i < stream.position ==> never_boundary(
                stream.seen,
                stream.delimiter,
                i,
            )
    }
}

/// A reader before the first byte of its body.
pub open spec fn opened(delimiter: Seq<u8>) -> StreamView {
    StreamView {
        delimiter,
        seen: Seq::empty(),
        position: 0,
        state: MultipartState::Opening,
        parts: 0,
        data_from: 0,
        ended: false,
    }
}

/// The reader after a failure.
pub open spec fn failed(stream: StreamView) -> StreamView {
    StreamView { state: MultipartState::Failed, ..stream }
}

/// Why a step did not complete.
pub enum StreamStop {
    Pending,
    Refused(Seq<char>),
}

/// A step that needs more of the body: it waits, and fails if there is none.
pub open spec fn starved(stream: StreamView, reason: Seq<char>) -> (
    StreamView,
    Option<StreamStop>,
) {
    if stream.ended {
        (failed(stream), Some(StreamStop::Refused(reason)))
    } else {
        (stream, Some(StreamStop::Pending))
    }
}

/// Consumes the opening delimiter.
pub open spec fn opening_step(stream: StreamView) -> (StreamView, Option<StreamStop>) {
    let reason = "multipart body does not start with its declared boundary"@;
    if available(stream).len() < stream.delimiter.len() {
        starved(stream, reason)
    } else if !occurs_at(available(stream), stream.delimiter, 0) {
        (failed(stream), Some(StreamStop::Refused(reason)))
    } else {
        (
            StreamView {
                position: stream.position + stream.delimiter.len(),
                state: MultipartState::Suffix,
                ..stream
            },
            None,
        )
    }
}

/// Consumes the two bytes behind the opening delimiter.
pub open spec fn suffix_step(stream: StreamView) -> (StreamView, Option<StreamStop>) {
    let reason = "multipart boundary is malformed"@;
    let moved = StreamView { position: stream.position + 2, ..stream };
    if available(stream).len() < 2 {
        starved(stream, reason)
    } else if occurs_at(available(stream), dashes(), 0) {
        (StreamView { state: MultipartState::Done, ..moved }, None)
    } else if occurs_at(available(stream), line_break(), 0) {
        (StreamView { state: MultipartState::Headers, ..moved }, None)
    } else {
        (failed(moved), Some(StreamStop::Refused(reason)))
    }
}

/// The reader behind a boundary at the given distance.
pub open spec fn behind_boundary(stream: StreamView, offset: int) -> StreamView {
    let suffix = offset + 2 + stream.delimiter.len();
    StreamView {
        position: stream.position + suffix + 2,
        state: if occurs_at(available(stream), dashes(), suffix) {
            MultipartState::Done
        } else {
            MultipartState::Headers
        },
        ..stream
    }
}

/// Consumes what is left of the current part.
pub open spec fn skip_step(stream: StreamView) -> (StreamView, Option<StreamStop>) {
    match scan_from(available(stream), stream.delimiter, 0) {
        ScanView::Terminator(offset) => (behind_boundary(stream, offset), None),
        ScanView::Data(safe) => starved(
            StreamView { position: stream.position + safe, ..stream },
            "multipart part has no closing boundary"@,
        ),
    }
}

/// Reads one part's header block. A block whose end has not arrived is too
/// large once more is there than the largest block and the first three bytes
/// of the empty line behind it.
pub open spec fn headers_step(stream: StreamView) -> (
    StreamView,
    Result<Polled<Option<PartView>>, Seq<char>>,
) {
    match first_match(available(stream), blank_line(), 0) {
        None => if available(stream).len() > MAX_MULTIPART_HEADER_BYTES + 3 {
            (failed(stream), Err("multipart part headers exceed the configured limit"@))
        } else if stream.ended {
            (failed(stream), Err("multipart part headers are incomplete"@))
        } else {
            (stream, Ok(Polled::Pending))
        },
        Some(_) => match part_headers_at(available(stream), 0) {
            Err(reason) => (failed(stream), Err(reason)),
            Ok((part, start)) => {
                let moved = StreamView {
                    position: stream.position + start,
                    parts: stream.parts + 1,
                    ..stream
                };
                if moved.parts > MAX_MULTIPART_PARTS {
                    (failed(moved), Err("multipart body contains too many parts"@))
                } else {
                    (
                        StreamView {
                            state: MultipartState::Part,
                            data_from: moved.position,
                            ..moved
                        },
                        Ok(Polled::Ready(Some(part))),
                    )
                }
            },
        },
    }
}

/// What a step that stopped reports.
pub open spec fn stopped<T>(stop: StreamStop) -> Result<Polled<T>, Seq<char>> {
    match stop {
        StreamStop::Pending => Ok(Polled::Pending),
        StreamStop::Refused(reason) => Err(reason),
    }
}

/// Reads the next part's headers, from behind the opening delimiter on.
pub open spec fn settled_step(stream: StreamView) -> (
    StreamView,
    Result<Polled<Option<PartView>>, Seq<char>>,
) {
    match stream.state {
        MultipartState::Suffix => {
            let (moved, stop) = suffix_step(stream);
            match stop {
                Some(stop) => (moved, stopped(stop)),
                None => if moved.state is Done {
                    (moved, Ok(Polled::Ready(None)))
                } else {
                    headers_step(moved)
                },
            }
        },
        MultipartState::Done => (stream, Ok(Polled::Ready(None))),
        _ => headers_step(stream),
    }
}

/// Advances to the next part, skipping what is left of the current one.
pub open spec fn field_step(stream: StreamView) -> (
    StreamView,
    Result<Polled<Option<PartView>>, Seq<char>>,
) {
    match stream.state {
        MultipartState::Failed => (stream, Err("multipart body already failed to parse"@)),
        MultipartState::Opening => {
            let (moved, stop) = opening_step(stream);
            match stop {
                Some(stop) => (moved, stopped(stop)),
                None => settled_step(moved),
            }
        },
        MultipartState::Part => {
            let (moved, stop) = skip_step(stream);
            match stop {
                Some(stop) => (moved, stopped(stop)),
                None => settled_step(moved),
            }
        },
        _ => settled_step(stream),
    }
}

/// Hands out the next run of the current part's data; nothing comes once the
/// part has ended.
pub open spec fn chunk_step(stream: StreamView) -> (
    StreamView,
    Result<Polled<Option<Seq<u8>>>, Seq<char>>,
) {
    if !(stream.state is Part) {
        (stream, Ok(Polled::Ready(None)))
    } else {
        match scan_from(available(stream), stream.delimiter, 0) {
            ScanView::Terminator(offset) => if offset == 0 {
                (behind_boundary(stream, 0), Ok(Polled::Ready(None)))
            } else {
                (
                    StreamView { position: stream.position + offset, ..stream },
                    Ok(Polled::Ready(Some(available(stream).take(offset)))),
                )
            },
            ScanView::Data(safe) => if safe == 0 {
                let (moved, stop) = starved(stream, "multipart part has no closing boundary"@);
                (moved, stopped(stop->Some_0))
            } else {
                (
                    StreamView { position: stream.position + safe, ..stream },
                    Ok(Polled::Ready(Some(available(stream).take(safe)))),
                )
            },
        }
    }
}

/// What is known of a position keeps being true as the body grows.
proof fn lemma_never_grows(data: Seq<u8>, added: Seq<u8>, delimiter: Seq<u8>, at: int)
    requires
        never_boundary(data, delimiter, at),
    ensures
        never_boundary(data + added, delimiter, at),
{
    assert forall|more: Seq<u8>|
        !is_boundary(#[trigger] ((data + added) + more), delimiter, at) by {
        assert((data + added) + more =~= data + (added + more));
    }
}

proof fn lemma_occurs_shifts(data: Seq<u8>, needle: Seq<u8>, by: int, at: int)
    requires
        0 <= by <= data.len(),
        0 <= at,
    ensures
        occurs_at(data.skip(by), needle, at) == occurs_at(data, needle, by + at),
{
    if by + at + needle.len() <= data.len() {
        assert(data.skip(by).subrange(at, at + needle.len()) =~= data.subrange(
            by + at,
            by + at + needle.len(),
        ));
    }
}

proof fn lemma_boundary_shifts(data: Seq<u8>, delimiter: Seq<u8>, by: int, at: int)
    requires
        0 <= by <= data.len(),
        0 <= at,
    ensures
        is_boundary(data.skip(by), delimiter, at) == is_boundary(data, delimiter, by + at),
{
    lemma_occurs_shifts(data, line_break(), by, at);
    lemma_occurs_shifts(data, delimiter, by, at + 2);
    lemma_occurs_shifts(data, line_break(), by, at + 2 + delimiter.len());
    lemma_occurs_shifts(data, dashes(), by, at + 2 + delimiter.len());
}

proof fn lemma_never_shifts(data: Seq<u8>, delimiter: Seq<u8>, by: int, at: int)
    requires
        0 <= by <= data.len(),
        0 <= at,
        never_boundary(data.skip(by), delimiter, at),
    ensures
        never_boundary(data, delimiter, by + at),
{
    assert forall|more: Seq<u8>| !is_boundary(#[trigger] (data + more), delimiter, by + at) by {
        assert((data + more).skip(by) =~= data.skip(by) + more);
        lemma_boundary_shifts(data + more, delimiter, by, at);
        assert(!is_boundary(data.skip(by) + more, delimiter, at));
    }
}

/// Moving over data that a scan found safe keeps the reader placed.
proof fn lemma_moves_over_data(stream: StreamView, offset: int)
    requires
        placed(stream),
        stream.state is Part,
        0 <= offset <= available(stream).len(),
        forall|i: int|
            0 <= i < offset ==> never_boundary(available(stream), stream.delimiter, i),
    ensures
        placed(StreamView { position: stream.position + offset, ..stream }),
{
    assert forall|i: int|
        stream.data_from <= i < stream.position + offset implies never_boundary(
        stream.seen,
        stream.delimiter,
        i,
    ) by {
        if i >= stream.position {
            let at = i - stream.position;
            assert(never_boundary(available(stream), stream.delimiter, at));
            lemma_never_shifts(stream.seen, stream.delimiter, stream.position, at);
        }
    }
}

/// A `multipart/form-data` request body read part by part, chunk by chunk.
///
/// The reader is fed the chunks of the body as they arrive. It holds what was
/// fed and not consumed: a chunk and, at most, a delimiter's worth of
/// look-ahead.
pub struct MultipartStream {
    delimiter: Vec<u8>,
    buffer: Vec<u8>,
    cursor: usize,
    state: MultipartState,
    parts: usize,
    bytes_read: u64,
    ended: bool,
    consumed: Ghost<Seq<u8>>,
    data_from: Ghost<int>,
}

impl View for MultipartStream {
    type V = StreamView;

    closed spec fn view(&self) -> StreamView {
        StreamView {
            delimiter: self.delimiter@,
            seen: self.consumed@ + self.buffer@,
            position: self.consumed@.len() + self.cursor,
            state: self.state,
            parts: self.parts as nat,
            data_from: self.data_from@,
            ended: self.ended,
        }
    }
}

impl MultipartStream {
    /// The reader is where its document says it can be.
    pub closed spec fn wf(&self) -> bool {
        &&& self.cursor <= self.buffer@.len()
        &&& self.bytes_read == if self@.seen.len() > u64::MAX {
            u64::MAX as nat
        } else {
            self@.seen.len()
        }
        &&& placed(self@)
    }

    /// The bytes that the reader keeps in memory.
    pub closed spec fn held(&self) -> nat {
        self.buffer@.len()
    }

    /// Every reader is placed in its document.
    pub proof fn lemma_placed(&self)
        requires
            self.wf(),
        ensures
            placed(self@),
    {
    }

    /// Starts reading the `multipart/form-data` document that `content_type`
    /// describes.
    pub fn new(content_type: &str) -> (stream: Result<Self, MultipartError>)
        ensures
            match stream {
                Ok(stream) => {
                    &&& stream.wf()
                    &&& boundary_of(content_type@) matches Some(boundary) && stream@ == opened(
                        delimiter_of(boundary),
                    )
                },
                Err(error) => {
                    &&& boundary_of(content_type@) is None
                    &&& error@ == MultipartFault::Malformed(
                        "multipart boundary is missing or invalid"@,
                    )
                },
            },
    {
        match multipart_boundary(content_type) {
            None => Err(MultipartError::Malformed("multipart boundary is missing or invalid")),
            Some(boundary) => {
                let stream = MultipartStream {
                    delimiter: delimiter_bytes(boundary.as_str()),
                    buffer: Vec::new(),
                    cursor: 0,
                    state: MultipartState::Opening,
                    parts: 0,
                    bytes_read: 0,
                    ended: false,
                    consumed: Ghost(Seq::empty()),
                    data_from: Ghost(0),
                };
                assert(stream@.seen =~= Seq::empty());
                Ok(stream)
            },
        }
    }

    /// Bytes fed so far, framing included.
    #[must_use]
    pub fn bytes_read(&self) -> (bytes: u64)
        requires
            self.wf(),
        ensures
            bytes == if self@.seen.len() > u64::MAX {
                u64::MAX as nat
            } else {
                self@.seen.len()
            },
    {
        self.bytes_read
    }

    /// Bytes of the body that the reader keeps in memory.
    #[must_use]
    pub fn held_bytes(&self) -> (bytes: usize)
        ensures
            bytes == self.held(),
    {
        self.buffer.len()
    }

    /// Takes in the next chunk of the body.
    ///
    /// The consumed prefix is dropped before the buffer grows, so a large
    /// body stays resident in a chunk's worth of memory.
    pub fn feed(&mut self, chunk: &[u8])
        requires
            old(self).wf(),
        ensures
            final(self).wf(),
            final(self)@ == (StreamView { seen: old(self)@.seen + chunk@, ..old(self)@ }),
            final(self).held() == available(old(self)@).len() + chunk@.len(),
    {
        let ghost before = self@;
        let ghost old_consumed = self.consumed@;
        let ghost old_buffer = self.buffer@;
        if self.cursor > 0 {
            let kept = self.buffer.split_off(self.cursor);
            proof {
                assert(old_buffer.take(self.cursor as int) + kept@ =~= old_buffer);
                self.consumed@ = old_consumed + old_buffer.take(self.cursor as int);
            }
            self.buffer = kept;
            self.cursor = 0;
            assert(self.consumed@ + self.buffer@ =~= before.seen);
        }
        self.bytes_read = self.bytes_read.saturating_add(chunk.len() as u64);
        self.buffer.extend_from_slice(chunk);
        proof {
            assert(self@.seen =~= before.seen + chunk@);
            assert forall|i: int|
                before.state is Part && before.data_from <= i < before.position implies never_boundary(
                self@.seen,
                before.delimiter,
                i,
            ) by {
                lemma_never_grows(before.seen, chunk@, before.delimiter, i);
            }
        }
    }

    /// Notes that the body has no more chunks.
    pub fn finish(&mut self)
        requires
            old(self).wf(),
        ensures
            final(self).wf(),
            final(self).held() == old(self).held(),
            final(self)@ == (StreamView { ended: true, ..old(self)@ }),
    {
        self.ended = true;
    }

    /// Notes that the transport failed, and produces the failure to report.
    pub fn interrupt(&mut self, error: BodyStreamError) -> (failure: MultipartError)
        requires
            old(self).wf(),
        ensures
            final(self).wf(),
            final(self).held() == old(self).held(),
            final(self)@ == failed(old(self)@),
            failure == MultipartError::Transport(error),
    {
        self.state = MultipartState::Failed;
        MultipartError::Transport(error)
    }

    fn rest(&self) -> (bytes: &[u8])
        requires
            self.wf(),
        ensures
            bytes@ == available(self@),
    {
        let bytes = vstd::slice::slice_subrange(
            self.buffer.as_slice(),
            self.cursor,
            self.buffer.len(),
        );
        assert(bytes@ =~= available(self@));
        bytes
    }

    /// Waits for more of the body, or fails if there is none.
    fn starve(&mut self, reason: &'static str) -> (stop: Result<bool, MultipartError>)
        requires
            old(self).wf(),
        ensures
            final(self).wf(),
            final(self).held() == old(self).held(),
            final(self)@ == starved(old(self)@, reason@).0,
            match stop {
                Ok(ready) => !ready && starved(old(self)@, reason@).1 == Some(StreamStop::Pending),
                Err(error) => starved(old(self)@, reason@).1 == Some(StreamStop::Refused(reason@))
                    && error@ == MultipartFault::Malformed(reason@),
            },
    {
        if self.ended {
            self.state = MultipartState::Failed;
            Err(MultipartError::Malformed(reason))
        } else {
            Ok(false)
        }
    }

    fn read_opening(&mut self) -> (read: Result<bool, MultipartError>)
        requires
            old(self).wf(),
            old(self)@.state is Opening,
        ensures
            final(self).wf(),
            final(self).held() == old(self).held(),
            final(self)@ == opening_step(old(self)@).0,
            reported(read, opening_step(old(self)@).1),
    {
        let rest = self.rest();
        if rest.len() < self.delimiter.len() {
            return self.starve("multipart body does not start with its declared boundary");
        }
        if !stands_at(rest, self.delimiter.as_slice(), 0) {
            self.state = MultipartState::Failed;
            return Err(
                MultipartError::Malformed(
                    "multipart body does not start with its declared boundary",
                ),
            );
        }
        let held: usize = self.buffer.len();
        assert(available(self@).len() == held - self.cursor);
        self.cursor = self.cursor + self.delimiter.len();
        self.state = MultipartState::Suffix;
        Ok(true)
    }

    fn read_boundary_suffix(&mut self) -> (read: Result<bool, MultipartError>)
        requires
            old(self).wf(),
            old(self)@.state is Suffix,
        ensures
            final(self).wf(),
            final(self).held() == old(self).held(),
            final(self)@ == suffix_step(old(self)@).0,
            reported(read, suffix_step(old(self)@).1),
    {
        let line: Vec<u8> = vec![13, 10];
        let close: Vec<u8> = vec![45, 45];
        assert(line@ =~= line_break());
        assert(close@ =~= dashes());
        let rest = self.rest();
        if rest.len() < 2 {
            return self.starve("multipart boundary is malformed");
        }
        let closes = stands_at(rest, close.as_slice(), 0);
        let continues = stands_at(rest, line.as_slice(), 0);
        let held: usize = self.buffer.len();
        assert(available(self@).len() == held - self.cursor);
        self.cursor = self.cursor + 2;
        if closes {
            self.state = MultipartState::Done;
            Ok(true)
        } else if continues {
            self.state = MultipartState::Headers;
            Ok(true)
        } else {
            self.state = MultipartState::Failed;
            Err(MultipartError::Malformed("multipart boundary is malformed"))
        }
    }

    /// Moves behind the boundary that a scan found.
    fn pass_boundary(&mut self, offset: usize)
        requires
            old(self).wf(),
            old(self)@.state is Part,
            is_boundary(available(old(self)@), old(self)@.delimiter, offset as int),
        ensures
            final(self).wf(),
            final(self).held() == old(self).held(),
            final(self)@ == behind_boundary(old(self)@, offset as int),
    {
        let close: Vec<u8> = vec![45, 45];
        assert(close@ =~= dashes());
        let held: usize = self.buffer.len();
        let rest = self.rest();
        assert(available(self@).len() == held - self.cursor);
        let suffix: usize = offset + 2 + self.delimiter.len();
        let closes = stands_at(rest, close.as_slice(), suffix);
        self.cursor = self.cursor + suffix + 2;
        self.state = if closes {
            MultipartState::Done
        } else {
            MultipartState::Headers
        };
    }

    /// Moves over data that a scan found safe.
    fn pass_data(&mut self, offset: usize)
        requires
            old(self).wf(),
            old(self)@.state is Part,
            offset <= available(old(self)@).len(),
            forall|i: int|
                0 <= i < offset ==> never_boundary(
                    available(old(self)@),
                    old(self)@.delimiter,
                    i,
                ),
        ensures
            final(self).wf(),
            final(self).held() == old(self).held(),
            final(self)@ == (StreamView {
                position: old(self)@.position + offset,
                ..old(self)@
            }),
    {
        proof {
            lemma_moves_over_data(self@, offset as int);
        }
        let held: usize = self.buffer.len();
        assert(available(self@).len() == held - self.cursor);
        self.cursor = self.cursor + offset;
    }

    fn skip_part(&mut self) -> (read: Result<bool, MultipartError>)
        requires
            old(self).wf(),
            old(self)@.state is Part,
        ensures
            final(self).wf(),
            final(self).held() == old(self).held(),
            final(self)@ == skip_step(old(self)@).0,
            reported(read, skip_step(old(self)@).1),
    {
        let scan = scan_multipart_terminator(self.rest(), self.delimiter.as_slice());
        proof {
            lemma_scan(available(self@), self@.delimiter, 0);
        }
        match scan {
            MultipartScan::Terminator(offset) => {
                self.pass_boundary(offset);
                Ok(true)
            },
            MultipartScan::Data(safe) => {
                self.pass_data(safe);
                self.starve("multipart part has no closing boundary")
            },
        }
    }

    fn read_headers(&mut self) -> (read: Result<Polled<MultipartPartHeaders>, MultipartError>)
        requires
            old(self).wf(),
            old(self)@.state is Headers,
        ensures
            final(self).wf(),
            final(self).held() == old(self).held(),
            final(self)@ == headers_step(old(self)@).0,
            match read {
                Ok(Polled::Pending) => headers_step(old(self)@).1 == Ok::<
                    Polled<Option<PartView>>,
                    Seq<char>,
                >(Polled::Pending),
                Ok(Polled::Ready(headers)) => headers_step(old(self)@).1 == Ok::<
                    Polled<Option<PartView>>,
                    Seq<char>,
                >(Polled::Ready(Some(headers@))),
                Err(error) => headers_step(old(self)@).1 matches Err(reason) && error@
                    == MultipartFault::Malformed(reason),
            },
    {
        let blank: Vec<u8> = vec![13, 10, 13, 10];
        assert(blank@ =~= blank_line());
        let rest = self.rest();
        let found = find_bytes(rest, blank.as_slice(), 0);
        let end: usize = match found {
            Some(end) => end,
            None => {
                if rest.len() > MAX_MULTIPART_HEADER_BYTES + 3 {
                    self.state = MultipartState::Failed;
                    return Err(
                        MultipartError::Malformed(
                            "multipart part headers exceed the configured limit",
                        ),
                    );
                }
                if self.ended {
                    self.state = MultipartState::Failed;
                    return Err(MultipartError::Malformed("multipart part headers are incomplete"));
                }
                return Ok(Polled::Pending);
            },
        };
        proof {
            lemma_first_match(available(self@), blank_line(), 0);
        }
        if end > MAX_MULTIPART_HEADER_BYTES {
            self.state = MultipartState::Failed;
            return Err(
                MultipartError::Malformed("multipart part headers exceed the configured limit"),
            );
        }
        let block = vstd::slice::slice_to_vec(vstd::slice::slice_subrange(rest, 0, end));
        let parsed = match text_from_bytes(block) {
            Some(text) => multipart_part_headers(text.as_str()),
            None => Err("multipart part headers are not valid UTF-8"),
        };
        match parsed {
            Err(reason) => {
                self.state = MultipartState::Failed;
                Err(MultipartError::Malformed(reason))
            },
            Ok(headers) => {
                let held: usize = self.buffer.len();
                assert(available(self@).len() == held - self.cursor);
                self.cursor = self.cursor + end + 4;
                self.parts = self.parts + 1;
                if self.parts > MAX_MULTIPART_PARTS {
                    self.state = MultipartState::Failed;
                    return Err(MultipartError::Malformed("multipart body contains too many parts"));
                }
                self.state = MultipartState::Part;
                proof {
                    self.data_from@ = self@.position;
                }
                Ok(Polled::Ready(headers))
            },
        }
    }

    /// Advances to the next part, skipping whatever is left of the current
    /// one, as far as the body has arrived.
    ///
    /// Nothing comes once the closing delimiter has been read.
    pub fn next_field(&mut self) -> (field: Result<Polled<Option<MultipartField>>, MultipartError>)
        requires
            old(self).wf(),
        ensures
            final(self).wf(),
            final(self).held() == old(self).held(),
            final(self)@ == field_step(old(self)@).0,
            match field {
                Ok(Polled::Pending) => field_step(old(self)@).1 == Ok::<
                    Polled<Option<PartView>>,
                    Seq<char>,
                >(Polled::Pending),
                Ok(Polled::Ready(None)) => field_step(old(self)@).1 == Ok::<
                    Polled<Option<PartView>>,
                    Seq<char>,
                >(Polled::Ready(None)),
                Ok(Polled::Ready(Some(field))) => {
                    &&& field_step(old(self)@).1 == Ok::<Polled<Option<PartView>>, Seq<char>>(
                        Polled::Ready(Some(field.headers@)),
                    )
                    &&& field.bytes@.len() == 0
                },
                Err(error) => field_step(old(self)@).1 matches Err(reason) && error@
                    == MultipartFault::Malformed(reason),
            },
    {
        match self.state {
            MultipartState::Failed => {
                return Err(MultipartError::Malformed("multipart body already failed to parse"));
            },
            MultipartState::Opening => {
                match self.read_opening() {
                    Err(error) => {
                        return Err(error);
                    },
                    Ok(ready) => {
                        if !ready {
                            return Ok(Polled::Pending);
                        }
                    },
                }
            },
            MultipartState::Part => {
                match self.skip_part() {
                    Err(error) => {
                        return Err(error);
                    },
                    Ok(ready) => {
                        if !ready {
                            return Ok(Polled::Pending);
                        }
                    },
                }
            },
            _ => {},
        }
        if let MultipartState::Suffix = self.state {
            match self.read_boundary_suffix() {
                Err(error) => {
                    return Err(error);
                },
                Ok(ready) => {
                    if !ready {
                        return Ok(Polled::Pending);
                    }
                },
            }
        }
        if let MultipartState::Done = self.state {
            return Ok(Polled::Ready(None));
        }
        match self.read_headers() {
            Err(error) => Err(error),
            Ok(Polled::Pending) => Ok(Polled::Pending),
            Ok(Polled::Ready(headers)) => Ok(
                Polled::Ready(Some(MultipartField { headers, bytes: Vec::new() })),
            ),
        }
    }

    /// Hands out the next run of the current part's data, as far as the body
    /// has arrived. Nothing comes once the part's boundary has been reached.
    pub fn next_chunk(&mut self) -> (chunk: Result<Polled<Option<Vec<u8>>>, MultipartError>)
        requires
            old(self).wf(),
        ensures
            final(self).wf(),
            final(self).held() == old(self).held(),
            final(self)@ == chunk_step(old(self)@).0,
            match chunk {
                Ok(Polled::Pending) => chunk_step(old(self)@).1 == Ok::<
                    Polled<Option<Seq<u8>>>,
                    Seq<char>,
                >(Polled::Pending),
                Ok(Polled::Ready(None)) => chunk_step(old(self)@).1 == Ok::<
                    Polled<Option<Seq<u8>>>,
                    Seq<char>,
                >(Polled::Ready(None)),
                Ok(Polled::Ready(Some(chunk))) => chunk_step(old(self)@).1 == Ok::<
                    Polled<Option<Seq<u8>>>,
                    Seq<char>,
                >(Polled::Ready(Some(chunk@))),
                Err(error) => chunk_step(old(self)@).1 matches Err(reason) && error@
                    == MultipartFault::Malformed(reason),
            },
    {
        match self.state {
            MultipartState::Part => {},
            _ => {
                return Ok(Polled::Ready(None));
            },
        }
        let scan = scan_multipart_terminator(self.rest(), self.delimiter.as_slice());
        proof {
            lemma_scan(available(self@), self@.delimiter, 0);
        }
        let offset: usize = match scan {
            MultipartScan::Terminator(offset) => {
                if offset == 0 {
                    self.pass_boundary(0);
                    return Ok(Polled::Ready(None));
                }
                offset
            },
            MultipartScan::Data(safe) => {
                if safe == 0 {
                    return match self.starve("multipart part has no closing boundary") {
                        Err(error) => Err(error),
                        Ok(_) => Ok(Polled::Pending),
                    };
                }
                safe
            },
        };
        let chunk = vstd::slice::slice_to_vec(
            vstd::slice::slice_subrange(self.rest(), 0, offset),
        );
        assert(chunk@ =~= available(self@).take(offset as int));
        self.pass_data(offset);
        Ok(Polled::Ready(Some(chunk)))
    }
}

/// One part of a streamed `multipart/form-data` body, with what was buffered
/// of its data.
#[derive(Clone, Debug, PartialEq, Eq)]
pub struct MultipartField {
    pub headers: MultipartPartHeaders,
    pub bytes: Vec<u8>,
}

impl MultipartField {
    /// The part's form field name.
    #[must_use]
    pub fn name(&self) -> (name: &str)
        ensures
            name@ == self.headers@.name,
    {
        self.headers.name.as_str()
    }

    /// The part's declared file name, when it has one.
    #[must_use]
    pub fn file_name(&self) -> (name: Option<&str>)
        ensures
            match name {
                Some(name) => self.headers@.file_name == Some(name@),
                None => self.headers@.file_name is None,
            },
    {
        match &self.headers.file_name {
            Some(name) => Some(name.as_str()),
            None => None,
        }
    }

    /// The part's declared media type, when it has one.
    #[must_use]
    pub fn content_type(&self) -> (content_type: Option<&str>)
        ensures
            match content_type {
                Some(content_type) => self.headers@.content_type == Some(content_type@),
                None => self.headers@.content_type is None,
            },
    {
        match &self.headers.content_type {
            Some(content_type) => Some(content_type.as_str()),
            None => None,
        }
    }

    /// Deliberately buffers one more run of this part's data, with an explicit
    /// limit on the whole.
    pub fn collect(&mut self, chunk: &[u8], limit: usize) -> (collected: Result<
        (),
        MultipartError,
    >)
        ensures
            final(self).headers == old(self).headers,
            match collected {
                Ok(_) => {
                    &&& old(self).bytes@.len() + chunk@.len() <= limit
                    &&& final(self).bytes@ == old(self).bytes@ + chunk@
                },
                Err(error) => {
                    &&& old(self).bytes@.len() + chunk@.len() > limit
                    &&& final(self).bytes@ == old(self).bytes@
                    &&& error@ == MultipartFault::TooLarge(limit as nat)
                },
            },
    {
        let held: usize = self.bytes.len();
        if held > limit || chunk.len() > limit - held {
            return Err(MultipartError::TooLarge { limit });
        }
        self.bytes.extend_from_slice(chunk);
        assert(self.bytes@ =~= old(self).bytes@ + chunk@);
        Ok(())
    }

    /// The buffered data as text.
    pub fn text(self) -> (text: Result<String, MultipartError>)
        ensures
            match text {
                Ok(text) => text_of(self.bytes@) == Some(text@),
                Err(error) => text_of(self.bytes@) is None && error@ == MultipartFault::Malformed(
                    "multipart text field is not valid UTF-8"@,
                ),
            },
    {
        match text_from_bytes(self.bytes) {
            Some(text) => Ok(text),
            None => Err(MultipartError::Malformed("multipart text field is not valid UTF-8")),
        }
    }

    /// The buffered data as an upload.
    #[must_use]
    pub fn into_upload(self) -> (upload: UploadFile)
        ensures
            upload@ == (UploadView {
                field_name: self.headers@.name,
                file_name: self.headers@.file_name,
                content_type: self.headers@.content_type,
                bytes: self.bytes@,
            }),
    {
        UploadFile {
            field_name: self.headers.name,
            file_name: self.headers.file_name,
            content_type: self.headers.content_type,
            bytes: self.bytes,
        }
    }
}

/// What a step reports, as a value.
spec fn reported(read: Result<bool, MultipartError>, stop: Option<StreamStop>) -> bool {
    match read {
        Ok(ready) => if ready {
            stop is None
        } else {
            stop == Some(StreamStop::Pending)
        },
        Err(error) => stop matches Some(StreamStop::Refused(reason)) && error@
            == MultipartFault::Malformed(reason),
    }
}

// ---------------------------------------------------------------------------
// Laws
// ---------------------------------------------------------------------------

/// How much a reader that waits for more of the body may hold back.
pub open spec fn lookahead(stream: StreamView) -> nat {
    if stream.state is Headers {
        (MAX_MULTIPART_HEADER_BYTES + 3) as nat
    } else {
        stream.delimiter.len() + 4
    }
}

/// A reader asks for more of the body only while it holds little of it: within
/// a header block the largest one and three bytes of the empty line that ends
/// it, and everywhere else no more than a delimiter and four bytes, whatever
/// the size of the body.
pub proof fn law_waiting_readers_hold_little(stream: StreamView)
    requires
        placed(stream),
    ensures
        field_step(stream) matches (moved, Ok(Polled::Pending)) ==> available(moved).len()
            <= lookahead(moved),
        chunk_step(stream) matches (moved, Ok(Polled::Pending)) ==> available(moved).len()
            <= lookahead(moved),
{
    lemma_scan(available(stream), stream.delimiter, 0);
    lemma_scan_withholds(available(stream), stream.delimiter, 0);
}

/// A run of data handed out for a part is never the start of its boundary,
/// whatever the rest of the body turns out to be, and it is exactly what was
/// consumed.
pub proof fn law_chunks_are_part_data(stream: StreamView, rest: Seq<u8>)
    requires
        placed(stream),
        stream.state is Part,
    ensures
        match chunk_step(stream) {
            (moved, Ok(Polled::Ready(Some(chunk)))) => {
                &&& placed(moved)
                &&& moved.state is Part
                &&& moved.data_from == stream.data_from
                &&& chunk == stream.seen.subrange(stream.position, moved.position)
                &&& forall|i: int|
                    stream.data_from <= i < moved.position ==> !is_boundary(
                        stream.seen + rest,
                        stream.delimiter,
                        i,
                    )
            },
            _ => true,
        },
{
    lemma_scan(available(stream), stream.delimiter, 0);
    if let (moved, Ok(Polled::Ready(Some(chunk)))) = chunk_step(stream) {
        let offset = moved.position - stream.position;
        lemma_moves_over_data(stream, offset);
        assert(chunk =~= stream.seen.subrange(stream.position, moved.position));
        assert forall|i: int|
            stream.data_from <= i < moved.position implies !is_boundary(
            stream.seen + rest,
            stream.delimiter,
            i,
        ) by {
            assert(never_boundary(moved.seen, moved.delimiter, i));
        }
    }
}

/// However a body is cut into chunks, a part ends where the first boundary of
/// the whole body behind its headers stands.
pub proof fn law_parts_end_at_the_boundary(stream: StreamView, rest: Seq<u8>)
    requires
        placed(stream),
        stream.state is Part,
        chunk_step(stream).1 == Ok::<Polled<Option<Seq<u8>>>, Seq<char>>(Polled::Ready(None)),
    ensures
        part_end(stream.seen + rest, stream.delimiter, stream.data_from) == Some(stream.position),
{
    lemma_scan(available(stream), stream.delimiter, 0);
    let body = stream.seen + rest;
    lemma_boundary_shifts(stream.seen, stream.delimiter, stream.position, 0);
    let suffix = stream.position + 2 + stream.delimiter.len();
    assert(is_boundary(stream.seen, stream.delimiter, stream.position));
    lemma_within(stream.seen, rest, line_break(), stream.position);
    lemma_within(stream.seen, rest, stream.delimiter, stream.position + 2);
    if occurs_at(stream.seen, line_break(), suffix) {
        lemma_within(stream.seen, rest, line_break(), suffix);
    } else {
        lemma_within(stream.seen, rest, dashes(), suffix);
    }
    assert forall|i: int| stream.data_from <= i < stream.position implies !is_boundary(
        body,
        stream.delimiter,
        i,
    ) by {
        assert(never_boundary(stream.seen, stream.delimiter, i));
    }
    lemma_part_end_is(body, stream.delimiter, stream.data_from, stream.position);
}

/// However a body is cut into chunks, the headers a reader reports are those
/// that stand in the whole body at that place.
pub proof fn law_headers_are_those_of_the_body(stream: StreamView, rest: Seq<u8>)
    requires
        placed(stream),
        stream.state is Headers,
    ensures
        match headers_step(stream) {
            (moved, Ok(Polled::Ready(Some(part)))) => part_headers_at(
                stream.seen + rest,
                stream.position,
            ) == Ok::<(PartView, int), Seq<char>>((part, moved.position)),
            _ => true,
        },
{
    if first_match(available(stream), blank_line(), 0) is Some {
        lemma_headers_in_body(stream, rest);
    }
}

/// The end of a header block stands where the whole body has it.
proof fn lemma_headers_in_body(stream: StreamView, rest: Seq<u8>)
    requires
        0 <= stream.position <= stream.seen.len(),
        first_match(available(stream), blank_line(), 0) is Some,
    ensures
        first_match(stream.seen + rest, blank_line(), stream.position) is Some,
        match (
            part_headers_at(available(stream), 0),
            part_headers_at(stream.seen + rest, stream.position),
        ) {
            (Ok((part, start)), Ok((found, place))) => part == found && place == stream.position
                + start,
            (Err(reason), Err(found)) => reason == found,
            _ => false,
        },
{
    let body = stream.seen + rest;
    let window = available(stream);
    lemma_first_match(window, blank_line(), 0);
    let end = first_match(window, blank_line(), 0)->Some_0;
    lemma_first_match(body, blank_line(), stream.position);
    lemma_occurs_shifts(stream.seen, blank_line(), stream.position, end);
    lemma_within(stream.seen, rest, blank_line(), stream.position + end);
    let found = first_match(body, blank_line(), stream.position)->Some_0;
    assert(found <= stream.position + end);
    if found < stream.position + end {
        lemma_within(stream.seen, rest, blank_line(), found);
        lemma_occurs_shifts(stream.seen, blank_line(), stream.position, found - stream.position);
        assert(false);
    }
    assert(body.subrange(stream.position, found) =~= window.subrange(0, end));
}

/// A header block whose end has not arrived ends, if at all, behind what has.
proof fn lemma_headers_end_later(stream: StreamView, rest: Seq<u8>)
    requires
        0 <= stream.position <= stream.seen.len(),
        first_match(available(stream), blank_line(), 0) is None,
    ensures
        first_match(stream.seen + rest, blank_line(), stream.position) matches Some(end)
            ==> end - stream.position + 3 >= available(stream).len(),
        rest.len() == 0 ==> first_match(stream.seen + rest, blank_line(), stream.position) is None,
{
    let body = stream.seen + rest;
    lemma_first_match(available(stream), blank_line(), 0);
    lemma_first_match(body, blank_line(), stream.position);
    if let Some(end) = first_match(body, blank_line(), stream.position) {
        if end + 4 <= stream.seen.len() {
            lemma_within(stream.seen, rest, blank_line(), end);
            lemma_occurs_shifts(stream.seen, blank_line(), stream.position, end - stream.position);
        }
    }
}

/// Both readers take the same header blocks: while the headers that stand in
/// the whole body are acceptable, no prefix of the body has them refused.
pub proof fn law_accepted_headers_are_not_refused(stream: StreamView, rest: Seq<u8>)
    requires
        placed(stream),
        stream.state is Headers,
        stream.parts < MAX_MULTIPART_PARTS,
        stream.ended ==> rest.len() == 0,
        part_headers_at(stream.seen + rest, stream.position) is Ok,
    ensures
        headers_step(stream).1 is Ok,
{
    if first_match(available(stream), blank_line(), 0) is Some {
        lemma_headers_in_body(stream, rest);
    } else {
        lemma_headers_end_later(stream, rest);
    }
}

/// A failure is final: from then on every further part is refused, and no more
/// data comes.
pub proof fn law_failures_are_final(stream: StreamView, rest: Seq<u8>)
    requires
        placed(stream),
    ensures
        field_step(stream).1 is Err ==> field_step(stream).0.state is Failed,
        chunk_step(stream).1 is Err ==> chunk_step(stream).0.state is Failed,
        stream.state is Failed ==> {
            let fed = StreamView { seen: stream.seen + rest, ..stream };
            &&& field_step(fed) == (
                fed,
                Err::<Polled<Option<PartView>>, Seq<char>>(
                    "multipart body already failed to parse"@,
                ),
            )
            &&& chunk_step(fed) == (
                fed,
                Ok::<Polled<Option<Seq<u8>>>, Seq<char>>(Polled::Ready(None)),
            )
        },
{
}

// ---------------------------------------------------------------------------
// Whole bodies
// ---------------------------------------------------------------------------

/// What reading a body to its end, or to its first failure, yields: the parts
/// with all the data that came for each, and the failure.
pub type Reading = (Seq<PartContent>, Option<Seq<char>>);

/// The parts with more data behind the last one.
pub open spec fn continued(read: Seq<PartContent>, chunk: Seq<u8>) -> Seq<PartContent> {
    read.drop_last().push(
        PartContent { headers: read.last().headers, bytes: read.last().bytes + chunk },
    )
}

/// The bytes of chunks, one behind the other.
pub open spec fn joined(chunks: Seq<Seq<u8>>) -> Seq<u8>
    decreases chunks.len(),
{
    if chunks.len() == 0 {
        Seq::empty()
    } else {
        chunks[0] + joined(chunks.drop_first())
    }
}

/// How far a reader that may still be fed is from its end.
pub open spec fn feedings(stream: StreamView, chunks: Seq<Seq<u8>>) -> nat {
    chunks.len() + if stream.ended {
        0nat
    } else {
        1nat
    }
}

proof fn lemma_headers_placed(stream: StreamView)
    requires
        placed(stream),
        !(stream.state is Failed),
    ensures
        placed(headers_step(stream).0),
        headers_step(stream).0.seen == stream.seen,
        headers_step(stream).0.ended == stream.ended,
        headers_step(stream).0.delimiter == stream.delimiter,
        headers_step(stream).1 matches Ok(Polled::Ready(Some(_))) ==> headers_step(
            stream,
        ).0.position > stream.position,
        headers_step(stream).1 matches Ok(Polled::Pending) ==> headers_step(stream).0 == stream
            && !stream.ended,
        !(headers_step(stream).1 matches Ok(Polled::Ready(None))),
{
    lemma_first_match(available(stream), blank_line(), 0);
}

proof fn lemma_settled_placed(stream: StreamView)
    requires
        placed(stream),
        !(stream.state is Failed),
    ensures
        placed(settled_step(stream).0),
        settled_step(stream).0.seen == stream.seen,
        settled_step(stream).0.ended == stream.ended,
        settled_step(stream).1 matches Ok(Polled::Ready(Some(_))) ==> settled_step(
            stream,
        ).0.position > stream.position,
        settled_step(stream).1 matches Ok(Polled::Pending) ==> !stream.ended,
{
    lemma_headers_placed(stream);
    if stream.state is Suffix {
        let (moved, stop) = suffix_step(stream);
        assert(placed(moved));
        if stop is None {
            lemma_headers_placed(moved);
        }
    }
}

/// A step that completed consumed something.
pub proof fn lemma_steps_consume(stream: StreamView)
    requires
        placed(stream),
    ensures
        placed(field_step(stream).0),
        placed(chunk_step(stream).0),
        field_step(stream).1 matches Ok(Polled::Ready(Some(_))) ==> {
            &&& field_step(stream).0.position > stream.position
            &&& field_step(stream).0.seen == stream.seen
            &&& field_step(stream).0.ended == stream.ended
        },
        field_step(stream).1 matches Ok(Polled::Pending) ==> {
            &&& field_step(stream).0.seen == stream.seen
            &&& !stream.ended
            &&& !field_step(stream).0.ended
        },
        stream.state is Part ==> match chunk_step(stream) {
            (moved, Ok(Polled::Ready(_))) => {
                &&& moved.position > stream.position
                &&& moved.seen == stream.seen
                &&& moved.ended == stream.ended
            },
            (moved, Ok(Polled::Pending)) => moved == stream && !stream.ended,
            _ => true,
        },
{
    lemma_scan(available(stream), stream.delimiter, 0);
    match stream.state {
        MultipartState::Failed => {},
        MultipartState::Opening => {
            let (moved, stop) = opening_step(stream);
            assert(placed(moved));
            if stop is None {
                lemma_settled_placed(moved);
            }
        },
        MultipartState::Part => {
            let (moved, stop) = skip_step(stream);
            match scan_from(available(stream), stream.delimiter, 0) {
                ScanView::Terminator(offset) => {
                    lemma_settled_placed(moved);
                },
                ScanView::Data(safe) => {
                    lemma_moves_over_data(stream, safe);
                },
            }
            if let (moved, Ok(Polled::Ready(Some(chunk)))) = chunk_step(stream) {
                lemma_moves_over_data(stream, moved.position - stream.position);
            }
        },
        _ => {
            lemma_settled_placed(stream);
        },
    }
}

/// Reads a body to its end or to its first failure, part after part and chunk
/// after chunk, and takes in the next piece of the body whenever the reader
/// waits for more.
pub open spec fn reading(
    stream: StreamView,
    chunks: Seq<Seq<u8>>,
    read: Seq<PartContent>,
) -> Reading
    decreases feedings(stream, chunks), stream.seen.len() - stream.position,
    when placed(stream)
{
    proof {
        lemma_steps_consume(stream);
    }
    if stream.state is Part {
        match chunk_step(stream) {
            (_, Err(reason)) => (read, Some(reason)),
            (moved, Ok(Polled::Ready(None))) => reading(moved, chunks, read),
            (moved, Ok(Polled::Ready(Some(chunk)))) => reading(
                moved,
                chunks,
                continued(read, chunk),
            ),
            (moved, Ok(Polled::Pending)) => if chunks.len() == 0 {
                reading(StreamView { ended: true, ..moved }, chunks, read)
            } else {
                reading(
                    StreamView { seen: moved.seen + chunks[0], ..moved },
                    chunks.drop_first(),
                    read,
                )
            },
        }
    } else {
        match field_step(stream) {
            (_, Err(reason)) => (read, Some(reason)),
            (_, Ok(Polled::Ready(None))) => (read, None),
            (moved, Ok(Polled::Ready(Some(part)))) => reading(
                moved,
                chunks,
                read.push(PartContent { headers: part, bytes: Seq::empty() }),
            ),
            (moved, Ok(Polled::Pending)) => if chunks.len() == 0 {
                reading(StreamView { ended: true, ..moved }, chunks, read)
            } else {
                reading(
                    StreamView { seen: moved.seen + chunks[0], ..moved },
                    chunks.drop_first(),
                    read,
                )
            },
        }
    }
}

/// The header block at a position of a whole body as a streaming reader takes
/// it.
pub open spec fn streamed_headers(body: Seq<u8>, at: int) -> Result<(PartView, int), Seq<char>> {
    if first_match(body, blank_line(), at) is None && body.len() - at > MAX_MULTIPART_HEADER_BYTES
        + 3 {
        Err("multipart part headers exceed the configured limit"@)
    } else {
        part_headers_at(body, at)
    }
}

/// Where the data that comes for a part without a boundary ends.
pub open spec fn withheld_from(body: Seq<u8>, delimiter: Seq<u8>, start: int) -> int {
    match scan_from(body.skip(start), delimiter, 0) {
        ScanView::Terminator(offset) => start + offset,
        ScanView::Data(safe) => start + safe,
    }
}

/// What a whole body yields from a header block on.
pub open spec fn streamed_from(
    body: Seq<u8>,
    delimiter: Seq<u8>,
    at: int,
    read: Seq<PartContent>,
) -> Reading
    decreases body.len() - at, 1int,
{
    match streamed_headers(body, at) {
        Err(reason) => (read, Some(reason)),
        Ok((part, start)) => if read.len() >= MAX_MULTIPART_PARTS {
            (read, Some("multipart body contains too many parts"@))
        } else {
            proof {
                lemma_first_match(body, blank_line(), at);
            }
            streamed_data(body, delimiter, part, start, read)
        },
    }
}

/// What a whole body yields from the data of a part on.
pub open spec fn streamed_data(
    body: Seq<u8>,
    delimiter: Seq<u8>,
    part: PartView,
    start: int,
    read: Seq<PartContent>,
) -> Reading
    decreases body.len() - start, 0int,
{
    match part_end(body, delimiter, start) {
        None => (
            read.push(
                PartContent {
                    headers: part,
                    bytes: body.subrange(start, withheld_from(body, delimiter, start)),
                },
            ),
            Some("multipart part has no closing boundary"@),
        ),
        Some(end) => {
            let parts = read.push(
                PartContent { headers: part, bytes: body.subrange(start, end) },
            );
            let suffix = end + 2 + delimiter.len();
            if occurs_at(body, dashes(), suffix) {
                (parts, None)
            } else {
                proof {
                    lemma_part_end(body, delimiter, start);
                }
                streamed_from(body, delimiter, suffix + 2, parts)
            }
        },
    }
}

/// What a whole body yields from behind its opening delimiter on.
pub open spec fn streamed_behind(body: Seq<u8>, delimiter: Seq<u8>, at: int) -> Reading {
    if occurs_at(body, dashes(), at) {
        (Seq::empty(), None)
    } else if occurs_at(body, line_break(), at) {
        streamed_from(body, delimiter, at + 2, Seq::empty())
    } else {
        (Seq::empty(), Some("multipart boundary is malformed"@))
    }
}

/// What a whole body yields, whatever pieces it comes in.
pub open spec fn streamed(body: Seq<u8>, delimiter: Seq<u8>) -> Reading {
    if occurs_at(body, delimiter, 0) {
        streamed_behind(body, delimiter, delimiter.len() as int)
    } else {
        (Seq::empty(), Some("multipart body does not start with its declared boundary"@))
    }
}

/// What a whole body yields beyond what a reader has read of it.
spec fn due(stream: StreamView, body: Seq<u8>, read: Seq<PartContent>) -> Reading {
    match stream.state {
        MultipartState::Opening => streamed(body, stream.delimiter),
        MultipartState::Suffix => streamed_behind(body, stream.delimiter, stream.position),
        MultipartState::Headers => streamed_from(body, stream.delimiter, stream.position, read),
        MultipartState::Part => streamed_data(
            body,
            stream.delimiter,
            read.last().headers,
            stream.data_from,
            read.drop_last(),
        ),
        _ => (read, None),
    }
}

/// A reader that has read these parts of a body, and of the current part all
/// the data it moved over.
spec fn has_read(stream: StreamView, read: Seq<PartContent>) -> bool {
    &&& placed(stream)
    &&& !(stream.state is Failed)
    &&& stream.parts == read.len()
    &&& stream.state is Opening ==> stream.position == 0
    &&& stream.state is Opening || stream.state is Suffix ==> read.len() == 0
    &&& stream.state is Part ==> {
        &&& read.len() > 0
        &&& read.last().bytes == stream.seen.subrange(stream.data_from, stream.position)
        &&& forall|i: int|
            stream.data_from <= i < stream.position ==> passed_over(
                stream.seen,
                stream.delimiter,
                i,
            )
    }
}

proof fn lemma_headers_read(stream: StreamView, rest: Seq<u8>, read: Seq<PartContent>)
    requires
        has_read(stream, read),
        stream.state is Headers,
        stream.ended ==> rest.len() == 0,
    ensures
        ({
            let body = stream.seen + rest;
            match headers_step(stream) {
                (_, Err(reason)) => due(stream, body, read) == (read, Some(reason)),
                (moved, Ok(Polled::Ready(Some(part)))) => {
                    let more = read.push(PartContent { headers: part, bytes: Seq::empty() });
                    &&& has_read(moved, more)
                    &&& due(moved, body, more) == due(stream, body, read)
                },
                (moved, Ok(Polled::Pending)) => moved == stream,
                _ => false,
            }
        }),
{
    let body = stream.seen + rest;
    lemma_headers_placed(stream);
    if first_match(available(stream), blank_line(), 0) is Some {
        lemma_headers_in_body(stream, rest);
        lemma_first_match(available(stream), blank_line(), 0);
        lemma_first_match(body, blank_line(), stream.position);
        if let (moved, Ok(Polled::Ready(Some(part)))) = headers_step(stream) {
            let more = read.push(PartContent { headers: part, bytes: Seq::empty() });
            assert(more.last().bytes =~= moved.seen.subrange(moved.data_from, moved.position));
            assert(more.drop_last() =~= read);
        }
    } else {
        lemma_headers_end_later(stream, rest);
    }
}

proof fn lemma_suffix_read(stream: StreamView, rest: Seq<u8>, read: Seq<PartContent>)
    requires
        has_read(stream, read),
        stream.state is Suffix,
        stream.ended ==> rest.len() == 0,
    ensures
        ({
            let body = stream.seen + rest;
            match suffix_step(stream) {
                (_, Some(StreamStop::Refused(reason))) => due(stream, body, read) == (
                    read,
                    Some(reason),
                ),
                (moved, Some(StreamStop::Pending)) => moved == stream,
                (moved, None) => {
                    &&& has_read(moved, read)
                    &&& moved.state is Done || moved.state is Headers
                    &&& moved.ended == stream.ended
                    &&& moved.seen == stream.seen
                    &&& due(moved, body, read) == due(stream, body, read)
                },
            }
        }),
{
    let body = stream.seen + rest;
    assert(read =~= Seq::empty());
    if available(stream).len() >= 2 {
        lemma_occurs_shifts(stream.seen, dashes(), stream.position, 0);
        lemma_occurs_shifts(stream.seen, line_break(), stream.position, 0);
        lemma_within(stream.seen, rest, dashes(), stream.position);
        lemma_within(stream.seen, rest, line_break(), stream.position);
    }
}

proof fn lemma_opening_read(stream: StreamView, rest: Seq<u8>, read: Seq<PartContent>)
    requires
        has_read(stream, read),
        stream.state is Opening,
        stream.ended ==> rest.len() == 0,
    ensures
        ({
            let body = stream.seen + rest;
            match opening_step(stream) {
                (_, Some(StreamStop::Refused(reason))) => due(stream, body, read) == (
                    read,
                    Some(reason),
                ),
                (moved, Some(StreamStop::Pending)) => moved == stream,
                (moved, None) => {
                    &&& has_read(moved, read)
                    &&& moved.state is Suffix
                    &&& moved.ended == stream.ended
                    &&& moved.seen == stream.seen
                    &&& due(moved, body, read) == due(stream, body, read)
                },
            }
        }),
{
    let body = stream.seen + rest;
    assert(read =~= Seq::empty());
    if available(stream).len() >= stream.delimiter.len() {
        lemma_occurs_shifts(stream.seen, stream.delimiter, stream.position, 0);
        lemma_within(stream.seen, rest, stream.delimiter, 0);
    }
}

/// Reading the next part's headers keeps what is due.
proof fn lemma_field_read(stream: StreamView, rest: Seq<u8>, read: Seq<PartContent>)
    requires
        has_read(stream, read),
        !(stream.state is Part),
        stream.ended ==> rest.len() == 0,
    ensures
        ({
            let body = stream.seen + rest;
            match field_step(stream) {
                (_, Err(reason)) => due(stream, body, read) == (read, Some(reason)),
                (_, Ok(Polled::Ready(None))) => due(stream, body, read) == (
                    read,
                    None::<Seq<char>>,
                ),
                (moved, Ok(Polled::Ready(Some(part)))) => {
                    let more = read.push(PartContent { headers: part, bytes: Seq::empty() });
                    &&& has_read(moved, more)
                    &&& moved.seen == stream.seen
                    &&& due(moved, body, more) == due(stream, body, read)
                },
                (moved, Ok(Polled::Pending)) => {
                    &&& has_read(moved, read)
                    &&& !(moved.state is Part)
                    &&& moved.seen == stream.seen
                    &&& moved.delimiter == stream.delimiter
                    &&& due(moved, body, read) == due(stream, body, read)
                },
            }
        }),
{
    lemma_steps_consume(stream);
    if stream.state is Opening {
        lemma_opening_read(stream, rest, read);
        let (moved, stop) = opening_step(stream);
        if stop is None {
            lemma_suffix_read(moved, rest, read);
            let (settled, stop) = suffix_step(moved);
            if stop is None && settled.state is Headers {
                lemma_headers_read(settled, rest, read);
                lemma_headers_placed(settled);
            }
        }
    } else if stream.state is Suffix {
        lemma_suffix_read(stream, rest, read);
        let (settled, stop) = suffix_step(stream);
        if stop is None && settled.state is Headers {
            lemma_headers_read(settled, rest, read);
            lemma_headers_placed(settled);
        }
    } else if stream.state is Headers {
        lemma_headers_read(stream, rest, read);
        lemma_headers_placed(stream);
    }
}

/// A position that the data decides, and not for a boundary.
spec fn passed_over(data: Seq<u8>, delimiter: Seq<u8>, at: int) -> bool {
    &&& at + 4 <= data.len()
    &&& !undecided(data, delimiter, at)
}

/// A scan stops at the last three bytes or at an undecided position, and
/// decides every position before it.
proof fn lemma_scan_stops(data: Seq<u8>, delimiter: Seq<u8>, from: int)
    requires
        0 <= from,
    ensures
        match scan_from(data, delimiter, from) {
            ScanView::Terminator(at) => forall|i: int|
                from <= i < at ==> passed_over(data, delimiter, i),
            ScanView::Data(safe) => {
                &&& safe + 3 >= data.len() || undecided(data, delimiter, safe)
                &&& forall|i: int| from <= i < safe ==> passed_over(data, delimiter, i)
            },
        },
    decreases data.len() - from,
{
    if from + 4 <= data.len() && !is_boundary(data, delimiter, from) && !undecided(
        data,
        delimiter,
        from,
    ) {
        lemma_scan_stops(data, delimiter, from + 1);
    }
}

/// What is decided stays decided as the body grows.
proof fn lemma_passed_grows(data: Seq<u8>, more: Seq<u8>, delimiter: Seq<u8>, at: int)
    requires
        0 <= at,
        passed_over(data, delimiter, at),
    ensures
        passed_over(data + more, delimiter, at),
{
    let whole = data + more;
    lemma_within(data, more, boundary_lead(), at);
    if undecided(whole, delimiter, at) {
        let n = arrived(data, delimiter, at);
        let m = arrived(whole, delimiter, at);
        assert(n <= m);
        assert(data.subrange(at + 2, at + 2 + n) =~= whole.subrange(at + 2, at + 2 + m).take(n));
        assert(delimiter.take(n) =~= delimiter.take(m).take(n));
    }
}

proof fn lemma_undecided_shifts(data: Seq<u8>, delimiter: Seq<u8>, by: int, at: int)
    requires
        0 <= by <= data.len(),
        0 <= at,
    ensures
        undecided(data.skip(by), delimiter, at) == undecided(data, delimiter, by + at),
{
    lemma_occurs_shifts(data, boundary_lead(), by, at);
    if occurs_at(data, boundary_lead(), by + at) {
        let n = arrived(data, delimiter, by + at);
        assert(data.skip(by).subrange(at + 2, at + 2 + n) =~= data.subrange(
            by + at + 2,
            by + at + 2 + n,
        ));
    }
}

/// Moving as far as a scan allows decides every position moved over.
proof fn lemma_moves_over_decided(stream: StreamView, offset: int)
    requires
        0 <= stream.position <= stream.seen.len(),
        0 <= offset,
        match scan_from(available(stream), stream.delimiter, 0) {
            ScanView::Terminator(at) => offset <= at,
            ScanView::Data(safe) => offset <= safe,
        },
    ensures
        forall|i: int|
            stream.position <= i < stream.position + offset ==> passed_over(
                stream.seen,
                stream.delimiter,
                i,
            ),
{
    lemma_scan_stops(available(stream), stream.delimiter, 0);
    assert forall|i: int| stream.position <= i < stream.position + offset implies passed_over(
        stream.seen,
        stream.delimiter,
        i,
    ) by {
        let at = i - stream.position;
        assert(passed_over(available(stream), stream.delimiter, at));
        lemma_undecided_shifts(stream.seen, stream.delimiter, stream.position, at);
    }
}

/// A reader that can move no further in a whole body stands where the data of
/// its part ends, and no boundary follows.
proof fn lemma_stuck(stream: StreamView)
    requires
        placed(stream),
        stream.state is Part,
        scan_from(available(stream), stream.delimiter, 0) == ScanView::Data(0),
        forall|i: int|
            stream.data_from <= i < stream.position ==> passed_over(
                stream.seen,
                stream.delimiter,
                i,
            ),
    ensures
        part_end(stream.seen, stream.delimiter, stream.data_from) is None,
        withheld_from(stream.seen, stream.delimiter, stream.data_from) == stream.position,
{
    let body = stream.seen;
    let start = stream.data_from;
    let tail = body.skip(start);
    lemma_scan_stops(available(stream), stream.delimiter, 0);
    lemma_undecided_shifts(body, stream.delimiter, stream.position, 0);
    lemma_part_end(body, stream.delimiter, start);
    if let Some(end) = part_end(body, stream.delimiter, start) {
        if end < stream.position {
            assert(never_boundary(body, stream.delimiter, end));
            assert(body + Seq::<u8>::empty() =~= body);
            assert(!is_boundary(body + Seq::<u8>::empty(), stream.delimiter, end));
        } else if end == stream.position {
            lemma_boundary_shifts(body, stream.delimiter, stream.position, 0);
        }
        assert(false);
    }
    lemma_scan_stops(tail, stream.delimiter, 0);
    lemma_scan(tail, stream.delimiter, 0);
    match scan_from(tail, stream.delimiter, 0) {
        ScanView::Terminator(at) => {
            lemma_boundary_shifts(body, stream.delimiter, start, at);
            assert(false);
        },
        ScanView::Data(safe) => {
            lemma_undecided_shifts(body, stream.delimiter, start, safe);
            if start + safe < stream.position {
                assert(passed_over(body, stream.delimiter, start + safe));
                assert(false);
            }
            if start + safe > stream.position {
                let at = stream.position - start;
                assert(passed_over(tail, stream.delimiter, at));
                lemma_undecided_shifts(body, stream.delimiter, start, at);
                assert(false);
            }
        },
    }
}

/// Reading the data of a part keeps what is due.
proof fn lemma_chunk_read(stream: StreamView, rest: Seq<u8>, read: Seq<PartContent>)
    requires
        has_read(stream, read),
        stream.state is Part,
        stream.ended ==> rest.len() == 0,
    ensures
        ({
            let body = stream.seen + rest;
            match chunk_step(stream) {
                (_, Err(reason)) => due(stream, body, read) == (read, Some(reason)),
                (moved, Ok(Polled::Ready(None))) => {
                    &&& has_read(moved, read)
                    &&& moved.seen == stream.seen
                    &&& due(moved, body, read) == due(stream, body, read)
                },
                (moved, Ok(Polled::Ready(Some(chunk)))) => {
                    &&& has_read(moved, continued(read, chunk))
                    &&& moved.seen == stream.seen
                    &&& due(moved, body, continued(read, chunk)) == due(stream, body, read)
                },
                (moved, Ok(Polled::Pending)) => moved == stream,
            }
        }),
{
    let body = stream.seen + rest;
    lemma_steps_consume(stream);
    lemma_scan(available(stream), stream.delimiter, 0);
    match chunk_step(stream) {
        (_, Err(reason)) => {
            assert(body =~= stream.seen);
            lemma_stuck(stream);
            assert(read =~= read.drop_last().push(read.last()));
        },
        (moved, Ok(Polled::Ready(None))) => {
            law_parts_end_at_the_boundary(stream, rest);
            let suffix = stream.position + 2 + stream.delimiter.len();
            let offset = 2 + stream.delimiter.len() as int;
            lemma_occurs_shifts(stream.seen, dashes(), stream.position, offset);
            lemma_within(stream.seen, rest, dashes(), suffix);
            assert(body.subrange(stream.data_from, stream.position) =~= read.last().bytes);
            assert(read =~= read.drop_last().push(read.last()));
        },
        (moved, Ok(Polled::Ready(Some(chunk)))) => {
            let more = continued(read, chunk);
            lemma_moves_over_decided(stream, moved.position - stream.position);
            assert(more.drop_last() =~= read.drop_last());
            assert(more.last().bytes =~= moved.seen.subrange(moved.data_from, moved.position));
        },
        _ => {},
    }
}

/// Taking in more of the body keeps what was read.
proof fn lemma_fed_read(stream: StreamView, chunk: Seq<u8>, read: Seq<PartContent>)
    requires
        has_read(stream, read),
    ensures
        has_read(StreamView { seen: stream.seen + chunk, ..stream }, read),
{
    let fed = StreamView { seen: stream.seen + chunk, ..stream };
    if stream.state is Part {
        assert forall|i: int| stream.data_from <= i < stream.position implies never_boundary(
            fed.seen,
            stream.delimiter,
            i,
        ) && passed_over(fed.seen, stream.delimiter, i) by {
            lemma_never_grows(stream.seen, chunk, stream.delimiter, i);
            assert(passed_over(stream.seen, stream.delimiter, i));
            lemma_passed_grows(stream.seen, chunk, stream.delimiter, i);
        }
        assert(fed.seen.subrange(stream.data_from, stream.position) =~= stream.seen.subrange(
            stream.data_from,
            stream.position,
        ));
    }
}

proof fn lemma_reading(stream: StreamView, chunks: Seq<Seq<u8>>, read: Seq<PartContent>)
    requires
        has_read(stream, read),
        stream.ended ==> chunks.len() == 0,
    ensures
        reading(stream, chunks, read) == due(stream, stream.seen + joined(chunks), read),
    decreases feedings(stream, chunks), stream.seen.len() - stream.position,
{
    let rest = joined(chunks);
    lemma_steps_consume(stream);
    if stream.state is Part {
        lemma_chunk_read(stream, rest, read);
        match chunk_step(stream) {
            (_, Err(reason)) => {},
            (moved, Ok(Polled::Ready(None))) => {
                lemma_reading(moved, chunks, read);
            },
            (moved, Ok(Polled::Ready(Some(chunk)))) => {
                lemma_reading(moved, chunks, continued(read, chunk));
            },
            (moved, Ok(Polled::Pending)) => {
                lemma_reading_on(moved, chunks, read);
                if chunks.len() == 0 {
                    lemma_reading(StreamView { ended: true, ..moved }, chunks, read);
                } else {
                    lemma_reading(
                        StreamView { seen: moved.seen + chunks[0], ..moved },
                        chunks.drop_first(),
                        read,
                    );
                }
            },
        }
    } else {
        lemma_field_read(stream, rest, read);
        match field_step(stream) {
            (moved, Ok(Polled::Ready(Some(part)))) => {
                lemma_reading(
                    moved,
                    chunks,
                    read.push(PartContent { headers: part, bytes: Seq::empty() }),
                );
            },
            (moved, Ok(Polled::Pending)) => {
                lemma_reading_on(moved, chunks, read);
                if chunks.len() == 0 {
                    lemma_reading(StreamView { ended: true, ..moved }, chunks, read);
                } else {
                    lemma_reading(
                        StreamView { seen: moved.seen + chunks[0], ..moved },
                        chunks.drop_first(),
                        read,
                    );
                }
            },
            _ => {},
        }
    }
}

proof fn lemma_reading_on(stream: StreamView, chunks: Seq<Seq<u8>>, read: Seq<PartContent>)
    requires
        has_read(stream, read),
    ensures
        chunks.len() == 0 ==> has_read(StreamView { ended: true, ..stream }, read),
        chunks.len() > 0 ==> {
            let fed = StreamView { seen: stream.seen + chunks[0], ..stream };
            &&& has_read(fed, read)
            &&& fed.seen + joined(chunks.drop_first()) == stream.seen + joined(chunks)
        },
{
    if chunks.len() > 0 {
        lemma_fed_read(stream, chunks[0], read);
        assert(stream.seen + chunks[0] + joined(chunks.drop_first()) =~= stream.seen + joined(
            chunks,
        ));
    }
}

/// What a body yields does not depend on how it is cut: the parts, the data of
/// each, and the failure that ends it early are those of the whole body.
pub proof fn law_cutting_changes_nothing(delimiter: Seq<u8>, chunks: Seq<Seq<u8>>)
    requires
        is_delimiter(delimiter),
    ensures
        reading(opened(delimiter), chunks, Seq::empty()) == streamed(joined(chunks), delimiter),
{
    lemma_reading(opened(delimiter), chunks, Seq::empty());
    assert(opened(delimiter).seen + joined(chunks) =~= joined(chunks));
}

proof fn lemma_streamed_agrees(
    body: Seq<u8>,
    delimiter: Seq<u8>,
    at: int,
    read: Seq<PartContent>,
)
    requires
        0 <= at,
    ensures
        match parts_from(body, delimiter, at, read) {
            Ok(parts) => streamed_from(body, delimiter, at, read) == (parts, None::<Seq<char>>),
            Err(_) => streamed_from(body, delimiter, at, read).1 is Some,
        },
    decreases body.len() - at,
{
    if let Ok((part, start)) = part_headers_at(body, at) {
        lemma_first_match(body, blank_line(), at);
        lemma_part_end(body, delimiter, start);
        if let Some(end) = part_end(body, delimiter, start) {
            let parts = read.push(
                PartContent { headers: part, bytes: body.subrange(start, end) },
            );
            lemma_streamed_agrees(body, delimiter, end + 2 + delimiter.len() + 2, parts);
        }
    }
}

/// Both readers take the same bodies: a body that comes in pieces is read to
/// its closing delimiter exactly where the whole body is accepted, and then it
/// yields the same parts.
pub proof fn law_streaming_agrees_with_buffering(delimiter: Seq<u8>, chunks: Seq<Seq<u8>>)
    requires
        is_delimiter(delimiter),
    ensures
        match document(joined(chunks), delimiter) {
            Ok(parts) => reading(opened(delimiter), chunks, Seq::empty()) == (
                parts,
                None::<Seq<char>>,
            ),
            Err(_) => reading(opened(delimiter), chunks, Seq::empty()).1 is Some,
        },
{
    law_cutting_changes_nothing(delimiter, chunks);
    lemma_streamed_agrees(
        joined(chunks),
        delimiter,
        delimiter.len() as int + 2,
        Seq::empty(),
    );
}

/// A stream that is no multipart is answered with status 422, one with a part over
/// its limit with status 413, and one that broke off with status 400. What is told
/// of it names the source of the fault, and the reason or the limit.
pub proof fn law_stream_faults_have_their_status(fault: MultipartFault)
    ensures
        fault is Malformed <==> fault_status(fault) == 422,
        fault is TooLarge <==> fault_status(fault) == 413,
        fault is Transport <==> fault_status(fault) == 400,
        fault matches MultipartFault::Malformed(reason) ==> {
            &&& fault_code(fault) == "invalid_multipart"@
            &&& fault_text(fault) == reason
            &&& members(fault_details(fault))["source"@] == JsonView::Text("multipart"@)
            &&& members(fault_details(fault))["reason"@] == JsonView::Text(reason)
        },
        fault matches MultipartFault::TooLarge(limit) ==> {
            &&& fault_code(fault) == "payload_too_large"@
            &&& members(fault_details(fault))["source"@] == JsonView::Text("multipart"@)
            &&& members(fault_details(fault))["limit"@] == JsonView::Number(
                NumberView::Unsigned(limit as u64),
            )
        },
        fault matches MultipartFault::Transport(code, message) ==> {
            &&& fault_code(fault) == "upload_stream_failed"@
            &&& fault_text(fault) == message
            &&& members(fault_details(fault))["source"@] == JsonView::Text("stream"@)
            &&& members(fault_details(fault))["reason"@] == JsonView::Text(code)
        },
{
    reveal_strlit("source");
    reveal_strlit("reason");
    reveal_strlit("limit");
    assert("source"@[0] == 's' && "reason"@[0] == 'r' && "limit"@[0] == 'l');
}

} // verus!
