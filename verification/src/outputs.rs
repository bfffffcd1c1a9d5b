//! Typed arguments and responses, and how much room their bodies need.
use crate::contract::{TypeDescriptor, TypeView};
use crate::json::{compact_json, compact_text, JsonValue};
use crate::operation::{headers_view, ApiSchema, HeaderView, ResponseHeader};
use std::marker::PhantomData;
use vstd::prelude::*;
use vstd::string::*;
use vstd::utf8::encode_utf8;

verus! {

/// A typed JSON request or response body.
#[derive(Clone, Debug, PartialEq, Eq)]
pub struct Json<T>(pub T);

/// A typed path argument.
#[derive(Clone, Debug, PartialEq, Eq)]
pub struct Path<T>(pub T);

/// Typed URL query arguments.
#[derive(Clone, Debug, PartialEq, Eq)]
pub struct Query<T>(pub T);

/// A typed HTTP header argument.
#[derive(Clone, Debug, PartialEq, Eq)]
pub struct Header<T>(pub T);

/// A typed HTTP cookie argument.
#[derive(Clone, Debug, PartialEq, Eq)]
pub struct Cookie<T>(pub T);

/// A typed `application/x-www-form-urlencoded` request body.
#[derive(Clone, Debug, PartialEq, Eq)]
pub struct Form<T>(pub T);

/// A typed `multipart/form-data` request body.
#[derive(Clone, Debug, PartialEq, Eq)]
pub struct Multipart<T>(pub T);

/// A typed uploaded file argument.
#[derive(Clone, Debug, PartialEq, Eq)]
pub struct File<T>(pub T);

/// A response with status 201.
#[derive(Clone, Debug, PartialEq, Eq)]
pub struct Created<T>(pub T);

/// A response with status 202.
#[derive(Clone, Debug, PartialEq, Eq)]
pub struct Accepted<T>(pub T);

/// A response with status 204 and no body.
#[derive(Clone, Copy, Debug, PartialEq, Eq)]
pub struct NoContent;

impl Default for NoContent {
    fn default() -> (response: Self)
        ensures
            response == NoContent,
    {
        NoContent
    }
}

/// Overrides the successful status of another typed response.
#[derive(Clone, Debug, PartialEq, Eq)]
pub struct Status<const STATUS: u16, T>(pub T);

/// Adds response headers without changing the typed response body.
#[derive(Clone, Debug, PartialEq, Eq)]
pub struct WithHeaders<T> {
    pub response: T,
    pub headers: Vec<ResponseHeader>,
}

impl<T> WithHeaders<T> {
    /// Adds a header behind those already there.
    #[must_use]
    pub fn header(self, name: &str, value: &str) -> (response: Self)
        ensures
            response.response == self.response,
            headers_view(response.headers@) == headers_view(self.headers@).push(
                HeaderView { name: name@, value: value@ },
            ),
    {
        let mut updated = self;
        let ghost before = updated.headers@;
        updated.headers.push(ResponseHeader::new(name, value));
        assert(headers_view(updated.headers@) =~= headers_view(before).push(
            HeaderView { name: name@, value: value@ },
        ));
        updated
    }

    #[must_use]
    pub fn into_parts(self) -> (parts: (T, Vec<ResponseHeader>))
        ensures
            parts == (self.response, self.headers),
    {
        (self.response, self.headers)
    }
}

/// Decorates any typed response with headers.
pub trait ResponseExt: Sized {
    #[must_use]
    fn header(self, name: &str, value: &str) -> (response: WithHeaders<Self>)
        ensures
            response.response == self,
            headers_view(response.headers@) == seq![HeaderView { name: name@, value: value@ }],
    ;
}

impl<T> ResponseExt for T {
    fn header(self, name: &str, value: &str) -> (response: WithHeaders<Self>) {
        let mut headers: Vec<ResponseHeader> = Vec::new();
        headers.push(ResponseHeader::new(name, value));
        assert(headers_view(headers@) =~= seq![HeaderView { name: name@, value: value@ }]);
        WithHeaders { response: self, headers }
    }
}

// ---------------------------------------------------------------------------
// Response body sizing
// ---------------------------------------------------------------------------

/// Distinct response shapes tracked before slots start colliding.
pub const RESPONSE_HINT_SLOTS: usize = 32;

/// Floor for a learned hint.
pub const MIN_RESPONSE_HINT: usize = 128;

/// Ceiling for a learned hint, so one outsized response cannot make every
/// later response of that shape reserve megabytes.
pub const MAX_RESPONSE_HINT: usize = 1048576;

/// Last observed encoded size per response shape, direct mapped.
///
/// The table is advisory: a stale or colliding entry only changes the initial
/// capacity of a body, never the bytes produced.
pub struct ResponseHints {
    entries: Vec<(usize, usize)>,
}

/// The slot that a shape maps to.
pub open spec fn hint_slot(shape: usize) -> int {
    (shape / 16) as int % 32
}

/// The hint that a recorded size leaves: an eighth and some bytes of headroom,
/// between the floor and the ceiling.
pub open spec fn hint_of(size: nat) -> nat {
    let roomy = size + size / 8 + 32;
    if roomy < MIN_RESPONSE_HINT {
        MIN_RESPONSE_HINT as nat
    } else if roomy > MAX_RESPONSE_HINT {
        MAX_RESPONSE_HINT as nat
    } else {
        roomy
    }
}

impl View for ResponseHints {
    type V = Seq<(usize, usize)>;

    closed spec fn view(&self) -> Seq<(usize, usize)> {
        self.entries@
    }
}

/// The capacity to reserve for a shape.
pub open spec fn hint_for(hints: Seq<(usize, usize)>, shape: usize) -> nat {
    let (stored, hint) = hints[hint_slot(shape)];
    if stored == shape && hint > MIN_RESPONSE_HINT {
        hint as nat
    } else {
        MIN_RESPONSE_HINT as nat
    }
}

impl ResponseHints {
    #[verifier::type_invariant]
    spec fn sized(&self) -> bool {
        &&& self.entries@.len() == RESPONSE_HINT_SLOTS
        &&& forall|i: int|
            0 <= i < self.entries@.len() ==> (#[trigger] self.entries@[i]).1 <= MAX_RESPONSE_HINT
    }

    /// A table in which no shape was seen.
    #[must_use]
    pub fn new() -> (hints: Self)
        ensures
            hints@ == Seq::new(32, |i: int| (0usize, 0usize)),
    {
        let mut entries: Vec<(usize, usize)> = Vec::new();
        let mut index: usize = 0;
        while index < RESPONSE_HINT_SLOTS
            invariant
                index <= 32,
                entries@.len() == index,
                forall|i: int| 0 <= i < index ==> #[trigger] entries@[i] == (0usize, 0usize),
            decreases 32 - index,
        {
            entries.push((0, 0));
            index += 1;
        }
        let hints = ResponseHints { entries };
        assert(hints@ =~= Seq::new(32, |i: int| (0usize, 0usize)));
        hints
    }
}

fn response_hint_slot(shape: usize) -> (slot: usize)
    ensures
        slot == hint_slot(shape),
        slot < 32,
{
    (shape / 16) % RESPONSE_HINT_SLOTS
}

/// Returns the capacity to reserve for the next body of a shape.
#[must_use]
pub fn response_size_hint(hints: &ResponseHints, shape: usize) -> (hint: usize)
    ensures
        hint == hint_for(hints@, shape),
        MIN_RESPONSE_HINT <= hint <= MAX_RESPONSE_HINT,
        hints@.len() == RESPONSE_HINT_SLOTS,
{
    proof {
        use_type_invariant(hints);
    }
    let (stored, hint) = hints.entries[response_hint_slot(shape)];
    if stored == shape && hint > MIN_RESPONSE_HINT {
        hint
    } else {
        MIN_RESPONSE_HINT
    }
}

/// Records the encoded size of a body of a shape.
pub fn record_response_size(hints: &mut ResponseHints, shape: usize, size: usize)
    ensures
        final(hints)@ == old(hints)@.update(hint_slot(shape), (shape, hint_of(size as nat) as usize)),
        final(hints)@.len() == RESPONSE_HINT_SLOTS,
        hint_for(final(hints)@, shape) == hint_of(size as nat),
{
    proof {
        use_type_invariant(&*hints);
    }
    let roomy: usize = size.saturating_add(size / 8).saturating_add(32);
    let hint: usize = if roomy < MIN_RESPONSE_HINT {
        MIN_RESPONSE_HINT
    } else if roomy > MAX_RESPONSE_HINT {
        MAX_RESPONSE_HINT
    } else {
        roomy
    };
    assert(hint == hint_of(size as nat));
    let slot = response_hint_slot(shape);
    let mut entries: Vec<(usize, usize)> = Vec::new();
    let mut index: usize = 0;
    let ghost before = hints.entries@;
    while index < RESPONSE_HINT_SLOTS
        invariant
            index <= 32,
            slot < 32,
            before == hints.entries@,
            before.len() == 32,
            hint <= MAX_RESPONSE_HINT,
            forall|i: int| 0 <= i < 32 ==> (#[trigger] before[i]).1 <= MAX_RESPONSE_HINT,
            entries@.len() == index,
            forall|i: int| 0 <= i < index ==> #[trigger] entries@[i] == before.update(
                slot as int,
                (shape, hint),
            )[i],
        decreases 32 - index,
    {
        if index == slot {
            entries.push((shape, hint));
        } else {
            entries.push(hints.entries[index]);
        }
        index += 1;
    }
    assert(entries@ =~= before.update(slot as int, (shape, hint)));
    *hints = ResponseHints { entries };
}

/// A hint stays between the floor and the ceiling, whatever was recorded, and
/// a body no larger than the one recorded fits the room it reserves, up to the
/// ceiling.
pub proof fn law_hints_are_bounded(hints: Seq<(usize, usize)>, shape: usize, size: nat)
    requires
        hints.len() == 32,
    ensures
        MIN_RESPONSE_HINT <= hint_of(size) <= MAX_RESPONSE_HINT,
        size <= MAX_RESPONSE_HINT - 32 - MAX_RESPONSE_HINT / 8 ==> size < hint_of(size),
        hint_for(hints.update(hint_slot(shape), (shape, hint_of(size) as usize)), shape) == hint_of(
            size,
        ),
{
}

// ---------------------------------------------------------------------------
// Bodies an operation encoded itself
// ---------------------------------------------------------------------------

/// A JSON response body the operation encoded itself, described by `T`.
///
/// The bytes are carried to the transport untouched.
pub struct PreparedJson<T> {
    body: Vec<u8>,
    schema: PhantomData<T>,
}

impl<T> PreparedJson<T> {
    /// The bytes of the body.
    pub closed spec fn bytes(&self) -> Seq<u8> {
        self.body@
    }

    /// Adopts bytes that are already JSON.
    #[must_use]
    pub fn from_bytes(body: Vec<u8>) -> (prepared: Self)
        ensures
            prepared.bytes() == body@,
    {
        PreparedJson { body, schema: PhantomData }
    }

    #[must_use]
    pub fn as_bytes(&self) -> (bytes: &[u8])
        ensures
            bytes@ == self.bytes(),
    {
        self.body.as_slice()
    }

    #[must_use]
    pub fn into_bytes(self) -> (bytes: Vec<u8>)
        ensures
            bytes@ == self.bytes(),
    {
        self.body
    }

    #[must_use]
    pub fn len(&self) -> (count: usize)
        ensures
            count == self.bytes().len(),
    {
        self.body.len()
    }

    #[must_use]
    pub fn is_empty(&self) -> (empty: bool)
        ensures
            empty == (self.bytes().len() == 0),
    {
        self.body.len() == 0
    }

    /// Encodes a value, and records how much room its shape needs.
    pub fn encode(hints: &mut ResponseHints, shape: usize, value: &JsonValue) -> (prepared: Option<
        Self,
    >)
        ensures
            match prepared {
                Some(prepared) => {
                    &&& compact_json(value@) matches Some(text) && prepared.bytes() == encode_utf8(
                        text,
                    )
                    &&& final(hints)@ == old(hints)@.update(
                        hint_slot(shape),
                        (shape, hint_of(prepared.bytes().len()) as usize),
                    )
                },
                None => compact_json(value@) is None && final(hints)@ == old(hints)@,
            },
    {
        match compact_text(value) {
            Some(text) => {
                let bytes = text.as_str().as_bytes();
                let mut body: Vec<u8> = Vec::with_capacity(response_size_hint(hints, shape));
                body.extend_from_slice(bytes);
                assert(body@ =~= bytes@);
                record_response_size(hints, shape, body.len());
                Some(PreparedJson::from_bytes(body))
            },
            None => None,
        }
    }
}

impl<T: ApiSchema> ApiSchema for PreparedJson<T> {
    open spec fn described() -> TypeView {
        T::described()
    }

    fn type_descriptor() -> (ty: TypeDescriptor) {
        T::type_descriptor()
    }
}

} // verus!
