//! Uploads that travel beside a JSON document instead of inside it.
use crate::body::{UploadFile, UploadView};
use crate::json::{members, JsonNumber, JsonValue, JsonView, NumberView};
use crate::operation::opt_text;
use crate::text::{decimal, decimal_text, eq_text};
use vstd::prelude::*;
use vstd::string::*;

verus! {

/// The reserved object key that stands for an upload parked in a slot.
pub const UPLOAD_SLOT_KEY: &'static str = "$blazingly::upload";

// ---------------------------------------------------------------------------
// Slots
// ---------------------------------------------------------------------------

/// The uploads parked for the extractions that are running.
///
/// A typed multipart body is decoded from a JSON document built from the
/// parts. Text parts belong in that document; upload bytes do not. Each upload
/// is parked here, a one-entry token stands for it in the document, and the
/// decoder takes it back out: the bytes are moved, never re-encoded.
#[derive(Clone, Debug, PartialEq, Eq)]
pub struct UploadTable {
    pub slots: Vec<Option<UploadFile>>,
}

/// What a slot holds.
pub open spec fn slot_view(slot: Option<UploadFile>) -> Option<UploadView> {
    match slot {
        Some(upload) => Some(upload@),
        None => None,
    }
}

impl View for UploadTable {
    type V = Seq<Option<UploadView>>;

    open spec fn view(&self) -> Seq<Option<UploadView>> {
        self.slots@.map_values(|slot: Option<UploadFile>| slot_view(slot))
    }
}

/// The token that stands for a slot in a document.
pub open spec fn slot_token(index: u64) -> JsonView {
    JsonView::Object(map![UPLOAD_SLOT_KEY@ => JsonView::Number(NumberView::Unsigned(index))])
}

/// What taking from a slot hands out.
pub open spec fn taken(slots: Seq<Option<UploadView>>, index: int) -> Option<UploadView> {
    if 0 <= index < slots.len() {
        slots[index]
    } else {
        None
    }
}

/// The slots after one was taken from.
pub open spec fn without(slots: Seq<Option<UploadView>>, index: int) -> Seq<Option<UploadView>> {
    if 0 <= index < slots.len() {
        slots.update(index, None)
    } else {
        slots
    }
}

impl UploadTable {
    #[must_use]
    pub fn new() -> (table: Self)
        ensures
            table@ == Seq::<Option<UploadView>>::empty(),
    {
        let table = UploadTable { slots: Vec::new() };
        assert(table@ =~= Seq::empty());
        table
    }

    /// Moves the upload parked at `index` out of the table.
    ///
    /// Nothing comes of an index that was never parked, was already taken, or
    /// belongs to an extraction that has ended.
    pub fn take_parked_upload(&mut self, index: usize) -> (upload: Option<UploadFile>)
        ensures
            slot_view(upload) == taken(old(self)@, index as int),
            final(self)@ == without(old(self)@, index as int),
    {
        let ghost before = self@;
        if index >= self.slots.len() {
            return None;
        }
        let slot = self.slots.remove(index);
        self.slots.insert(index, None);
        assert(self@ =~= before.update(index as int, None));
        slot
    }
}

/// The extraction scope that owns the uploads parked inside it.
#[derive(Clone, Copy, Debug, PartialEq, Eq)]
pub struct UploadSlots {
    pub base: usize,
}

impl UploadSlots {
    /// Opens a scope for the uploads of one extraction.
    #[must_use]
    pub fn acquire(table: &UploadTable) -> (scope: Self)
        ensures
            scope.base == table@.len(),
    {
        UploadSlots { base: table.slots.len() }
    }

    /// Parks an upload and returns the token that stands for it in the
    /// document.
    #[must_use]
    pub fn park(&self, table: &mut UploadTable, upload: UploadFile) -> (token: JsonValue)
        ensures
            final(table)@ == old(table)@.push(Some(upload@)),
            token@ == slot_token(old(table)@.len() as u64),
    {
        let ghost before = table@;
        let index = table.slots.len() as u64;
        table.slots.push(Some(upload));
        assert(table@ =~= before.push(Some(upload@)));
        let token = JsonValue::object().with(UPLOAD_SLOT_KEY, JsonValue::unsigned(index));
        assert(members(token@) =~= members(slot_token(index)));
        token
    }

    /// Ends the scope: what was parked since it was opened is gone.
    pub fn release(self, table: &mut UploadTable)
        ensures
            final(table)@ == if self.base <= old(table)@.len() {
                old(table)@.take(self.base as int)
            } else {
                old(table)@
            },
    {
        let ghost before = table@;
        if self.base <= table.slots.len() {
            table.slots.truncate(self.base);
            assert(table@ =~= before.take(self.base as int));
        }
    }
}

/// A parked upload is handed out once: a second attempt at its slot finds
/// nothing.
pub proof fn law_uploads_are_taken_once(slots: Seq<Option<UploadView>>, index: int)
    ensures
        taken(without(slots, index), index) is None,
        forall|other: int| other != index ==> taken(without(slots, index), other) == taken(
            slots,
            other,
        ),
{
}

/// The slots of an extraction that started from others: those are still there,
/// apart from what was taken from them.
pub open spec fn inside(before: Seq<Option<UploadView>>, during: Seq<Option<UploadView>>) -> bool {
    &&& before.len() <= during.len()
    &&& forall|i: int|
        0 <= i < before.len() ==> (#[trigger] during[i]) is None || during[i] == before[i]
}

/// A scope restores the table: whatever is parked and taken inside it, ending
/// it leaves the slots that were there before, apart from what was taken from
/// them, and nothing that was parked inside it can be taken any more.
pub proof fn law_scopes_do_not_leak(
    before: Seq<Option<UploadView>>,
    during: Seq<Option<UploadView>>,
    upload: UploadView,
    index: int,
)
    requires
        inside(before, during),
    ensures
        inside(before, before),
        inside(before, during.push(Some(upload))),
        inside(before, without(during, index)),
        inside(before, during.take(before.len() as int)),
        during.take(before.len() as int).len() == before.len(),
        index >= before.len() ==> taken(during.take(before.len() as int), index) is None,
{
}

// ---------------------------------------------------------------------------
// Decoding an upload
// ---------------------------------------------------------------------------

/// Fields understood when an upload is decoded.
#[derive(Clone, Copy, Debug, PartialEq, Eq)]
pub enum UploadField {
    Slot,
    FieldName,
    FileName,
    ContentType,
    Bytes,
    Unknown,
}

/// The field that a key names.
pub open spec fn field_of(key: Seq<char>) -> UploadField {
    if key == UPLOAD_SLOT_KEY@ {
        UploadField::Slot
    } else if key == "field_name"@ {
        UploadField::FieldName
    } else if key == "file_name"@ {
        UploadField::FileName
    } else if key == "content_type"@ {
        UploadField::ContentType
    } else if key == "bytes"@ {
        UploadField::Bytes
    } else {
        UploadField::Unknown
    }
}

impl UploadField {
    /// The field that a key names.
    #[must_use]
    pub fn named(key: &str) -> (field: Self)
        ensures
            field == field_of(key@),
    {
        if eq_text(key, UPLOAD_SLOT_KEY) {
            UploadField::Slot
        } else if eq_text(key, "field_name") {
            UploadField::FieldName
        } else if eq_text(key, "file_name") {
            UploadField::FileName
        } else if eq_text(key, "content_type") {
            UploadField::ContentType
        } else if eq_text(key, "bytes") {
            UploadField::Bytes
        } else {
            UploadField::Unknown
        }
    }
}

/// Why an upload could not be decoded.
#[derive(Clone, Copy, Debug, PartialEq, Eq)]
pub enum UploadFault {
    /// The slot that a token names holds nothing.
    Unavailable,
    /// A field is given twice.
    Duplicate(UploadField),
    /// A field that every upload has is absent.
    Missing(UploadField),
    /// A field holds a value of another type.
    Mistyped(UploadField),
    /// The value is not an object.
    NotAnObject,
}

/// The key of a field.
pub open spec fn key_of(field: UploadField) -> Seq<char> {
    match field {
        UploadField::Slot => UPLOAD_SLOT_KEY@,
        UploadField::FieldName => "field_name"@,
        UploadField::FileName => "file_name"@,
        UploadField::ContentType => "content_type"@,
        UploadField::Bytes => "bytes"@,
        UploadField::Unknown => ""@,
    }
}

/// A fault as shown to people.
pub open spec fn upload_fault_text(fault: UploadFault) -> Seq<char> {
    match fault {
        UploadFault::Unavailable => "uploaded file bytes are no longer available"@,
        UploadFault::Duplicate(field) => "duplicate field `"@ + key_of(field) + "`"@,
        UploadFault::Missing(field) => "missing field `"@ + key_of(field) + "`"@,
        UploadFault::Mistyped(field) => "invalid value in field `"@ + key_of(field) + "`"@,
        UploadFault::NotAnObject => "invalid type: expected an uploaded file"@,
    }
}

impl UploadField {
    #[must_use]
    fn key(self) -> (key: &'static str)
        ensures
            key@ == key_of(self),
    {
        match self {
            UploadField::Slot => UPLOAD_SLOT_KEY,
            UploadField::FieldName => "field_name",
            UploadField::FileName => "file_name",
            UploadField::ContentType => "content_type",
            UploadField::Bytes => "bytes",
            UploadField::Unknown => "",
        }
    }
}

fn about_field(lead: &str, field: UploadField) -> (text: String)
    ensures
        text@ == lead@ + key_of(field) + "`"@,
{
    let mut text = lead.to_owned();
    text.append(field.key());
    text.append("`");
    text
}

impl UploadFault {
    /// The fault as shown to people.
    #[must_use]
    pub fn to_string(&self) -> (text: String)
        ensures
            text@ == upload_fault_text(*self),
    {
        match self {
            UploadFault::Unavailable => "uploaded file bytes are no longer available".to_owned(),
            UploadFault::Duplicate(field) => about_field("duplicate field `", *field),
            UploadFault::Missing(field) => about_field("missing field `", *field),
            UploadFault::Mistyped(field) => about_field("invalid value in field `", *field),
            UploadFault::NotAnObject => "invalid type: expected an uploaded file".to_owned(),
        }
    }
}

/// The fields of an upload read so far.
#[derive(Clone, Debug, PartialEq, Eq)]
pub struct UploadDraft {
    pub field_name: Option<String>,
    pub file_name: Option<Option<String>>,
    pub content_type: Option<Option<String>>,
    pub bytes: Option<Vec<u8>>,
}

/// What an optional field that may be absent says.
pub open spec fn given_text(text: Option<Option<String>>) -> Option<Seq<char>> {
    match text {
        Some(Some(text)) => Some(text@),
        _ => None,
    }
}

impl UploadDraft {
    #[must_use]
    pub fn new() -> (draft: Self)
        ensures
            draft == (UploadDraft {
                field_name: None,
                file_name: None,
                content_type: None,
                bytes: None,
            }),
    {
        UploadDraft { field_name: None, file_name: None, content_type: None, bytes: None }
    }

    /// Takes in the field name, which may be given once.
    pub fn set_field_name(&mut self, name: String) -> (set: Result<(), UploadFault>)
        ensures
            match set {
                Ok(_) => old(self).field_name is None && *final(self) == (UploadDraft {
                    field_name: Some(name),
                    ..*old(self)
                }),
                Err(fault) => old(self).field_name is Some && *final(self) == *old(self) && fault
                    == UploadFault::Duplicate(UploadField::FieldName),
            },
    {
        if self.field_name.is_some() {
            return Err(UploadFault::Duplicate(UploadField::FieldName));
        }
        self.field_name = Some(name);
        Ok(())
    }

    /// Takes in the file name, which may be given once.
    pub fn set_file_name(&mut self, name: Option<String>) -> (set: Result<(), UploadFault>)
        ensures
            match set {
                Ok(_) => old(self).file_name is None && *final(self) == (UploadDraft {
                    file_name: Some(name),
                    ..*old(self)
                }),
                Err(fault) => old(self).file_name is Some && *final(self) == *old(self) && fault
                    == UploadFault::Duplicate(UploadField::FileName),
            },
    {
        if self.file_name.is_some() {
            return Err(UploadFault::Duplicate(UploadField::FileName));
        }
        self.file_name = Some(name);
        Ok(())
    }

    /// Takes in the media type, which may be given once.
    pub fn set_content_type(&mut self, content_type: Option<String>) -> (set: Result<
        (),
        UploadFault,
    >)
        ensures
            match set {
                Ok(_) => old(self).content_type is None && *final(self) == (UploadDraft {
                    content_type: Some(content_type),
                    ..*old(self)
                }),
                Err(fault) => old(self).content_type is Some && *final(self) == *old(self) && fault
                    == UploadFault::Duplicate(UploadField::ContentType),
            },
    {
        if self.content_type.is_some() {
            return Err(UploadFault::Duplicate(UploadField::ContentType));
        }
        self.content_type = Some(content_type);
        Ok(())
    }

    /// Takes in the bytes, which may be given once.
    pub fn set_bytes(&mut self, bytes: Vec<u8>) -> (set: Result<(), UploadFault>)
        ensures
            match set {
                Ok(_) => old(self).bytes is None && *final(self) == (UploadDraft {
                    bytes: Some(bytes),
                    ..*old(self)
                }),
                Err(fault) => old(self).bytes is Some && *final(self) == *old(self) && fault
                    == UploadFault::Duplicate(UploadField::Bytes),
            },
    {
        if self.bytes.is_some() {
            return Err(UploadFault::Duplicate(UploadField::Bytes));
        }
        self.bytes = Some(bytes);
        Ok(())
    }

    /// The upload, if its name and its bytes were given.
    pub fn finish(self) -> (upload: Result<UploadFile, UploadFault>)
        ensures
            match upload {
                Ok(upload) => {
                    &&& self.field_name matches Some(name) && self.bytes matches Some(bytes)
                        && upload@ == (UploadView {
                        field_name: name@,
                        file_name: given_text(self.file_name),
                        content_type: given_text(self.content_type),
                        bytes: bytes@,
                    })
                },
                Err(fault) => if self.field_name is None {
                    fault == UploadFault::Missing(UploadField::FieldName)
                } else {
                    self.bytes is None && fault == UploadFault::Missing(UploadField::Bytes)
                },
            },
    {
        let field_name = match self.field_name {
            Some(name) => name,
            None => {
                return Err(UploadFault::Missing(UploadField::FieldName));
            },
        };
        let bytes = match self.bytes {
            Some(bytes) => bytes,
            None => {
                return Err(UploadFault::Missing(UploadField::Bytes));
            },
        };
        let file_name = match self.file_name {
            Some(name) => name,
            None => None,
        };
        let content_type = match self.content_type {
            Some(content_type) => content_type,
            None => None,
        };
        Ok(UploadFile { field_name, file_name, content_type, bytes })
    }
}

/// The bytes that a JSON list spells out.
pub open spec fn listed_bytes(items: Seq<JsonView>) -> Option<Seq<u8>>
    decreases items.len(),
{
    if items.len() == 0 {
        Some(Seq::empty())
    } else {
        match (listed_bytes(items.drop_last()), items.last()) {
            (Some(bytes), JsonView::Number(NumberView::Unsigned(byte))) => if byte <= 255 {
                Some(bytes.push(byte as u8))
            } else {
                None
            },
            _ => None,
        }
    }
}

/// A text, or nothing where the value is null.
pub open spec fn text_or_null(value: JsonView) -> Option<Option<Seq<char>>> {
    match value {
        JsonView::Null => Some(None),
        JsonView::Text(text) => Some(Some(text)),
        _ => None,
    }
}

/// The member of an object with a key.
pub open spec fn member(value: JsonView, key: Seq<char>) -> Option<JsonView> {
    if members(value).dom().contains(key) {
        Some(members(value)[key])
    } else {
        None
    }
}

/// The upload that an object spells out, without regard to slots.
pub open spec fn spelled_upload(value: JsonView) -> Result<UploadView, UploadFault> {
    let bytes = match member(value, "bytes"@) {
        None => Some(None),
        Some(JsonView::List(items)) => match listed_bytes(items) {
            Some(bytes) => Some(Some(bytes)),
            None => None,
        },
        Some(_) => None,
    };
    let content_type = match member(value, "content_type"@) {
        None => Some(None),
        Some(given) => text_or_null(given),
    };
    let field_name = match member(value, "field_name"@) {
        None => Some(None),
        Some(JsonView::Text(name)) => Some(Some(name)),
        Some(_) => None,
    };
    let file_name = match member(value, "file_name"@) {
        None => Some(None),
        Some(given) => text_or_null(given),
    };
    if bytes is None {
        Err(UploadFault::Mistyped(UploadField::Bytes))
    } else if content_type is None {
        Err(UploadFault::Mistyped(UploadField::ContentType))
    } else if field_name is None {
        Err(UploadFault::Mistyped(UploadField::FieldName))
    } else if file_name is None {
        Err(UploadFault::Mistyped(UploadField::FileName))
    } else if field_name->Some_0 is None {
        Err(UploadFault::Missing(UploadField::FieldName))
    } else if bytes->Some_0 is None {
        Err(UploadFault::Missing(UploadField::Bytes))
    } else {
        Ok(
            UploadView {
                field_name: field_name->Some_0->Some_0,
                file_name: file_name->Some_0,
                content_type: content_type->Some_0,
                bytes: bytes->Some_0->Some_0,
            },
        )
    }
}

/// The slot that a token names.
pub open spec fn slot_named(value: JsonView) -> Option<JsonView> {
    member(value, UPLOAD_SLOT_KEY@)
}

/// The upload that a value stands for: one parked in a slot, or one spelled
/// out.
pub open spec fn upload_meant(value: JsonView, slots: Seq<Option<UploadView>>) -> Result<
    UploadView,
    UploadFault,
> {
    if !(value is Object) {
        Err(UploadFault::NotAnObject)
    } else {
        match slot_named(value) {
            Some(JsonView::Number(NumberView::Unsigned(index))) => if index > usize::MAX {
                Err(UploadFault::Mistyped(UploadField::Slot))
            } else {
                match taken(slots, index as int) {
                    Some(upload) => Ok(upload),
                    None => Err(UploadFault::Unavailable),
                }
            },
            Some(_) => Err(UploadFault::Mistyped(UploadField::Slot)),
            None => spelled_upload(value),
        }
    }
}

/// The slots after a value was decoded.
pub open spec fn slots_left(value: JsonView, slots: Seq<Option<UploadView>>) -> Seq<
    Option<UploadView>,
> {
    match slot_named(value) {
        Some(JsonView::Number(NumberView::Unsigned(index))) => if index > usize::MAX {
            slots
        } else {
            without(slots, index as int)
        },
        _ => slots,
    }
}

fn read_bytes(value: &JsonValue) -> (bytes: Option<Vec<u8>>)
    ensures
        match value@ {
            JsonView::List(items) => match bytes {
                Some(bytes) => listed_bytes(items) == Some(bytes@),
                None => listed_bytes(items) is None,
            },
            _ => bytes is None,
        },
{
    match value {
        JsonValue::Array(items) => {
            let ghost views = value@->List_0;
            let mut bytes: Vec<u8> = Vec::new();
            let mut index: usize = 0;
            assert(views.take(0) =~= Seq::empty());
            while index < items.len()
                invariant
                    index <= items@.len(),
                    value@ == JsonView::List(views),
                    views.len() == items@.len(),
                    forall|i: int| 0 <= i < views.len() ==> #[trigger] views[i] == items@[i]@,
                    listed_bytes(views.take(index as int)) == Some(bytes@),
                decreases items@.len() - index,
            {
                proof {
                    assert(views.take(index + 1).drop_last() =~= views.take(index as int));
                    assert(views.take(index + 1).last() == items@[index as int]@);
                }
                match &items[index] {
                    JsonValue::Number(JsonNumber::Unsigned(byte)) => {
                        if *byte > 255 {
                            proof {
                                lemma_bad_byte(views, (index + 1) as int);
                            }
                            return None;
                        }
                        bytes.push(*byte as u8);
                    },
                    _ => {
                        proof {
                            lemma_bad_byte(views, (index + 1) as int);
                        }
                        return None;
                    },
                }
                index += 1;
            }
            assert(views.take(index as int) =~= views);
            Some(bytes)
        },
        _ => None,
    }
}

proof fn lemma_bad_byte(items: Seq<JsonView>, until: int)
    requires
        0 <= until <= items.len(),
        listed_bytes(items.take(until)) is None,
    ensures
        listed_bytes(items) is None,
    decreases items.len() - until,
{
    if until == items.len() {
        assert(items.take(until) =~= items);
    } else {
        assert(items.take(until + 1).drop_last() =~= items.take(until));
        lemma_bad_byte(items, until + 1);
    }
}

/// Takes a text, or nothing where the value is null.
fn read_text_or_null(value: &JsonValue) -> (text: Option<Option<String>>)
    ensures
        match text {
            Some(text) => text_or_null(value@) == Some(opt_text(text)),
            None => text_or_null(value@) is None,
        },
{
    match value {
        JsonValue::Null => Some(None),
        JsonValue::String(text) => Some(Some(text.clone())),
        _ => None,
    }
}

fn spell_out(value: &JsonValue) -> (upload: Result<UploadFile, UploadFault>)
    ensures
        match upload {
            Ok(upload) => spelled_upload(value@) == Ok::<UploadView, UploadFault>(upload@),
            Err(fault) => spelled_upload(value@) == Err::<UploadView, UploadFault>(fault),
        },
{
    let mut draft = UploadDraft::new();
    if let Some(given) = value.get("bytes") {
        match read_bytes(given) {
            Some(bytes) => {
                draft.bytes = Some(bytes);
            },
            None => {
                return Err(UploadFault::Mistyped(UploadField::Bytes));
            },
        }
    }
    if let Some(given) = value.get("content_type") {
        match read_text_or_null(given) {
            Some(text) => {
                draft.content_type = Some(text);
            },
            None => {
                return Err(UploadFault::Mistyped(UploadField::ContentType));
            },
        }
    }
    if let Some(given) = value.get("field_name") {
        match given.as_str() {
            Some(name) => {
                draft.field_name = Some(name.to_owned());
            },
            None => {
                return Err(UploadFault::Mistyped(UploadField::FieldName));
            },
        }
    }
    if let Some(given) = value.get("file_name") {
        match read_text_or_null(given) {
            Some(text) => {
                draft.file_name = Some(text);
            },
            None => {
                return Err(UploadFault::Mistyped(UploadField::FileName));
            },
        }
    }
    draft.finish()
}

/// Decodes an upload from a value, taking its bytes out of the table where
/// the value is a slot token.
pub fn decode_upload(value: &JsonValue, table: &mut UploadTable) -> (upload: Result<
    UploadFile,
    UploadFault,
>)
    ensures
        match upload {
            Ok(upload) => upload_meant(value@, old(table)@) == Ok::<UploadView, UploadFault>(
                upload@,
            ),
            Err(fault) => upload_meant(value@, old(table)@) == Err::<UploadView, UploadFault>(
                fault,
            ),
        },
        final(table)@ == slots_left(value@, old(table)@),
{
    if !value.is_object() {
        return Err(UploadFault::NotAnObject);
    }
    match value.get(UPLOAD_SLOT_KEY) {
        Some(JsonValue::Number(JsonNumber::Unsigned(index))) => {
            if *index > usize::MAX as u64 {
                return Err(UploadFault::Mistyped(UploadField::Slot));
            }
            match table.take_parked_upload(*index as usize) {
                Some(upload) => Ok(upload),
                None => Err(UploadFault::Unavailable),
            }
        },
        Some(_) => Err(UploadFault::Mistyped(UploadField::Slot)),
        None => spell_out(value),
    }
}

/// The kind of a value, in a word.
pub open spec fn kind_word(value: JsonView) -> Seq<char> {
    match value {
        JsonView::Null => "null"@,
        JsonView::Bool(_) => "boolean"@,
        JsonView::Number(_) => "number"@,
        JsonView::Text(_) => "string"@,
        JsonView::List(_) => "array"@,
        JsonView::Object(_) => "object"@,
    }
}

/// What is said of a value of another kind than is expected.
pub open spec fn other_kind(expected: Seq<char>, value: JsonView) -> Seq<char> {
    "expected "@ + expected + ", found "@ + kind_word(value)
}

/// What is said of the first item of a list, from one position on, that is no
/// byte.
pub open spec fn byte_reason(items: Seq<JsonView>, at: int) -> Seq<char>
    decreases items.len() - at,
{
    if at < 0 || at >= items.len() {
        Seq::empty()
    } else {
        match items[at] {
            JsonView::Number(NumberView::Unsigned(byte)) => if byte <= 255 {
                byte_reason(items, at + 1)
            } else {
                "integer is out of range"@
            },
            other => other_kind("unsigned integer"@, other),
        }
    }
}

/// What a client is told of a value that is no upload.
pub open spec fn upload_reason(value: JsonView, fault: UploadFault) -> Seq<char> {
    match fault {
        UploadFault::NotAnObject => other_kind("object"@, value),
        UploadFault::Mistyped(field) => match member(value, key_of(field)) {
            None => upload_fault_text(fault),
            Some(given) => match (field, given) {
                (UploadField::Bytes, JsonView::List(items)) => byte_reason(items, 0),
                (UploadField::Bytes, _) => other_kind("array"@, given),
                (
                    UploadField::Slot,
                    JsonView::Number(NumberView::Unsigned(index)),
                ) => "invalid value: integer `"@ + decimal(index as nat) + "`, expected usize"@,
                (UploadField::Slot, _) => other_kind("unsigned integer"@, given),
                _ => other_kind("string"@, given),
            },
        },
        _ => upload_fault_text(fault),
    }
}

fn word_of_kind(value: &JsonValue) -> (word: &'static str)
    ensures
        word@ == kind_word(value@),
{
    match value {
        JsonValue::Null => "null",
        JsonValue::Bool(_) => "boolean",
        JsonValue::Number(_) => "number",
        JsonValue::String(_) => "string",
        JsonValue::Array(_) => "array",
        JsonValue::Object(_) => "object",
    }
}

fn other_kind_text(expected: &str, value: &JsonValue) -> (text: String)
    ensures
        text@ == other_kind(expected@, value@),
{
    let mut text = "expected ".to_owned();
    text.append(expected);
    text.append(", found ");
    text.append(word_of_kind(value));
    text
}

fn byte_reason_text(items: &Vec<JsonValue>) -> (text: String)
    ensures
        text@ == byte_reason(
            items@.map_values(|item: JsonValue| crate::json::json_view(item)),
            0,
        ),
{
    let ghost views = items@.map_values(|item: JsonValue| crate::json::json_view(item));
    let mut index: usize = 0;
    while index < items.len()
        invariant
            index <= items@.len(),
            views == items@.map_values(|item: JsonValue| crate::json::json_view(item)),
            byte_reason(views, 0) == byte_reason(views, index as int),
        decreases items@.len() - index,
    {
        assert(views[index as int] == items@[index as int]@);
        match &items[index] {
            JsonValue::Number(JsonNumber::Unsigned(byte)) => {
                if *byte > 255 {
                    return "integer is out of range".to_owned();
                }
            },
            other => {
                return other_kind_text("unsigned integer", other);
            },
        }
        index += 1;
    }
    let text = String::new();
    assert(text@ =~= Seq::<char>::empty());
    text
}

/// What a client is told of a value that is no upload.
#[must_use]
pub fn upload_reason_text(value: &JsonValue, fault: UploadFault) -> (text: String)
    ensures
        text@ == upload_reason(value@, fault),
{
    match fault {
        UploadFault::NotAnObject => other_kind_text("object", value),
        UploadFault::Mistyped(field) => match value.get(field.key()) {
            None => fault.to_string(),
            Some(given) => match (field, given) {
                (UploadField::Bytes, JsonValue::Array(items)) => {
                    proof {
                        crate::json::lemma_list_view(*items);
                    }
                    byte_reason_text(items)
                },
                (UploadField::Bytes, _) => other_kind_text("array", given),
                (UploadField::Slot, JsonValue::Number(JsonNumber::Unsigned(index))) => {
                    let mut text = "invalid value: integer `".to_owned();
                    text.append(decimal_text(*index).as_str());
                    text.append("`, expected usize");
                    text
                },
                (UploadField::Slot, _) => other_kind_text("unsigned integer", given),
                _ => other_kind_text("string", given),
            },
        },
        _ => fault.to_string(),
    }
}

/// What is parked is what is decoded: the token of an upload stands for that
/// upload.
pub proof fn law_tokens_stand_for_their_upload(slots: Seq<Option<UploadView>>, upload: UploadView)
    requires
        slots.len() <= usize::MAX,
    ensures
        upload_meant(slot_token(slots.len() as u64), slots.push(Some(upload))) == Ok::<
            UploadView,
            UploadFault,
        >(upload),
{
    let token = slot_token(slots.len() as u64);
    assert(members(token).dom().contains(UPLOAD_SLOT_KEY@));
}

// ---------------------------------------------------------------------------
// Uploads written out
// ---------------------------------------------------------------------------

/// Bytes as a JSON list.
pub open spec fn byte_list(bytes: Seq<u8>) -> Seq<JsonView> {
    bytes.map_values(|byte: u8| JsonView::Number(NumberView::Unsigned(byte as u64)))
}

/// A text, or null where there is none.
pub open spec fn nullable(text: Option<Seq<char>>) -> JsonView {
    match text {
        Some(text) => JsonView::Text(text),
        None => JsonView::Null,
    }
}

/// An upload written out as an object.
pub open spec fn plain_upload(upload: UploadView) -> JsonView {
    JsonView::Object(
        map![
            "field_name"@ => JsonView::Text(upload.field_name),
            "file_name"@ => nullable(upload.file_name),
            "content_type"@ => nullable(upload.content_type),
            "bytes"@ => JsonView::List(byte_list(upload.bytes)),
        ],
    )
}

fn nullable_value(text: &Option<String>) -> (value: JsonValue)
    ensures
        value@ == nullable(opt_text(*text)),
{
    match text {
        Some(text) => JsonValue::text(text.as_str()),
        None => JsonValue::Null,
    }
}

impl UploadFile {
    /// The upload written out as an object.
    #[must_use]
    pub fn to_value(&self) -> (value: JsonValue)
        ensures
            value@ == plain_upload(self@),
    {
        let mut items: Vec<JsonValue> = Vec::new();
        let mut index: usize = 0;
        while index < self.bytes.len()
            invariant
                index <= self.bytes@.len(),
                items@.len() == index,
                forall|i: int|
                    0 <= i < index ==> (#[trigger] items@[i])@ == byte_list(self.bytes@)[i],
            decreases self.bytes@.len() - index,
        {
            items.push(JsonValue::unsigned(self.bytes[index] as u64));
            index += 1;
        }
        proof {
            assert(items@.map_values(|item: JsonValue| crate::json::json_view(item)) =~= byte_list(
                self.bytes@,
            ));
        }
        let value = JsonValue::object().with(
            "field_name",
            JsonValue::text(self.field_name.as_str()),
        ).with("file_name", nullable_value(&self.file_name)).with(
            "content_type",
            nullable_value(&self.content_type),
        ).with("bytes", JsonValue::list(items));
        assert(members(value@) =~= members(plain_upload(self@)));
        value
    }
}

proof fn lemma_listed_bytes(bytes: Seq<u8>)
    ensures
        listed_bytes(byte_list(bytes)) == Some(bytes),
    decreases bytes.len(),
{
    if bytes.len() > 0 {
        lemma_listed_bytes(bytes.drop_last());
        assert(byte_list(bytes).drop_last() =~= byte_list(bytes.drop_last()));
        assert(bytes.drop_last().push(bytes.last()) =~= bytes);
    } else {
        assert(byte_list(bytes) =~= Seq::<JsonView>::empty());
        assert(bytes =~= Seq::<u8>::empty());
    }
}

/// An upload that was written out reads back as it was, whatever is parked.
pub proof fn law_uploads_are_read_back(upload: UploadView, slots: Seq<Option<UploadView>>)
    ensures
        upload_meant(plain_upload(upload), slots) == Ok::<UploadView, UploadFault>(upload),
        slots_left(plain_upload(upload), slots) == slots,
{
    lemma_listed_bytes(upload.bytes);
    let value = plain_upload(upload);
    reveal_strlit("field_name");
    reveal_strlit("file_name");
    reveal_strlit("content_type");
    reveal_strlit("bytes");
    reveal_strlit("$blazingly::upload");
    assert("field_name"@.len() == 10 && "file_name"@.len() == 9 && "content_type"@.len() == 12
        && "bytes"@.len() == 5 && "$blazingly::upload"@.len() == 18);
    assert(members(value).dom().contains("field_name"@));
    assert(members(value)["field_name"@] == JsonView::Text(upload.field_name));
    assert(members(value)["file_name"@] == nullable(upload.file_name));
    assert(members(value)["content_type"@] == nullable(upload.content_type));
    assert(members(value)["bytes"@] == JsonView::List(byte_list(upload.bytes)));
    assert(!members(value).dom().contains(UPLOAD_SLOT_KEY@));
}

/// What is reported of a spelled upload is so: a missing field is not there, and a
/// mistyped one is there and is no text, or no list of bytes.
pub proof fn law_upload_faults_are_what_they_say(value: JsonView, slots: Seq<Option<UploadView>>)
    ensures
        match upload_meant(value, slots) {
            Err(UploadFault::NotAnObject) => !(value is Object),
            Err(UploadFault::Missing(field)) => value is Object && (field is FieldName
                || field is Bytes) && !members(value).contains_key(
                if field is Bytes {
                    "bytes"@
                } else {
                    "field_name"@
                },
            ),
            Err(UploadFault::Mistyped(UploadField::FieldName)) => members(value).contains_key(
                "field_name"@,
            ) && !(members(value)["field_name"@] is Text),
            Err(UploadFault::Mistyped(UploadField::FileName)) => members(value).contains_key(
                "file_name"@,
            ) && !(members(value)["file_name"@] is Text) && !(members(value)["file_name"@] is Null),
            Err(UploadFault::Mistyped(UploadField::ContentType)) => members(value).contains_key(
                "content_type"@,
            ) && !(members(value)["content_type"@] is Text) && !(members(value)["content_type"@]
                is Null),
            Err(UploadFault::Mistyped(UploadField::Bytes)) => members(value).contains_key(
                "bytes"@,
            ) && (members(value)["bytes"@] matches JsonView::List(items) ==> exists|i: int|
                0 <= i < items.len() && !is_byte(#[trigger] items[i])),
            Err(UploadFault::Mistyped(UploadField::Slot)) => members(value).contains_key(
                UPLOAD_SLOT_KEY@,
            ),
            Err(UploadFault::Unavailable) => members(value).contains_key(UPLOAD_SLOT_KEY@),
            Err(_) => false,
            Ok(_) => value is Object,
        },
{
    if members(value).contains_key("bytes"@) {
        if let JsonView::List(items) = members(value)["bytes"@] {
            lemma_listed_or_not(items);
        }
    }
}

/// A number that a byte can hold.
pub open spec fn is_byte(value: JsonView) -> bool {
    value matches JsonView::Number(NumberView::Unsigned(byte)) && byte < 256
}

proof fn lemma_listed_or_not(items: Seq<JsonView>)
    ensures
        listed_bytes(items) is None ==> exists|i: int|
            0 <= i < items.len() && !is_byte(#[trigger] items[i]),
    decreases items.len(),
{
    if items.len() > 0 {
        let before = items.drop_last();
        lemma_listed_or_not(before);
        if listed_bytes(before) is None {
            let i = choose|i: int| 0 <= i < before.len() && !is_byte(#[trigger] before[i]);
            assert(items[i] == before[i]);
        } else if listed_bytes(items) is None {
            assert(!is_byte(items[items.len() - 1]));
        }
    }
}

/// Every kind of value goes by its own word.
pub proof fn law_kinds_have_their_own_words(left: JsonView, right: JsonView)
    ensures
        kind_word(left) == kind_word(right) <==> ((left is Null <==> right is Null) && (left is Bool
            <==> right is Bool) && (left is Number <==> right is Number) && (left is Text
            <==> right is Text) && (left is List <==> right is List)),
        left is Text ==> kind_word(left) == "string"@,
        left is List ==> kind_word(left) == "array"@,
        left is Object ==> kind_word(left) == "object"@,
        left is Bool ==> kind_word(left) == "boolean"@,
{
    reveal_strlit("null");
    reveal_strlit("boolean");
    reveal_strlit("number");
    reveal_strlit("string");
    reveal_strlit("array");
    reveal_strlit("object");
    if kind_word(left) == kind_word(right) {
        assert(kind_word(left)[0] == kind_word(right)[0]);
        assert(kind_word(left).len() == kind_word(right).len());
    }
}

} // verus!
