//! Multipart bodies and uploads as the arguments of a handler.
use crate::arguments::{
    decode_rejection, missing, missing_input, raw_scalar_value, scalar_of, undecodable,
    HttpRequestParts, InvocationInput,
};
use crate::body::{BodyStreamError, Chunks, StreamingBody, UploadFile, UploadView};
use crate::contract::{
    field_view, model_view, scalar_view, type_view, FieldView, SchemaKind, TypeDescriptor, TypeView,
};
use crate::framing::{
    delimiter_of, document, parse_multipart, parts_view, MultipartPart, PartContent,
};
use crate::json::{members, JsonValue, JsonView, NumberView};
use crate::metadata::opt_json;
use crate::multipart::{boundary_of, multipart_boundary};
use crate::operation::{opt_text, ApiSchema, InputSource};
use crate::outcome::{InputRejection, RejectionView};
use crate::text::{decimal, decimal_text, eq_text};
use crate::uploads::{
    decode_upload, law_tokens_stand_for_their_upload, member, slot_token, slots_left,
    upload_meant, upload_reason, upload_reason_text, UploadFault, UploadSlots, UploadTable,
};
use crate::url::{text_from_bytes, text_of};
use base64::Engine;
use vstd::prelude::*;
use vstd::string::*;

verus! {

// ---------------------------------------------------------------------------
// Multipart bodies
// ---------------------------------------------------------------------------

/// The rejection of a body that is no multipart document.
pub open spec fn multipart_fault(reason: Seq<char>) -> RejectionView {
    RejectionView {
        status: 422,
        code: "invalid_multipart"@,
        message: "request body is not valid multipart form data"@,
        details: Some(
            JsonView::Object(
                map![
                    "source"@ => JsonView::Text("multipart"@),
                    "reason"@ => JsonView::Text(reason),
                ],
            ),
        ),
    }
}

/// Rejects a body that is no multipart document.
pub fn multipart_rejection(reason: &str) -> (rejection: InputRejection)
    ensures
        rejection@ == multipart_fault(reason@),
{
    let details = JsonValue::object().with("source", JsonValue::text("multipart")).with(
        "reason",
        JsonValue::text(reason),
    );
    assert(members(details@) =~= map![
        "source"@ => JsonView::Text("multipart"@),
        "reason"@ => JsonView::Text(reason@),
    ]);
    InputRejection {
        status: 422,
        code: "invalid_multipart".to_owned(),
        message: "request body is not valid multipart form data".to_owned(),
        details: Some(details),
    }
}

/// The parts of a body, or its rejection.
pub open spec fn parts_of(content_type: Option<Seq<char>>, body: Seq<u8>) -> Result<
    Seq<PartContent>,
    RejectionView,
> {
    match content_type {
        None => Err(multipart_fault("missing multipart Content-Type header"@)),
        Some(content_type) => match boundary_of(content_type) {
            None => Err(multipart_fault("multipart boundary is missing or invalid"@)),
            Some(boundary) => match document(body, delimiter_of(boundary)) {
                Ok(parts) => Ok(parts),
                Err(reason) => Err(multipart_fault(reason)),
            },
        },
    }
}

/// The parts of the body of a request, or its rejection.
pub open spec fn request_parts<R: HttpRequestParts>(request: R) -> Result<
    Seq<PartContent>,
    RejectionView,
> {
    parts_of(request.raw(InputSource::Header, "content-type"@, 0), request.content())
}

/// Reads the body of a request as a multipart document.
pub fn parse_multipart_request<R: HttpRequestParts>(request: &R) -> (parsed: Result<
    Vec<MultipartPart>,
    InputRejection,
>)
    ensures
        match parsed {
            Ok(parts) => request_parts(*request) == Ok::<Seq<PartContent>, RejectionView>(
                parts_view(parts@),
            ),
            Err(rejection) => request_parts(*request) == Err::<Seq<PartContent>, RejectionView>(
                rejection@,
            ),
        },
{
    let content_type = match request.value(InputSource::Header, "content-type", 0) {
        Some(content_type) => content_type,
        None => {
            return Err(multipart_rejection("missing multipart Content-Type header"));
        },
    };
    let boundary = match multipart_boundary(content_type.as_str()) {
        Some(boundary) => boundary,
        None => {
            return Err(multipart_rejection("multipart boundary is missing or invalid"));
        },
    };
    match parse_multipart(request.body(), boundary.as_str()) {
        Ok(parts) => Ok(parts),
        Err(reason) => Err(multipart_rejection(reason)),
    }
}

/// The upload that a part is.
pub open spec fn upload_of(part: PartContent) -> UploadView {
    UploadView {
        field_name: part.headers.name,
        file_name: part.headers.file_name,
        content_type: part.headers.content_type,
        bytes: part.bytes,
    }
}

impl MultipartPart {
    /// The upload that the part is.
    #[must_use]
    pub fn to_upload(&self) -> (upload: UploadFile)
        ensures
            upload@ == upload_of(self@),
    {
        let mut bytes: Vec<u8> = Vec::new();
        bytes.extend_from_slice(self.bytes.as_slice());
        assert(bytes@ =~= self.bytes@);
        UploadFile {
            field_name: self.headers.name.clone(),
            file_name: self.headers.file_name.clone(),
            content_type: self.headers.content_type.clone(),
            bytes,
        }
    }

    /// Turns the part into the upload that it is.
    #[must_use]
    pub fn into_upload(self) -> (upload: UploadFile)
        ensures
            upload@ == upload_of(self@),
    {
        UploadFile {
            field_name: self.headers.name,
            file_name: self.headers.file_name,
            content_type: self.headers.content_type,
            bytes: self.bytes,
        }
    }
}

/// The parts with a name, in order.
pub open spec fn named_parts(parts: Seq<PartContent>, name: Seq<char>) -> Seq<PartContent>
    decreases parts.len(),
{
    if parts.len() == 0 {
        Seq::empty()
    } else {
        let before = named_parts(parts.drop_last(), name);
        if parts.last().headers.name == name {
            before.push(parts.last())
        } else {
            before
        }
    }
}

/// Uploads that are parked.
pub type Parked = Seq<Option<UploadView>>;

/// What a part says where a text is expected.
pub open spec fn text_part(part: PartContent, schema: SchemaKind) -> Result<JsonView, RejectionView> {
    match text_of(part.bytes) {
        Some(text) => Ok(scalar_of(text, schema)),
        None => Err(multipart_fault("multipart text field is not valid UTF-8"@)),
    }
}

/// What stands for a part in the document, and the uploads that are parked from
/// then on. Where an upload is expected, that is a token.
pub open spec fn part_value(part: PartContent, schema: SchemaKind, parked: Parked) -> Result<
    (JsonView, Parked),
    RejectionView,
> {
    if schema == SchemaKind::Binary {
        Ok((slot_token(parked.len() as u64), parked.push(Some(upload_of(part)))))
    } else {
        match text_part(part, schema) {
            Ok(value) => Ok((value, parked)),
            Err(rejection) => Err(rejection),
        }
    }
}

/// What stands for the first so many parts of a list. Items are uploads only
/// where their full type is known.
pub open spec fn list_values(
    parts: Seq<PartContent>,
    item: SchemaKind,
    known: bool,
    parked: Parked,
    count: int,
) -> Result<(Seq<JsonView>, Parked), RejectionView>
    decreases count,
{
    if count <= 0 {
        Ok((Seq::empty(), parked))
    } else {
        match list_values(parts, item, known, parked, count - 1) {
            Err(rejection) => Err(rejection),
            Ok((values, so_far)) => {
                let part = parts[count - 1];
                if known {
                    match part_value(part, item, so_far) {
                        Ok((value, more)) => Ok((values.push(value), more)),
                        Err(rejection) => Err(rejection),
                    }
                } else {
                    match text_part(part, item) {
                        Ok(value) => Ok((values.push(value), so_far)),
                        Err(rejection) => Err(rejection),
                    }
                }
            },
        }
    }
}

/// What stands for the parts with one name, if there are any.
pub open spec fn parts_value(parts: Seq<PartContent>, ty: TypeView, parked: Parked) -> Result<
    (Option<JsonView>, Parked),
    RejectionView,
> {
    match ty.schema {
        SchemaKind::Array(item_schema) => {
            let item = match ty.items {
                Some(item) => item.schema,
                None => *item_schema,
            };
            match list_values(parts, item, ty.items is Some, parked, parts.len() as int) {
                Err(rejection) => Err(rejection),
                Ok((values, more)) => Ok(
                    (
                        if values.len() == 0 {
                            None
                        } else {
                            Some(JsonView::List(values))
                        },
                        more,
                    ),
                ),
            }
        },
        _ => if parts.len() == 0 {
            Ok((None, parked))
        } else {
            match part_value(parts[0], ty.schema, parked) {
                Ok((value, more)) => Ok((Some(value), more)),
                Err(rejection) => Err(rejection),
            }
        },
    }
}

/// The members of a model that parts give, over its first so many fields.
pub open spec fn model_parts(
    parts: Seq<PartContent>,
    fields: Seq<FieldView>,
    parked: Parked,
    count: int,
) -> Result<(Map<Seq<char>, JsonView>, Parked), RejectionView>
    decreases count,
{
    if count <= 0 {
        Ok((Map::empty(), parked))
    } else {
        match model_parts(parts, fields, parked, count - 1) {
            Err(rejection) => Err(rejection),
            Ok((given, so_far)) => {
                let field = fields[count - 1];
                match parts_value(named_parts(parts, field.name), field.ty, so_far) {
                    Err(rejection) => Err(rejection),
                    Ok((Some(value), more)) => Ok((given.insert(field.name, value), more)),
                    Ok((None, more)) => Ok((given, more)),
                }
            },
        }
    }
}

/// The value that parts give to an argument, or their rejection.
pub open spec fn multipart_argument(
    parts: Seq<PartContent>,
    name: Seq<char>,
    required: bool,
    ty: TypeView,
    parked: Parked,
) -> Result<(JsonView, Parked), RejectionView> {
    match ty.model {
        Some(model) => match model_parts(
            parts,
            model.fields,
            parked,
            model.fields.len() as int,
        ) {
            Err(rejection) => Err(rejection),
            Ok((given, more)) => if given == Map::<Seq<char>, JsonView>::empty() && !required {
                Ok((JsonView::Null, more))
            } else {
                Ok((JsonView::Object(given), more))
            },
        },
        None => match parts_value(named_parts(parts, name), ty, parked) {
            Err(rejection) => Err(rejection),
            Ok((Some(value), more)) => Ok((value, more)),
            Ok((None, more)) => if required {
                Err(missing(name, InputSource::Multipart))
            } else {
                Ok((JsonView::Null, more))
            },
        },
    }
}

/// Where the parts with a name stand.
fn places_named(parts: &Vec<MultipartPart>, name: &str) -> (places: Vec<usize>)
    ensures
        places@.len() == named_parts(parts_view(parts@), name@).len(),
        forall|i: int|
            0 <= i < places@.len() ==> (#[trigger] places@[i]) < parts@.len()
                && parts@[places@[i] as int]@ == named_parts(parts_view(parts@), name@)[i],
{
    let ghost views = parts_view(parts@);
    let mut places: Vec<usize> = Vec::new();
    let mut index: usize = 0;
    assert(views.take(0) =~= Seq::<PartContent>::empty());
    while index < parts.len()
        invariant
            index <= parts@.len(),
            views == parts_view(parts@),
            places@.len() == named_parts(views.take(index as int), name@).len(),
            forall|i: int|
                0 <= i < places@.len() ==> (#[trigger] places@[i]) < parts@.len()
                    && parts@[places@[i] as int]@ == named_parts(
                    views.take(index as int),
                    name@,
                )[i],
        decreases parts@.len() - index,
    {
        proof {
            assert(views[index as int] == parts@[index as int]@);
            assert(views.take(index + 1).drop_last() =~= views.take(index as int));
            assert(views.take(index + 1).last() == views[index as int]);
        }
        if eq_text(parts[index].headers.name.as_str(), name) {
            places.push(index);
        }
        index += 1;
    }
    assert(views.take(parts@.len() as int) =~= views);
    places
}

fn multipart_scalar_value(part: &MultipartPart, schema: &SchemaKind) -> (value: Result<
    JsonValue,
    InputRejection,
>)
    ensures
        match value {
            Ok(value) => text_part(part@, *schema) == Ok::<JsonView, RejectionView>(value@),
            Err(rejection) => text_part(part@, *schema) == Err::<JsonView, RejectionView>(
                rejection@,
            ),
        },
{
    match text_from_bytes(vstd::slice::slice_to_vec(part.bytes.as_slice())) {
        Some(text) => Ok(raw_scalar_value(text.as_str(), schema)),
        None => Err(multipart_rejection("multipart text field is not valid UTF-8")),
    }
}

fn multipart_part_value(
    part: &MultipartPart,
    schema: &SchemaKind,
    slots: &UploadSlots,
    table: &mut UploadTable,
) -> (value: Result<JsonValue, InputRejection>)
    ensures
        match value {
            Ok(value) => part_value(part@, *schema, old(table)@) == Ok::<
                (JsonView, Parked),
                RejectionView,
            >((value@, final(table)@)),
            Err(rejection) => part_value(part@, *schema, old(table)@) == Err::<
                (JsonView, Parked),
                RejectionView,
            >(rejection@),
        },
{
    if let SchemaKind::Binary = schema {
        return Ok(slots.park(table, part.to_upload()));
    }
    multipart_scalar_value(part, schema)
}

fn multipart_parts_value(
    parts: &Vec<MultipartPart>,
    name: &str,
    descriptor: &TypeDescriptor,
    slots: &UploadSlots,
    table: &mut UploadTable,
) -> (value: Result<Option<JsonValue>, InputRejection>)
    ensures
        match value {
            Ok(value) => parts_value(
                named_parts(parts_view(parts@), name@),
                descriptor@,
                old(table)@,
            ) == Ok::<(Option<JsonView>, Parked), RejectionView>((opt_json(value), final(table)@)),
            Err(rejection) => parts_value(
                named_parts(parts_view(parts@), name@),
                descriptor@,
                old(table)@,
            ) == Err::<(Option<JsonView>, Parked), RejectionView>(rejection@),
        },
{
    let places = places_named(parts, name);
    let ghost named = named_parts(parts_view(parts@), name@);
    let ghost start = table@;
    if let SchemaKind::Array(item_schema) = &descriptor.schema {
        let known = descriptor.items.is_some();
        let item: &SchemaKind = match &descriptor.items {
            Some(item) => &item.schema,
            None => item_schema,
        };
        proof {
            if let Some(full) = &descriptor.items {
                assert(type_view(**full).schema == full.schema);
            }
        }
        let mut values: Vec<JsonValue> = Vec::new();
        let ghost mut views: Seq<JsonView> = Seq::empty();
        let mut at: usize = 0;
        while at < places.len()
            invariant
                at <= places@.len(),
                places@.len() == named.len(),
                forall|i: int|
                    0 <= i < places@.len() ==> (#[trigger] places@[i]) < parts@.len()
                        && parts@[places@[i] as int]@ == named[i],
                named == named_parts(parts_view(parts@), name@),
                descriptor.schema == SchemaKind::Array(*item_schema),
                known == (descriptor@.items is Some),
                *item == match descriptor@.items {
                    Some(item) => item.schema,
                    None => **item_schema,
                },
                start == old(table)@,
                values@.len() == at,
                views.len() == at,
                forall|i: int| 0 <= i < at ==> (#[trigger] values@[i])@ == views[i],
                list_values(named, *item, known, start, at as int) == Ok::<
                    (Seq<JsonView>, Parked),
                    RejectionView,
                >((views, table@)),
            decreases places@.len() - at,
        {
            let part = &parts[places[at]];
            assert(part@ == named[at as int]);
            let result = if known {
                multipart_part_value(part, item, slots, table)
            } else {
                multipart_scalar_value(part, item)
            };
            match result {
                Ok(value) => {
                    proof {
                        views = views.push(value@);
                    }
                    values.push(value);
                },
                Err(rejection) => {
                    proof {
                        lemma_list_fails(
                            named,
                            *item,
                            known,
                            start,
                            at + 1,
                            named.len() as int,
                            rejection@,
                        );
                    }
                    return Err(rejection);
                },
            }
            at += 1;
        }
        if values.len() == 0 {
            return Ok(None);
        }
        proof {
            assert(values@.map_values(|value: JsonValue| crate::json::json_view(value)) =~= views);
        }
        return Ok(Some(JsonValue::list(values)));
    }
    if places.len() == 0 {
        return Ok(None);
    }
    let part = &parts[places[0]];
    assert(part@ == named[0]);
    match multipart_part_value(part, &descriptor.schema, slots, table) {
        Ok(value) => Ok(Some(value)),
        Err(rejection) => Err(rejection),
    }
}

proof fn lemma_list_fails(
    parts: Seq<PartContent>,
    item: SchemaKind,
    known: bool,
    parked: Parked,
    at: int,
    count: int,
    rejection: RejectionView,
)
    requires
        0 <= at <= count,
        list_values(parts, item, known, parked, at) == Err::<(Seq<JsonView>, Parked), RejectionView>(
            rejection,
        ),
    ensures
        list_values(parts, item, known, parked, count) == Err::<
            (Seq<JsonView>, Parked),
            RejectionView,
        >(rejection),
    decreases count - at,
{
    if at < count {
        lemma_list_fails(parts, item, known, parked, at + 1, count, rejection);
    }
}

proof fn lemma_model_fails(
    parts: Seq<PartContent>,
    fields: Seq<FieldView>,
    parked: Parked,
    at: int,
    count: int,
    rejection: RejectionView,
)
    requires
        0 <= at <= count,
        model_parts(parts, fields, parked, at) == Err::<
            (Map<Seq<char>, JsonView>, Parked),
            RejectionView,
        >(rejection),
    ensures
        model_parts(parts, fields, parked, count) == Err::<
            (Map<Seq<char>, JsonView>, Parked),
            RejectionView,
        >(rejection),
    decreases count - at,
{
    if at < count {
        lemma_model_fails(parts, fields, parked, at + 1, count, rejection);
    }
}

/// The value that parts give to an argument. Uploads are parked, and tokens
/// stand for them in the value.
pub fn multipart_argument_value(
    parts: &Vec<MultipartPart>,
    name: &str,
    required: bool,
    descriptor: &TypeDescriptor,
    slots: &UploadSlots,
    table: &mut UploadTable,
) -> (value: Result<JsonValue, InputRejection>)
    ensures
        match value {
            Ok(value) => multipart_argument(
                parts_view(parts@),
                name@,
                required,
                descriptor@,
                old(table)@,
            ) == Ok::<(JsonView, Parked), RejectionView>((value@, final(table)@)),
            Err(rejection) => multipart_argument(
                parts_view(parts@),
                name@,
                required,
                descriptor@,
                old(table)@,
            ) == Err::<(JsonView, Parked), RejectionView>(rejection@),
        },
{
    let ghost views = parts_view(parts@);
    let ghost start = table@;
    if let Some(model) = &descriptor.model {
        let ghost fields = descriptor@.model->Some_0.fields;
        let mut properties = JsonValue::object();
        let mut any = false;
        let mut index: usize = 0;
        while index < model.fields.len()
            invariant
                index <= model.fields@.len(),
                descriptor.model == Some(*model),
                fields == model_view(**model).fields,
                views == parts_view(parts@),
                start == old(table)@,
                properties@ is Object,
                any == (members(properties@) != Map::<Seq<char>, JsonView>::empty()),
                model_parts(views, fields, start, index as int) == Ok::<
                    (Map<Seq<char>, JsonView>, Parked),
                    RejectionView,
                >((members(properties@), table@)),
            decreases model.fields@.len() - index,
        {
            let field = &model.fields[index];
            assert(fields[index as int] == field_view(*field));
            let ghost before = members(properties@);
            match multipart_parts_value(parts, field.name.as_str(), &field.ty, slots, table) {
                Ok(Some(value)) => {
                    properties.set(field.name.as_str(), value);
                    any = true;
                    proof {
                        let after = before.insert(field.name@, value@);
                        assert(after.contains_key(field.name@));
                        assert(after != Map::<Seq<char>, JsonView>::empty());
                    }
                },
                Ok(None) => {},
                Err(rejection) => {
                    proof {
                        lemma_model_fails(
                            views,
                            fields,
                            start,
                            index + 1,
                            fields.len() as int,
                            rejection@,
                        );
                    }
                    return Err(rejection);
                },
            }
            index += 1;
        }
        assert(properties@ == JsonView::Object(members(properties@)));
        if !any && !required {
            return Ok(JsonValue::Null);
        }
        return Ok(properties);
    }
    match multipart_parts_value(parts, name, descriptor, slots, table) {
        Err(rejection) => Err(rejection),
        Ok(Some(value)) => Ok(value),
        Ok(None) => if required {
            Err(missing_input(name, InputSource::Multipart))
        } else {
            Ok(JsonValue::Null)
        },
    }
}

// ---------------------------------------------------------------------------
// Uploads as arguments
// ---------------------------------------------------------------------------

/// What a text in standard Base64 spells out, or what is wrong with it.
pub uninterp spec fn base64_content(text: Seq<char>) -> Result<Seq<u8>, Seq<char>>;

/// `base64::engine::general_purpose::STANDARD.decode` reads a text in the
/// standard Base64 alphabet with padding; where it refuses one, its error tells
/// why. Nothing is claimed beyond the dependence of both on the text alone.
#[verifier::external_body]
fn decode_base64(encoded: &str) -> (content: Result<Vec<u8>, String>)
    ensures
        match content {
            Ok(bytes) => base64_content(encoded@) == Ok::<Seq<u8>, Seq<char>>(bytes@),
            Err(reason) => base64_content(encoded@) == Err::<Seq<u8>, Seq<char>>(reason@),
        },
{
    base64::engine::general_purpose::STANDARD.decode(encoded).map_err(|error| error.to_string())
}

/// An upload with some content, or the rejection of what could not be decoded.
pub open spec fn uploaded(
    content: Result<Seq<u8>, Seq<char>>,
    field_name: Seq<char>,
    file_name: Option<Seq<char>>,
    content_type: Option<Seq<char>>,
) -> Result<UploadView, RejectionView> {
    match content {
        Ok(bytes) => Ok(UploadView { field_name, file_name, content_type, bytes }),
        Err(reason) => Err(undecodable(field_name, InputSource::File, Seq::empty(), reason)),
    }
}

/// An upload whose content was decoded, or could not be.
pub fn upload_with(
    content: Result<Vec<u8>, String>,
    field_name: &str,
    file_name: Option<String>,
    content_type: Option<String>,
) -> (upload: Result<UploadFile, InputRejection>)
    ensures
        ({
            let given = match content {
                Ok(bytes) => Ok::<Seq<u8>, Seq<char>>(bytes@),
                Err(reason) => Err(reason@),
            };
            let expected = uploaded(
                given,
                field_name@,
                opt_text(file_name),
                opt_text(content_type),
            );
            match upload {
                Ok(upload) => expected == Ok::<UploadView, RejectionView>(upload@),
                Err(rejection) => expected == Err::<UploadView, RejectionView>(rejection@),
            }
        }),
{
    match content {
        Ok(bytes) => Ok(
            UploadFile { field_name: field_name.to_owned(), file_name, content_type, bytes },
        ),
        Err(reason) => Err(decode_rejection(field_name, InputSource::File, reason.as_str())),
    }
}

/// The member of an object under the first of the names for encoded content
/// that it has.
pub open spec fn encoded_member(value: JsonView) -> Option<JsonView> {
    match member(value, "base64"@) {
        Some(found) => Some(found),
        None => match member(value, "data"@) {
            Some(found) => Some(found),
            None => member(value, "content"@),
        },
    }
}

/// The text of a member, if it is one.
pub open spec fn text_member(value: JsonView, key: Seq<char>) -> Option<Seq<char>> {
    match member(value, key) {
        Some(JsonView::Text(text)) => Some(text),
        _ => None,
    }
}

/// The upload that a value stands for: a text or an object with encoded
/// content, or an upload written out.
pub open spec fn upload_given(value: JsonView, name: Seq<char>, parked: Parked) -> Result<
    UploadView,
    RejectionView,
> {
    match value {
        JsonView::Text(encoded) => uploaded(base64_content(encoded), name, None, None),
        _ => match encoded_member(value) {
            Some(JsonView::Text(encoded)) => uploaded(
                base64_content(encoded),
                match text_member(value, "field_name"@) {
                    Some(field_name) => field_name,
                    None => name,
                },
                text_member(value, "file_name"@),
                text_member(value, "content_type"@),
            ),
            _ => match upload_meant(value, parked) {
                Ok(upload) => Ok(upload),
                Err(fault) => Err(
                    undecodable(
                        name,
                        InputSource::File,
                        Seq::empty(),
                        upload_reason(value, fault),
                    ),
                ),
            },
        },
    }
}

/// The uploads that are parked once the upload of a value was taken.
pub open spec fn parked_after(value: JsonView, parked: Parked) -> Parked {
    match value {
        JsonView::Text(_) => parked,
        _ => match encoded_member(value) {
            Some(JsonView::Text(_)) => parked,
            _ => slots_left(value, parked),
        },
    }
}

fn text_of_member(value: &JsonValue, key: &str) -> (text: Option<String>)
    ensures
        opt_text(text) == text_member(value@, key@),
{
    match value.get(key) {
        Some(JsonValue::String(text)) => Some(text.clone()),
        Some(_) => None,
        None => None,
    }
}

fn find_encoded(value: &JsonValue) -> (encoded: Option<&JsonValue>)
    ensures
        match encoded {
            Some(encoded) => encoded_member(value@) == Some(encoded@),
            None => encoded_member(value@) is None,
        },
{
    match value.get("base64") {
        Some(found) => Some(found),
        None => match value.get("data") {
            Some(found) => Some(found),
            None => value.get("content"),
        },
    }
}

/// The upload that a value stands for.
pub fn upload_from_value(value: &JsonValue, name: &str, table: &mut UploadTable) -> (upload: Result<
    UploadFile,
    InputRejection,
>)
    ensures
        match upload {
            Ok(upload) => upload_given(value@, name@, old(table)@) == Ok::<
                UploadView,
                RejectionView,
            >(upload@),
            Err(rejection) => upload_given(value@, name@, old(table)@) == Err::<
                UploadView,
                RejectionView,
            >(rejection@),
        },
        final(table)@ == parked_after(value@, old(table)@),
{
    if let JsonValue::String(encoded) = value {
        return upload_with(decode_base64(encoded.as_str()), name, None, None);
    }
    if let Some(JsonValue::String(encoded)) = find_encoded(value) {
        let field_name = text_of_member(value, "field_name");
        return upload_with(
            decode_base64(encoded.as_str()),
            match &field_name {
                Some(field_name) => field_name.as_str(),
                None => name,
            },
            text_of_member(value, "file_name"),
            text_of_member(value, "content_type"),
        );
    }
    match decode_upload(value, table) {
        Ok(upload) => Ok(upload),
        Err(fault) => Err(
            decode_rejection(
                name,
                InputSource::File,
                upload_reason_text(value, fault).as_str(),
            ),
        ),
    }
}

/// The uploads that a list of values stands for, over its first so many.
pub open spec fn uploads_listed(
    values: Seq<JsonView>,
    name: Seq<char>,
    parked: Parked,
    count: int,
) -> Result<(Seq<UploadView>, Parked), RejectionView>
    decreases count,
{
    if count <= 0 {
        Ok((Seq::empty(), parked))
    } else {
        match uploads_listed(values, name, parked, count - 1) {
            Err(rejection) => Err(rejection),
            Ok((uploads, so_far)) => match upload_given(values[count - 1], name, so_far) {
                Err(rejection) => Err(rejection),
                Ok(upload) => Ok((uploads.push(upload), parked_after(values[count - 1], so_far))),
            },
        }
    }
}

/// The uploads that a document gives to an argument: those of the member with
/// its name, or of the whole document.
pub open spec fn document_uploads(
    arguments: JsonView,
    name: Seq<char>,
    required: bool,
    parked: Parked,
) -> Result<Seq<UploadView>, RejectionView> {
    let value = match member(arguments, name) {
        Some(value) => value,
        None => arguments,
    };
    match value {
        JsonView::Null => if required {
            Err(missing(name, InputSource::File))
        } else {
            Ok(Seq::empty())
        },
        JsonView::List(values) => match uploads_listed(values, name, parked, values.len() as int) {
            Ok((uploads, _)) => Ok(uploads),
            Err(rejection) => Err(rejection),
        },
        _ => match upload_given(value, name, parked) {
            Ok(upload) => Ok(seq![upload]),
            Err(rejection) => Err(rejection),
        },
    }
}

/// What is left parked once the uploads of a list were taken, up to the first
/// that was refused.
pub open spec fn listed_left(
    values: Seq<JsonView>,
    name: Seq<char>,
    parked: Parked,
    count: int,
) -> Parked
    decreases count,
{
    if count <= 0 {
        parked
    } else {
        match uploads_listed(values, name, parked, count - 1) {
            Err(_) => listed_left(values, name, parked, count - 1),
            Ok((_, so_far)) => parked_after(values[count - 1], so_far),
        }
    }
}

/// What is left parked once a document gave its uploads to an argument.
pub open spec fn document_left(arguments: JsonView, name: Seq<char>, parked: Parked) -> Parked {
    let value = match member(arguments, name) {
        Some(value) => value,
        None => arguments,
    };
    match value {
        JsonView::Null => parked,
        JsonView::List(values) => listed_left(values, name, parked, values.len() as int),
        _ => parked_after(value, parked),
    }
}

/// What uploads hold.
pub open spec fn uploads_view(uploads: Seq<UploadFile>) -> Seq<UploadView> {
    uploads.map_values(|upload: UploadFile| upload@)
}

proof fn lemma_uploads_fail(
    values: Seq<JsonView>,
    name: Seq<char>,
    parked: Parked,
    at: int,
    count: int,
    rejection: RejectionView,
)
    requires
        0 <= at <= count,
        uploads_listed(values, name, parked, at) == Err::<
            (Seq<UploadView>, Parked),
            RejectionView,
        >(rejection),
    ensures
        uploads_listed(values, name, parked, count) == Err::<
            (Seq<UploadView>, Parked),
            RejectionView,
        >(rejection),
        listed_left(values, name, parked, count) == listed_left(values, name, parked, at),
    decreases count - at,
{
    if at < count {
        lemma_uploads_fail(values, name, parked, at + 1, count, rejection);
    }
}

/// The uploads that a document gives to an argument.
pub fn upload_arguments(
    arguments: &JsonValue,
    name: &str,
    required: bool,
    table: &mut UploadTable,
) -> (uploads: Result<Vec<UploadFile>, InputRejection>)
    ensures
        match uploads {
            Ok(uploads) => document_uploads(arguments@, name@, required, old(table)@) == Ok::<
                Seq<UploadView>,
                RejectionView,
            >(uploads_view(uploads@)),
            Err(rejection) => document_uploads(arguments@, name@, required, old(table)@) == Err::<
                Seq<UploadView>,
                RejectionView,
            >(rejection@),
        },
        final(table)@ == document_left(arguments@, name@, old(table)@),
{
    let value = match arguments.get(name) {
        Some(value) => value,
        None => arguments,
    };
    let ghost start = table@;
    match value {
        JsonValue::Null => {
            if required {
                return Err(missing_input(name, InputSource::File));
            }
            let uploads: Vec<UploadFile> = Vec::new();
            assert(uploads_view(uploads@) =~= Seq::<UploadView>::empty());
            Ok(uploads)
        },
        JsonValue::Array(items) => {
            let ghost views = items@.map_values(|item: JsonValue| crate::json::json_view(item));
            proof {
                crate::json::lemma_list_view(*items);
            }
            let mut uploads: Vec<UploadFile> = Vec::new();
            assert(uploads_view(uploads@) =~= Seq::<UploadView>::empty());
            let mut index: usize = 0;
            while index < items.len()
                invariant
                    index <= items@.len(),
                    views == items@.map_values(|item: JsonValue| crate::json::json_view(item)),
                    uploads_listed(views, name@, start, index as int) == Ok::<
                        (Seq<UploadView>, Parked),
                        RejectionView,
                    >((uploads_view(uploads@), table@)),
                    table@ == listed_left(views, name@, start, index as int),
                    value@ == JsonView::List(views),
                    value@ == match member(arguments@, name@) {
                        Some(value) => value,
                        None => arguments@,
                    },
                    start == old(table)@,
                decreases items@.len() - index,
            {
                assert(views[index as int] == items@[index as int]@);
                let ghost before = uploads@;
                match upload_from_value(&items[index], name, table) {
                    Ok(upload) => {
                        uploads.push(upload);
                        assert(uploads_view(uploads@) =~= uploads_view(before).push(upload@));
                    },
                    Err(rejection) => {
                        proof {
                            lemma_uploads_fail(
                                views,
                                name@,
                                start,
                                index + 1,
                                views.len() as int,
                                rejection@,
                            );
                        }
                        return Err(rejection);
                    },
                }
                index += 1;
            }
            Ok(uploads)
        },
        _ => match upload_from_value(value, name, table) {
            Ok(upload) => {
                let uploads: Vec<UploadFile> = vec![upload];
                assert(uploads_view(uploads@) =~= seq![upload@]);
                Ok(uploads)
            },
            Err(rejection) => Err(rejection),
        },
    }
}

/// The rejection of an argument that was given another number of files than it
/// takes.
pub open spec fn file_count(required: bool, actual: nat, expected: Seq<char>) -> RejectionView {
    RejectionView {
        status: 422,
        code: "invalid_file_count"@,
        message: "file input expected "@ + expected + " upload"@,
        details: Some(
            JsonView::Object(
                map![
                    "source"@ => JsonView::Text("file"@),
                    "required"@ => JsonView::Bool(required),
                    "expected"@ => JsonView::Text(expected),
                    "actual"@ => JsonView::Number(NumberView::Unsigned(actual as u64)),
                ],
            ),
        ),
    }
}

/// Rejects an argument that was given another number of files than it takes.
pub fn file_count_rejection(required: bool, actual: usize, expected: &str) -> (rejection:
    InputRejection)
    ensures
        rejection@ == file_count(required, actual as nat, expected@),
{
    let mut message = String::new();
    message.append("file input expected ");
    message.append(expected);
    message.append(" upload");
    let count: u64 = actual as u64;
    let details = JsonValue::object().with("source", JsonValue::text("file")).with(
        "required",
        JsonValue::flag(required),
    ).with("expected", JsonValue::text(expected)).with("actual", JsonValue::unsigned(count));
    let rejection = InputRejection {
        status: 422,
        code: "invalid_file_count".to_owned(),
        message,
        details: Some(details),
    };
    proof {
        assert(rejection@.message =~= file_count(required, actual as nat, expected@).message);
        assert(members(details@) =~= map![
            "source"@ => JsonView::Text("file"@),
            "required"@ => JsonView::Bool(required),
            "expected"@ => JsonView::Text(expected@),
            "actual"@ => JsonView::Number(NumberView::Unsigned(count)),
        ]);
    }
    rejection
}

/// Types accepted by the typed `File` extractor.
pub trait FilePayload: Sized {
    /// What the uploads of an argument come to.
    spec fn payload(uploads: Seq<UploadView>, required: bool) -> Result<
        Seq<UploadView>,
        RejectionView,
    >;

    /// The uploads that a payload holds.
    spec fn held(self) -> Seq<UploadView>;

    /// Takes as many uploads as the type can hold.
    fn from_uploads(uploads: Vec<UploadFile>, required: bool) -> (taken: Result<
        Self,
        InputRejection,
    >)
        ensures
            match taken {
                Ok(payload) => Self::payload(uploads_view(uploads@), required) == Ok::<
                    Seq<UploadView>,
                    RejectionView,
                >(payload.held()),
                Err(rejection) => Self::payload(uploads_view(uploads@), required) == Err::<
                    Seq<UploadView>,
                    RejectionView,
                >(rejection@),
            },
    ;
}

impl FilePayload for UploadFile {
    open spec fn payload(uploads: Seq<UploadView>, required: bool) -> Result<
        Seq<UploadView>,
        RejectionView,
    > {
        if uploads.len() == 1 {
            Ok(uploads)
        } else {
            Err(file_count(required, uploads.len(), "exactly one"@))
        }
    }

    open spec fn held(self) -> Seq<UploadView> {
        seq![self@]
    }

    fn from_uploads(uploads: Vec<UploadFile>, required: bool) -> (taken: Result<
        Self,
        InputRejection,
    >) {
        let mut rest = uploads;
        let ghost given = uploads_view(uploads@);
        if rest.len() == 1 {
            let upload = rest.remove(0);
            assert(given =~= seq![upload@]);
            return Ok(upload);
        }
        Err(file_count_rejection(required, rest.len(), "exactly one"))
    }
}

impl FilePayload for Option<UploadFile> {
    open spec fn payload(uploads: Seq<UploadView>, required: bool) -> Result<
        Seq<UploadView>,
        RejectionView,
    > {
        if uploads.len() == 1 || (uploads.len() == 0 && !required) {
            Ok(uploads)
        } else {
            Err(file_count(required, uploads.len(), "zero or one"@))
        }
    }

    open spec fn held(self) -> Seq<UploadView> {
        match self {
            Some(upload) => seq![upload@],
            None => Seq::empty(),
        }
    }

    fn from_uploads(uploads: Vec<UploadFile>, required: bool) -> (taken: Result<
        Self,
        InputRejection,
    >) {
        let mut rest = uploads;
        let ghost given = uploads_view(uploads@);
        if rest.len() == 0 && !required {
            assert(given =~= Seq::<UploadView>::empty());
            return Ok(None);
        }
        if rest.len() == 1 {
            let upload = rest.remove(0);
            assert(given =~= seq![upload@]);
            return Ok(Some(upload));
        }
        Err(file_count_rejection(required, rest.len(), "zero or one"))
    }
}

impl FilePayload for Vec<UploadFile> {
    open spec fn payload(uploads: Seq<UploadView>, required: bool) -> Result<
        Seq<UploadView>,
        RejectionView,
    > {
        if required && uploads.len() == 0 {
            Err(file_count(required, 0, "one or more"@))
        } else {
            Ok(uploads)
        }
    }

    open spec fn held(self) -> Seq<UploadView> {
        uploads_view(self@)
    }

    fn from_uploads(uploads: Vec<UploadFile>, required: bool) -> (taken: Result<
        Self,
        InputRejection,
    >) {
        if required && uploads.len() == 0 {
            return Err(file_count_rejection(required, 0, "one or more"));
        }
        Ok(uploads)
    }
}

/// The uploads that an invocation gives to an argument.
pub open spec fn uploads_given<R: HttpRequestParts>(
    input: InvocationInput<R>,
    name: Seq<char>,
    required: bool,
    parked: Parked,
) -> Result<Seq<UploadView>, RejectionView> {
    match input {
        InvocationInput::Http(request) => match request_parts(*request) {
            Ok(parts) => Ok(
                named_parts(parts, name).map_values(|part: PartContent| upload_of(part)),
            ),
            Err(rejection) => Err(rejection),
        },
        InvocationInput::Arguments(arguments) => document_uploads(
            arguments@,
            name,
            required,
            parked,
        ),
    }
}

/// Extracts a file argument.
pub fn extract_files<R: HttpRequestParts, T: FilePayload>(
    input: &InvocationInput<R>,
    name: &str,
    required: bool,
    table: &mut UploadTable,
) -> (payload: Result<T, InputRejection>)
    ensures
        match uploads_given(*input, name@, required, old(table)@) {
            Err(rejected) => payload matches Err(rejection) && rejection@ == rejected,
            Ok(uploads) => match payload {
                Ok(payload) => T::payload(uploads, required) == Ok::<
                    Seq<UploadView>,
                    RejectionView,
                >(payload.held()),
                Err(rejection) => T::payload(uploads, required) == Err::<
                    Seq<UploadView>,
                    RejectionView,
                >(rejection@),
            },
        },
        final(table)@ == match *input {
            InvocationInput::Http(_) => old(table)@,
            InvocationInput::Arguments(arguments) => document_left(
                arguments@,
                name@,
                old(table)@,
            ),
        },
{
    let uploads = match input {
        InvocationInput::Http(request) => match parse_multipart_request(*request) {
            Err(rejection) => {
                return Err(rejection);
            },
            Ok(parts) => {
                let places = places_named(&parts, name);
                let ghost named = named_parts(parts_view(parts@), name@);
                let mut uploads: Vec<UploadFile> = Vec::new();
                let mut at: usize = 0;
                while at < places.len()
                    invariant
                        at <= places@.len(),
                        places@.len() == named.len(),
                        forall|i: int|
                            0 <= i < places@.len() ==> (#[trigger] places@[i]) < parts@.len()
                                && parts@[places@[i] as int]@ == named[i],
                        uploads@.len() == at,
                        forall|i: int|
                            0 <= i < at ==> (#[trigger] uploads@[i])@ == upload_of(named[i]),
                    decreases places@.len() - at,
                {
                    let place: usize = places[at];
                    assert(parts@[place as int]@ == named[at as int]);
                    uploads.push(parts[place].to_upload());
                    at += 1;
                }
                assert(uploads_view(uploads@) =~= named.map_values(
                    |part: PartContent| upload_of(part),
                ));
                uploads
            },
        },
        InvocationInput::Arguments(arguments) => match upload_arguments(
            arguments,
            name,
            required,
            table,
        ) {
            Ok(uploads) => uploads,
            Err(rejection) => {
                return Err(rejection);
            },
        },
    };
    T::from_uploads(uploads, required)
}

// ---------------------------------------------------------------------------
// Streamed uploads and transport values
// ---------------------------------------------------------------------------

/// Pull-based request body with adapter-enforced transport limits.
#[derive(Debug)]
pub struct UploadBody<S> {
    pub stream: StreamingBody<S>,
    pub bytes_read: u64,
}

impl<S> UploadBody<S> {
    #[must_use]
    pub fn new(stream: StreamingBody<S>) -> (body: Self)
        ensures
            body == (UploadBody { stream, bytes_read: 0 }),
    {
        UploadBody { stream, bytes_read: 0 }
    }

    #[must_use]
    pub fn exact_length(&self) -> (length: Option<u64>)
        ensures
            length == self.stream.exact_length,
    {
        self.stream.exact_length()
    }

    #[must_use]
    pub fn bytes_read(&self) -> (count: u64)
        ensures
            count == self.bytes_read,
    {
        self.bytes_read
    }

    /// Counts a chunk that was pulled.
    pub fn pulled(&mut self, chunk: &Option<Result<Vec<u8>, BodyStreamError>>)
        ensures
            final(self).stream == old(self).stream,
            final(self).bytes_read == match chunk {
                Some(Ok(bytes)) => if old(self).bytes_read + bytes@.len() > u64::MAX {
                    u64::MAX as int
                } else {
                    old(self).bytes_read + bytes@.len()
                },
                _ => old(self).bytes_read as int,
            },
    {
        if let Some(Ok(bytes)) = chunk {
            let count: u64 = bytes.len() as u64;
            self.bytes_read = self.bytes_read.saturating_add(count);
        }
    }
}

impl<S> ApiSchema for UploadBody<S> {
    open spec fn described() -> TypeView {
        scalar_view("UploadBody"@, SchemaKind::Binary)
    }

    fn type_descriptor() -> (ty: TypeDescriptor) {
        TypeDescriptor::scalar("UploadBody", SchemaKind::Binary)
    }
}

/// The failure of an upload that is larger than it may be.
pub open spec fn upload_too_large(limit: usize) -> Seq<char> {
    "streaming upload exceeds the "@ + decimal(limit as nat) + "-byte collection limit"@
}

/// Takes one chunk of an upload that is collected with an explicit limit.
pub fn collect_upload_chunk(
    body: &mut Vec<u8>,
    chunk: Result<Vec<u8>, BodyStreamError>,
    limit: usize,
) -> (collected: Result<(), BodyStreamError>)
    ensures
        match chunk {
            Err(error) => collected == Err::<(), BodyStreamError>(error) && final(body)@
                == old(body)@,
            Ok(chunk) => if old(body)@.len() + chunk@.len() > limit {
                &&& collected matches Err(error) && error.code@ == "upload_collect_limit_exceeded"@
                    && error.message@ == upload_too_large(limit)
                &&& final(body)@ == old(body)@
            } else {
                collected is Ok && final(body)@ == old(body)@ + chunk@
            },
        },
{
    let chunk = match chunk {
        Ok(chunk) => chunk,
        Err(error) => {
            return Err(error);
        },
    };
    let held: usize = body.len();
    if held > limit || chunk.len() > limit - held {
        let mut message = String::new();
        message.append("streaming upload exceeds the ");
        message.append(decimal_text(limit as u64).as_str());
        message.append("-byte collection limit");
        assert(message@ =~= upload_too_large(limit));
        return Err(BodyStreamError::new("upload_collect_limit_exceeded", message.as_str()));
    }
    body.extend_from_slice(chunk.as_slice());
    assert(body@ =~= old(body)@ + chunk@);
    Ok(())
}

/// A rejection with a message and no details.
pub open spec fn plain_rejection(status: u16, code: Seq<char>, message: Seq<char>) -> RejectionView {
    RejectionView { status, code, message, details: None }
}

/// The body that an argument streams.
#[derive(Debug)]
pub enum StreamedInput<S> {
    /// The body that the transport streams.
    Streamed(UploadBody<S>),
    /// A body that the transport holds already, as one chunk.
    Buffered(UploadBody<Chunks>),
}

/// Extracts a streamed body, which only HTTP has: the one that the transport
/// streams, or else the bytes that it holds, as one chunk.
pub fn extract_stream<S, R: HttpRequestParts>(
    input: &InvocationInput<R>,
    stream: Option<StreamingBody<S>>,
) -> (body: Result<StreamedInput<S>, InputRejection>)
    ensures
        match *input {
            InvocationInput::Arguments(_) => body matches Err(rejection) && rejection@
                == plain_rejection(
                400,
                "streaming_input_requires_http"@,
                "streaming request bodies are available only through HTTP"@,
            ),
            InvocationInput::Http(request) => match stream {
                Some(stream) => body == Ok::<StreamedInput<S>, InputRejection>(
                    StreamedInput::Streamed(UploadBody { stream, bytes_read: 0 }),
                ),
                None => body matches Ok(StreamedInput::Buffered(held)) && {
                    &&& held.bytes_read == 0
                    &&& held.stream.stream.remaining@.len() == 1
                    &&& held.stream.stream.remaining@[0]@ == request.content()
                    &&& held.stream.exact_length == Some(request.content().len() as u64)
                },
            },
        },
{
    match input {
        InvocationInput::Arguments(_) => Err(
            InputRejection::new(
                400,
                "streaming_input_requires_http",
                "streaming request bodies are available only through HTTP",
            ),
        ),
        InvocationInput::Http(request) => match stream {
            Some(stream) => Ok(StreamedInput::Streamed(UploadBody::new(stream))),
            None => {
                let held = StreamingBody::once(vstd::slice::slice_to_vec(request.body()));
                Ok(StreamedInput::Buffered(UploadBody::new(held)))
            },
        },
    }
}

/// Typed request-local value installed by transport middleware.
#[derive(Clone, Debug, PartialEq, Eq)]
pub struct Extension<T>(pub T);

/// Extracts a value that middleware installed, which only HTTP can hold.
pub fn extract_extension<T>(http: bool, installed: Option<T>, name: &str) -> (extension: Result<
    Extension<T>,
    InputRejection,
>)
    ensures
        if !http {
            extension matches Err(rejection) && rejection@ == plain_rejection(
                500,
                "extension_transport_mismatch"@,
                "request extension is unavailable on this transport"@,
            )
        } else {
            match installed {
                Some(value) => extension == Ok::<Extension<T>, InputRejection>(Extension(value)),
                None => extension matches Err(rejection) && rejection@ == plain_rejection(
                    500,
                    "missing_request_extension"@,
                    "request middleware did not install extension `"@ + name@ + "`"@,
                ),
            }
        },
{
    if !http {
        return Err(
            InputRejection::new(
                500,
                "extension_transport_mismatch",
                "request extension is unavailable on this transport",
            ),
        );
    }
    match installed {
        Some(value) => Ok(Extension(value)),
        None => {
            let mut message = String::new();
            message.append("request middleware did not install extension `");
            message.append(name);
            message.append("`");
            assert(message@ =~= "request middleware did not install extension `"@ + name@ + "`"@);
            Err(InputRejection::new(500, "missing_request_extension", message.as_str()))
        },
    }
}

/// Extracts the tasks that run after a response, which only HTTP can hold.
pub fn extract_background_tasks<T>(http: bool, installed: Option<T>, name: &str) -> (tasks: Result<
    T,
    InputRejection,
>)
    ensures
        if !http {
            tasks matches Err(rejection) && rejection@ == plain_rejection(
                500,
                "background_tasks_transport_mismatch"@,
                "after-response tasks are available only through HTTP"@,
            )
        } else {
            match installed {
                Some(value) => tasks == Ok::<T, InputRejection>(value),
                None => tasks matches Err(rejection) && rejection@ == plain_rejection(
                    500,
                    "background_tasks_unavailable"@,
                    "this transport installed no after-response tasks for `"@ + name@ + "`"@,
                ),
            }
        },
{
    if !http {
        return Err(
            InputRejection::new(
                500,
                "background_tasks_transport_mismatch",
                "after-response tasks are available only through HTTP",
            ),
        );
    }
    match installed {
        Some(value) => Ok(value),
        None => {
            let mut message = String::new();
            message.append("this transport installed no after-response tasks for `");
            message.append(name);
            message.append("`");
            assert(message@ =~= "this transport installed no after-response tasks for `"@ + name@
                + "`"@);
            Err(InputRejection::new(500, "background_tasks_unavailable", message.as_str()))
        },
    }
}

/// A part that is an upload arrives as it was sent: what its token stands for
/// is the upload that the part is.
pub proof fn law_uploaded_parts_are_read_back(part: PartContent, parked: Parked)
    requires
        parked.len() <= usize::MAX,
    ensures
        part_value(part, SchemaKind::Binary, parked) matches Ok((token, more)) && upload_meant(
            token,
            more,
        ) == Ok::<UploadView, UploadFault>(upload_of(part)),
{
    law_tokens_stand_for_their_upload(parked, upload_of(part));
}

/// The parts under a name are all those that have it, in order, and no others.
pub proof fn law_named_parts_are_all_of_that_name(parts: Seq<PartContent>, name: Seq<char>)
    ensures
        named_parts(parts, name) == parts.filter(|part: PartContent| part.headers.name == name),
    decreases parts.len(),
{
    reveal(Seq::filter);
    if parts.len() > 0 {
        law_named_parts_are_all_of_that_name(parts.drop_last(), name);
    }
}

/// A file input takes as many uploads as its type has room for: exactly one, at
/// most one where it is optional, or any number, of which a required list needs at
/// least one. What it takes, it takes unchanged.
pub proof fn law_file_inputs_take_as_many_as_they_hold(
    uploads: Seq<UploadView>,
    required: bool,
)
    ensures
        <UploadFile as FilePayload>::payload(uploads, required) is Ok <==> uploads.len() == 1,
        <Option<UploadFile> as FilePayload>::payload(uploads, required) is Ok <==> uploads.len()
            == 1 || uploads.len() == 0 && !required,
        <Vec<UploadFile> as FilePayload>::payload(uploads, required) is Ok <==> uploads.len() > 0
            || !required,
        <UploadFile as FilePayload>::payload(uploads, required) matches Ok(taken) ==> taken
            == uploads,
        <Option<UploadFile> as FilePayload>::payload(uploads, required) matches Ok(taken) ==> taken
            == uploads,
        <Vec<UploadFile> as FilePayload>::payload(uploads, required) matches Ok(taken) ==> taken
            == uploads,
        <UploadFile as FilePayload>::payload(uploads, required) matches Err(rejection)
            ==> rejection.status == 422 && rejection.code == "invalid_file_count"@,
{
}

/// A plain multipart argument is the first part under its name: parked as an
/// upload where bytes are expected, read as a text stands for a value of its kind
/// otherwise, and refused where the text is none. Without a part it is missing
/// where it is required, and null otherwise.
pub proof fn law_multipart_arguments_are_their_part(
    parts: Seq<PartContent>,
    name: Seq<char>,
    required: bool,
    ty: TypeView,
    parked: Parked,
)
    requires
        ty.model is None,
        !(ty.schema is Array),
    ensures
        ({
            let argument = multipart_argument(parts, name, required, ty, parked);
            let own = named_parts(parts, name);
            if own.len() == 0 {
                if required {
                    argument == Err::<(JsonView, Parked), RejectionView>(
                        missing(name, InputSource::Multipart),
                    )
                } else {
                    argument == Ok::<(JsonView, Parked), RejectionView>((JsonView::Null, parked))
                }
            } else if ty.schema is Binary {
                argument == Ok::<(JsonView, Parked), RejectionView>(
                    (slot_token(parked.len() as u64), parked.push(Some(upload_of(own[0])))),
                )
            } else {
                match text_of(own[0].bytes) {
                    Some(text) => argument == Ok::<(JsonView, Parked), RejectionView>(
                        (scalar_of(text, ty.schema), parked),
                    ),
                    None => argument matches Err(rejection) && rejection.status == 422
                        && rejection.code == "invalid_multipart"@,
                }
            }
        }),
        upload_of(parts[0]).bytes == parts[0].bytes,
        upload_of(parts[0]).field_name == parts[0].headers.name,
        upload_of(parts[0]).file_name == parts[0].headers.file_name,
        upload_of(parts[0]).content_type == parts[0].headers.content_type,
{
}

/// A request without a content type, or without a boundary in it, is refused as
/// invalid multipart; otherwise its parts are those of its body between the
/// boundaries.
pub proof fn law_parts_are_those_of_the_body(
    content_type: Seq<char>,
    body: Seq<u8>,
)
    ensures
        parts_of(None, body) matches Err(rejection) && rejection.status == 422 && rejection.code
            == "invalid_multipart"@,
        boundary_of(content_type) is None ==> (parts_of(Some(content_type), body) matches Err(
            rejection,
        ) && rejection.status == 422),
        boundary_of(content_type) matches Some(boundary) ==> (match document(
            body,
            delimiter_of(boundary),
        ) {
            Ok(parts) => parts_of(Some(content_type), body) == Ok::<
                Seq<PartContent>,
                RejectionView,
            >(parts),
            Err(_) => parts_of(Some(content_type), body) is Err,
        }),
{
}

/// A file argument in a document is looked for under its name, and is the document
/// itself where there is nothing under it. A list gives as many uploads as it has
/// items, in order, each as it stands alone among what those before it left; null
/// gives none, and is missing where a file is required; anything else gives one.
pub proof fn law_document_files_are_found_by_name(
    arguments: JsonView,
    name: Seq<char>,
    required: bool,
    parked: Parked,
)
    ensures
        ({
            let value = if members(arguments).contains_key(name) {
                members(arguments)[name]
            } else {
                arguments
            };
            let found = document_uploads(arguments, name, required, parked);
            &&& value is Null ==> found == if required {
                Err::<Seq<UploadView>, RejectionView>(missing(name, InputSource::File))
            } else {
                Ok(Seq::empty())
            }
            &&& value matches JsonView::List(values) ==> (found matches Ok(uploads) ==> uploads.len()
                == values.len() && forall|i: int|
                0 <= i < uploads.len() ==> upload_given(
                    values[i],
                    name,
                    listed_left(values, name, parked, i),
                ) == Ok::<UploadView, RejectionView>(#[trigger] uploads[i]))
            &&& !(value is Null) && !(value is List) ==> (match upload_given(value, name, parked) {
                Ok(upload) => found == Ok::<Seq<UploadView>, RejectionView>(seq![upload]),
                Err(rejection) => found == Err::<Seq<UploadView>, RejectionView>(rejection),
            })
        }),
{
    let value = if members(arguments).contains_key(name) {
        members(arguments)[name]
    } else {
        arguments
    };
    if let JsonView::List(values) = value {
        lemma_uploads_listed(values, name, parked, values.len() as int);
    }
}

proof fn lemma_uploads_listed(values: Seq<JsonView>, name: Seq<char>, parked: Parked, count: int)
    requires
        0 <= count <= values.len(),
    ensures
        uploads_listed(values, name, parked, count) matches Ok((uploads, left)) ==> uploads.len()
            == count && left == listed_left(values, name, parked, count) && forall|i: int|
            0 <= i < uploads.len() ==> upload_given(
                values[i],
                name,
                listed_left(values, name, parked, i),
            ) == Ok::<UploadView, RejectionView>(#[trigger] uploads[i]),
    decreases count,
{
    if count > 0 {
        lemma_uploads_listed(values, name, parked, count - 1);
        if let Ok((uploads, left)) = uploads_listed(values, name, parked, count) {
            let before = uploads_listed(values, name, parked, count - 1)->Ok_0.0;
            assert forall|i: int| 0 <= i < uploads.len() implies upload_given(
                values[i],
                name,
                listed_left(values, name, parked, i),
            ) == Ok::<UploadView, RejectionView>(#[trigger] uploads[i]) by {
                if i < before.len() {
                    assert(uploads[i] == before[i]);
                }
            }
        }
    }
}

/// A file that is given as a text holds the bytes that the text encodes, under the
/// name of the argument. One that is given as an object holds those of its member
/// `base64`, of `data` where there is none, and of `content` where there is neither,
/// under its own names where it has them.
pub proof fn law_encoded_files_hold_what_they_encode(
    value: JsonView,
    encoded: Seq<char>,
    name: Seq<char>,
    parked: Parked,
)
    ensures
        value == JsonView::Text(encoded) ==> (match base64_content(encoded) {
            Ok(bytes) => upload_given(value, name, parked) == Ok::<UploadView, RejectionView>(
                UploadView { field_name: name, file_name: None, content_type: None, bytes },
            ),
            Err(_) => upload_given(value, name, parked) matches Err(rejection) && rejection.status
                == 422 && rejection.code == "invalid_input"@,
        }),
        ({
            let first = if members(value).contains_key("base64"@) {
                "base64"@
            } else if members(value).contains_key("data"@) {
                "data"@
            } else {
                "content"@
            };
            members(value).contains_key(first) && members(value)[first] == JsonView::Text(encoded)
                && value is Object ==> (upload_given(value, name, parked) matches Ok(upload) ==> {
                &&& base64_content(encoded) == Ok::<Seq<u8>, Seq<char>>(upload.bytes)
                &&& members(value).contains_key("field_name"@) && members(value)["field_name"@]
                    is Text ==> members(value)["field_name"@] == JsonView::Text(upload.field_name)
                &&& !members(value).contains_key("field_name"@) ==> upload.field_name == name
                &&& upload.file_name matches Some(file_name) ==> members(value)["file_name"@]
                    == JsonView::Text(file_name)
                &&& upload.content_type matches Some(content_type)
                    ==> members(value)["content_type"@] == JsonView::Text(content_type)
            })
        }),
        !(value is Text) && encoded_member(value) is None ==> (upload_meant(
            value,
            parked,
        ) matches Ok(upload) ==> upload_given(value, name, parked) == Ok::<
            UploadView,
            RejectionView,
        >(upload)),
{
}

proof fn lemma_text_list(
    parts: Seq<PartContent>,
    item: SchemaKind,
    known: bool,
    parked: Parked,
    count: int,
)
    requires
        0 <= count <= parts.len(),
        !known || !(item is Binary),
    ensures
        list_values(parts, item, known, parked, count) matches Ok((values, left)) ==> left == parked
            && values.len() == count && forall|i: int|
            0 <= i < count ==> (text_of(parts[i].bytes) matches Some(text)
                && #[trigger] values[i] == scalar_of(text, item)),
    decreases count,
{
    if count > 0 {
        lemma_text_list(parts, item, known, parked, count - 1);
        if let Ok((values, left)) = list_values(parts, item, known, parked, count) {
            let before = list_values(parts, item, known, parked, count - 1)->Ok_0.0;
            assert forall|i: int| 0 <= i < count implies (text_of(parts[i].bytes) matches Some(text)
                && #[trigger] values[i] == scalar_of(text, item)) by {
                if i < count - 1 {
                    assert(values[i] == before[i]);
                }
            }
        }
    }
}

/// A list of plain values holds one value for every part under its name, in order,
/// each read as its text stands for a value of the item's kind. Without a part the
/// list is missing where it is required, and null otherwise.
pub proof fn law_multipart_lists_hold_their_parts(
    parts: Seq<PartContent>,
    name: Seq<char>,
    required: bool,
    ty: TypeView,
    parked: Parked,
    item: SchemaKind,
)
    requires
        ty.model is None,
        ty.schema == SchemaKind::Array(Box::new(item)),
        ty.items is None,
    ensures
        ({
            let own = named_parts(parts, name);
            match multipart_argument(parts, name, required, ty, parked) {
                Ok((value, left)) => {
                    &&& left == parked
                    &&& own.len() == 0 ==> !required && value is Null
                    &&& own.len() > 0 ==> (value matches JsonView::List(values) && values.len()
                        == own.len() && forall|i: int|
                        0 <= i < own.len() ==> (text_of(own[i].bytes) matches Some(text)
                            && #[trigger] values[i] == scalar_of(text, item)))
                },
                Err(rejection) => rejection.status == 422,
            }
        }),
{
    let own = named_parts(parts, name);
    lemma_text_list(own, item, false, parked, own.len() as int);
    lemma_list_refusal(own, item, false, parked, own.len() as int);
}

proof fn lemma_list_refusal(
    parts: Seq<PartContent>,
    item: SchemaKind,
    known: bool,
    parked: Parked,
    count: int,
)
    ensures
        list_values(parts, item, known, parked, count) matches Err(rejection) ==> rejection.status
            == 422,
    decreases count,
{
    if count > 0 {
        lemma_list_refusal(parts, item, known, parked, count - 1);
    }
}

/// A model is read from the parts under the names of its fields: a plain field is
/// given if and only if there is a part under its name, and then it is what the
/// first of them says.
pub proof fn law_multipart_models_are_read_by_field(
    parts: Seq<PartContent>,
    fields: Seq<FieldView>,
    parked: Parked,
    count: int,
    k: int,
)
    requires
        0 <= k < count <= fields.len(),
        forall|i: int, j: int|
            0 <= i < j < fields.len() ==> (#[trigger] fields[i]).name != (#[trigger] fields[j]).name,
        !(fields[k].ty.schema is Array),
        !(fields[k].ty.schema is Binary),
    ensures
        model_parts(parts, fields, parked, count) matches Ok((given, _)) ==> {
            let own = named_parts(parts, fields[k].name);
            &&& given.contains_key(fields[k].name) <==> own.len() > 0
            &&& own.len() > 0 ==> (text_of(own[0].bytes) matches Some(text)
                && given[fields[k].name] == scalar_of(text, fields[k].ty.schema))
        },
    decreases count,
{
    if k < count - 1 {
        law_multipart_models_are_read_by_field(parts, fields, parked, count - 1, k);
        assert(fields[k].name != fields[count - 1].name);
    } else {
        lemma_fields_given(parts, fields, parked, count - 1, fields[k].name);
    }
}

proof fn lemma_fields_given(
    parts: Seq<PartContent>,
    fields: Seq<FieldView>,
    parked: Parked,
    count: int,
    name: Seq<char>,
)
    requires
        count <= fields.len(),
        forall|i: int| 0 <= i < count ==> (#[trigger] fields[i]).name != name,
    ensures
        model_parts(parts, fields, parked, count) matches Ok((given, _)) ==> !given.contains_key(
            name,
        ),
    decreases count,
{
    if count > 0 {
        lemma_fields_given(parts, fields, parked, count - 1, name);
        assert(fields[count - 1].name != name);
    }
}

} // verus!
