use blazingly::body::UploadFile;
use blazingly::json::JsonValue;
use blazingly::outputs::{PreparedJson, ResponseHints};
use blazingly::uploads::{
    decode_upload, upload_reason_text, UploadDraft, UploadFault, UploadField, UploadSlots,
    UploadTable,
};

fn notation(value: &JsonValue) -> Vec<u8> {
    PreparedJson::<String>::encode(&mut ResponseHints::new(), 0x40, value)
        .expect("the value encodes")
        .into_bytes()
}

fn bytes(items: &[u64]) -> JsonValue {
    JsonValue::list(items.iter().map(|item| JsonValue::unsigned(*item)).collect())
}

#[test]
fn a_parked_upload_leaves_only_a_token_in_the_document() {
    let mut table = UploadTable::new();
    let slots = UploadSlots::acquire(&table);
    let token = slots.park(
        &mut table,
        UploadFile::new("cover", vec![7; 1 << 20])
            .with_file_name("cover.png")
            .with_content_type("image/png"),
    );

    let encoded = notation(&token);
    assert!(
        encoded.len() < 64,
        "a megabyte of upload left {} bytes in the document",
        encoded.len()
    );
    let decoded = decode_upload(&token, &mut table).expect("the token resolves");
    assert_eq!(decoded.field_name, "cover");
    assert_eq!(decoded.file_name.as_deref(), Some("cover.png"));
    assert_eq!(decoded.content_type.as_deref(), Some("image/png"));
    assert_eq!(decoded.bytes.len(), 1 << 20);
    assert!(decoded.bytes.iter().all(|byte| *byte == 7));
}

#[test]
fn an_upload_slot_does_not_outlive_its_extraction() {
    let mut table = UploadTable::new();
    let token = {
        let slots = UploadSlots::acquire(&table);
        let token = slots.park(&mut table, UploadFile::new("gone", vec![1, 2, 3]));
        slots.release(&mut table);
        token
    };
    let error = decode_upload(&token, &mut table).expect_err("a released slot cannot be resolved");
    assert_eq!(error, UploadFault::Unavailable);
    assert!(error.to_string().contains("no longer available"));
}

#[test]
fn an_upload_slot_can_only_be_taken_once() {
    let mut table = UploadTable::new();
    let slots = UploadSlots::acquire(&table);
    let token = slots.park(&mut table, UploadFile::new("once", vec![9]));
    let first = decode_upload(&token, &mut table).expect("the first take resolves");
    assert_eq!(first.bytes, vec![9]);
    assert!(decode_upload(&token, &mut table).is_err());
}

#[test]
fn two_extractions_on_one_thread_cannot_see_each_others_slots() {
    let mut table = UploadTable::new();
    let outer = UploadSlots::acquire(&table);
    let outer_token = outer.park(&mut table, UploadFile::new("outer", vec![1]));
    let inner_token = {
        let inner = UploadSlots::acquire(&table);
        let token = inner.park(&mut table, UploadFile::new("inner", vec![2]));
        inner.release(&mut table);
        token
    };

    assert!(decode_upload(&inner_token, &mut table).is_err());
    let resolved = decode_upload(&outer_token, &mut table).expect("the outer slot survives");
    assert_eq!(resolved.field_name, "outer");
}

#[test]
fn the_object_form_an_mcp_client_sends_still_decodes() {
    let value = JsonValue::object()
        .with("field_name", JsonValue::text("avatar"))
        .with("file_name", JsonValue::text("a.png"))
        .with("content_type", JsonValue::text("image/png"))
        .with("bytes", bytes(&[1, 2, 3]));
    let upload =
        decode_upload(&value, &mut UploadTable::new()).expect("the object form decodes");
    assert_eq!(
        upload,
        UploadFile::new("avatar", vec![1, 2, 3])
            .with_file_name("a.png")
            .with_content_type("image/png")
    );
}

#[test]
fn an_upload_survives_its_own_serialized_form() {
    let upload = UploadFile::new("report", vec![4, 5, 6]).with_file_name("r.bin");
    let encoded = upload.to_value();
    let decoded = decode_upload(&encoded, &mut UploadTable::new()).expect("the upload decodes");
    assert_eq!(decoded, upload);
}

#[test]
fn the_object_form_defaults_metadata_and_still_demands_the_rest() {
    let minimal = decode_upload(
        &JsonValue::object()
            .with("field_name", JsonValue::text("a"))
            .with("bytes", bytes(&[])),
        &mut UploadTable::new(),
    )
    .expect("optional metadata may be absent");
    assert!(minimal.file_name.is_none());
    assert!(minimal.content_type.is_none());

    let error = decode_upload(
        &JsonValue::object().with("field_name", JsonValue::text("a")),
        &mut UploadTable::new(),
    )
    .expect_err("bytes are required");
    assert_eq!(error, UploadFault::Missing(UploadField::Bytes));
    assert!(error.to_string().contains("bytes"));
}

#[test]
fn a_document_that_is_no_upload_is_refused() {
    let mut table = UploadTable::new();
    assert_eq!(
        decode_upload(&JsonValue::text("plain"), &mut table),
        Err(UploadFault::NotAnObject)
    );
    let mistyped = JsonValue::object()
        .with("field_name", JsonValue::text("a"))
        .with("bytes", bytes(&[256]));
    assert_eq!(
        decode_upload(&mistyped, &mut table),
        Err(UploadFault::Mistyped(UploadField::Bytes))
    );
    let nameless = JsonValue::object().with("bytes", bytes(&[1]));
    assert_eq!(
        decode_upload(&nameless, &mut table),
        Err(UploadFault::Missing(UploadField::FieldName))
    );
    let mut draft = UploadDraft::new();
    assert_eq!(draft.set_field_name("a".to_string()), Ok(()));
    assert_eq!(
        draft.set_field_name("b".to_string()),
        Err(UploadFault::Duplicate(UploadField::FieldName))
    );
    assert_eq!(draft.set_file_name(None), Ok(()));
    assert_eq!(draft.set_content_type(None), Ok(()));
    assert_eq!(draft.set_bytes(vec![1]), Ok(()));
    assert_eq!(draft.finish(), Ok(UploadFile::new("a", vec![1])));
}

#[test]
fn a_value_that_is_no_upload_is_named_by_its_kind() {
    let reason = |value: &JsonValue| {
        let fault = decode_upload(value, &mut UploadTable::new()).expect_err("no upload");
        upload_reason_text(value, fault)
    };
    assert_eq!(reason(&JsonValue::flag(true)), "expected object, found boolean");
    assert_eq!(reason(&JsonValue::list(Vec::new())), "expected object, found array");
    let named = || JsonValue::object().with("field_name", JsonValue::text("a"));
    assert_eq!(
        reason(&named().with("bytes", JsonValue::text("x"))),
        "expected array, found string"
    );
    assert_eq!(reason(&named().with("bytes", bytes(&[1, 256]))), "integer is out of range");
    assert_eq!(
        reason(&named().with("bytes", JsonValue::list(vec![JsonValue::Null]))),
        "expected unsigned integer, found null"
    );
    assert_eq!(
        reason(&JsonValue::object().with("field_name", JsonValue::unsigned(1))),
        "expected string, found number"
    );
    assert_eq!(
        reason(&named().with("file_name", JsonValue::object())),
        "expected string, found object"
    );
    assert_eq!(reason(&named()), "missing field `bytes`");

    // The engine says the same of the same values.
    let refused = blazingly_json::from_str::<blazingly_json::Value>("[1,256]")
        .and_then(blazingly_json::from_value::<Vec<u8>>)
        .expect_err("no bytes");
    assert_eq!(refused.to_string(), "integer is out of range");
    let refused = blazingly_json::from_value::<String>(blazingly_json::Value::from(1_u64))
        .expect_err("no text");
    assert_eq!(refused.to_string(), "expected string, found number");
}
