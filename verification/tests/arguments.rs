use blazingly::application::{App, HttpMethod, OperationDescriptor};
use blazingly::arguments::{
    decode_path_rejection, extract_argument, judge_decoded, missing_input, raw_scalar_value,
    Argument, InvocationInput, RoutedRequestParts,
};
use blazingly::body::{BodyStreamError, Chunks, StreamingBody, UploadFile};
use blazingly::contract::{
    FieldDescriptor, ModelDescriptor, SchemaKind, TypeDescriptor, ValidationRule,
};
use blazingly::files::{
    collect_upload_chunk, extract_background_tasks, extract_extension, extract_files,
    extract_stream, multipart_argument_value, parse_multipart_request, upload_from_value,
    Extension, StreamedInput, UploadBody,
};
use blazingly::json::JsonValue;
use blazingly::operation::{InputDescriptor, InputSource, ResponseDescriptor, ValidationErrors};
use blazingly::outcome::InputRejection;
use blazingly::request::Request;
use blazingly::router::Router;
use blazingly::uploads::{decode_upload, UploadSlots, UploadTable};

type TestRequest = Request<u32>;
type Parts<'request, 'router> = RoutedRequestParts<'request, 'router, u32>;

fn router() -> Router {
    let descriptor = OperationDescriptor::new(
        HttpMethod::Post,
        "/items/{id}",
        "items.update",
        "Update an item",
        None,
        vec![ResponseDescriptor::success(200, None)],
    )
    .unwrap()
    .with_inputs(vec![InputDescriptor::new(
        "id",
        InputSource::Path,
        true,
        TypeDescriptor::new("u64"),
    )]);
    let definition = App::new().route(descriptor).build().unwrap();
    Router::new(&definition, &[0])
}

/// Extracts one argument of a request.
fn extracted(
    request: &TestRequest,
    name: &str,
    source: InputSource,
    required: bool,
    descriptor: &TypeDescriptor,
) -> Result<JsonValue, InputRejection> {
    let router = router();
    let path = request.path();
    let route = router.recognize(request.method(), &path).ok().unwrap();
    let parts = RoutedRequestParts {
        route: &route,
        request,
    };
    match extract_argument(
        &InvocationInput::http(&parts),
        name,
        source,
        required,
        descriptor,
    )? {
        Argument::Value(value) => Ok(value),
        Argument::Body(bytes) => Ok(JsonValue::unsigned(bytes.len() as u64)),
    }
}

fn number() -> TypeDescriptor {
    TypeDescriptor::scalar("u64", SchemaKind::Integer)
}

fn text() -> TypeDescriptor {
    TypeDescriptor::scalar("String", SchemaKind::String)
}

fn request() -> TestRequest {
    Request::post("/items/7?page=2&tag=a&tag=b&q=10")
        .header("x-tenant", "north")
        .header("cookie", "session=abc; theme=dark")
}

#[test]
fn arguments_come_from_where_they_are_declared() {
    let request = request();
    assert_eq!(
        extracted(&request, "id", InputSource::Path, true, &number()).unwrap(),
        JsonValue::unsigned(7)
    );
    assert_eq!(
        extracted(&request, "page", InputSource::Query, true, &number()).unwrap(),
        JsonValue::unsigned(2)
    );
    assert_eq!(
        extracted(&request, "q", InputSource::Query, true, &text()).unwrap(),
        JsonValue::text("10")
    );
    assert_eq!(
        extracted(&request, "x_tenant", InputSource::Header, true, &text()).unwrap(),
        JsonValue::text("north")
    );
    assert_eq!(
        extracted(&request, "theme", InputSource::Cookie, true, &text()).unwrap(),
        JsonValue::text("dark")
    );
    let tags = TypeDescriptor::scalar(
        "Vec<String>",
        SchemaKind::Array(Box::new(SchemaKind::String)),
    );
    assert_eq!(
        extracted(&request, "tag", InputSource::Query, true, &tags).unwrap(),
        JsonValue::list(vec![JsonValue::text("a"), JsonValue::text("b")])
    );
}

#[test]
fn a_json_body_is_handed_over_as_it_is() {
    let request = request().body(b"{\"a\": 1}".to_vec());
    assert_eq!(
        extracted(&request, "body", InputSource::Json, true, &text()).unwrap(),
        JsonValue::unsigned(8)
    );
}

#[test]
fn a_missing_argument_is_rejected_where_it_is_required() {
    let rejection = extracted(&request(), "limit", InputSource::Query, true, &number())
        .err()
        .expect("a missing input");
    assert_eq!(rejection, missing_input("limit", InputSource::Query));
    assert_eq!(rejection.status, 422);
    assert_eq!(rejection.code, "missing_input");
    assert_eq!(rejection.message, "required query input is missing");
    assert_eq!(
        extracted(&request(), "limit", InputSource::Query, false, &number()).unwrap(),
        JsonValue::Null
    );
}

#[test]
fn a_model_gathers_its_fields_under_their_aliases() {
    let model = TypeDescriptor::model(ModelDescriptor::new(
        "Page",
        vec![
            FieldDescriptor::new("page", true, number(), Vec::new()),
            FieldDescriptor::new(
                "search",
                false,
                text(),
                vec![ValidationRule::Alias("q".to_string())],
            ),
        ],
    ));
    let value = extracted(&request(), "page", InputSource::Query, true, &model).unwrap();
    assert_eq!(value.get("page"), Some(&JsonValue::unsigned(2)));
    assert!(value.get("q").is_some() || value.get("search").is_some());
}

#[test]
fn structured_arguments_are_selected_by_name() {
    let arguments = JsonValue::object().with("id", JsonValue::unsigned(9));
    let input: InvocationInput<'_, Parts<'_, '_>> = InvocationInput::arguments(&arguments);
    match extract_argument(&input, "id", InputSource::Path, true, &number()) {
        Ok(Argument::Value(value)) => assert_eq!(value, JsonValue::unsigned(9)),
        other => panic!("expected a value, got {other:?}"),
    }
    let missing = extract_argument(&input, "x", InputSource::Query, true, &number()).err();
    assert_eq!(missing, Some(missing_input("x", InputSource::Query)));
}

#[test]
fn a_text_is_read_as_the_shape_that_is_expected() {
    assert_eq!(
        raw_scalar_value("12", &SchemaKind::String),
        JsonValue::text("12")
    );
    assert_eq!(
        raw_scalar_value("12", &SchemaKind::Integer),
        JsonValue::unsigned(12)
    );
    assert_eq!(
        raw_scalar_value("true", &SchemaKind::Boolean),
        JsonValue::flag(true)
    );
    assert_eq!(
        raw_scalar_value("plain", &SchemaKind::Integer),
        JsonValue::text("plain")
    );
}

#[test]
fn decoding_failures_name_their_place() {
    let rejection = decode_path_rejection("body", InputSource::Json, "items[0].id", "expected u64");
    assert_eq!(rejection.code, "invalid_json");
    assert_eq!(rejection.message, "request body is not valid JSON");
    let details = rejection.details.expect("details");
    assert_eq!(
        details.get("reason").and_then(|reason| reason.as_str()),
        Some("expected u64")
    );
    assert_eq!(
        details.get("field").and_then(|field| field.as_str()),
        Some("items[0].id")
    );
    let plain = decode_path_rejection("page", InputSource::Query, "", "expected u64");
    assert_eq!(plain.code, "invalid_input");
    assert_eq!(plain.message, "query input could not be decoded");
}

#[test]
fn violations_reject_a_decoded_value() {
    let mut errors = ValidationErrors::new();
    errors.push("email", "email", "not an email address");
    let rejection = judge_decoded(5, Err(errors), InputSource::Json)
        .err()
        .expect("a rejection");
    assert_eq!(rejection.code, "validation_error");
    assert_eq!(rejection.message, "json input failed validation");
    assert_eq!(judge_decoded(5, Ok(()), InputSource::Json).ok(), Some(5));
}

const FORM: &str = "--b\r\n\
    Content-Disposition: form-data; name=\"title\"\r\n\r\nA cover\r\n--b\r\n\
    Content-Disposition: form-data; name=\"cover\"; filename=\"c.png\"\r\n\
    Content-Type: image/png\r\n\r\nBYTES\r\n--b--\r\n";

fn form_request() -> TestRequest {
    request()
        .header("content-type", "multipart/form-data; boundary=b")
        .body(FORM.as_bytes().to_vec())
}

#[test]
fn files_are_taken_from_a_form() {
    let router = router();
    let request = form_request();
    let route = router.recognize(HttpMethod::Post, "/items/7").ok().unwrap();
    let parts = RoutedRequestParts {
        route: &route,
        request: &request,
    };
    let parsed = parse_multipart_request(&parts).expect("the form parses");
    assert_eq!(parsed.len(), 2);
    let input = InvocationInput::http(&parts);
    let mut table = UploadTable::new();
    let upload: UploadFile =
        extract_files(&input, "cover", true, &mut table).expect("one upload");
    assert_eq!(
        upload,
        UploadFile::new("cover", b"BYTES".to_vec())
            .with_file_name("c.png")
            .with_content_type("image/png")
    );
    let absent: Option<UploadFile> =
        extract_files(&input, "missing", false, &mut table).expect("an optional upload");
    assert_eq!(absent, None);
    let refused = extract_files::<_, UploadFile>(&input, "missing", true, &mut table)
        .err()
        .expect("a rejection");
    assert_eq!(refused.status, 422);

    let slots = UploadSlots::acquire(&table);
    let title = multipart_argument_value(&parsed, "title", true, &text(), &slots, &mut table)
        .expect("a text field");
    assert_eq!(title, JsonValue::text("A cover"));
    let binary = TypeDescriptor::scalar("UploadFile", SchemaKind::Binary);
    let token = multipart_argument_value(&parsed, "cover", true, &binary, &slots, &mut table)
        .expect("a parked upload");
    assert_eq!(decode_upload(&token, &mut table).unwrap().bytes, b"BYTES");
}

#[test]
fn a_form_without_its_content_type_is_rejected() {
    let router = router();
    let request = request().body(FORM.as_bytes().to_vec());
    let route = router.recognize(HttpMethod::Post, "/items/7").ok().unwrap();
    let parts = RoutedRequestParts {
        route: &route,
        request: &request,
    };
    let rejection = parse_multipart_request(&parts).err().expect("a rejection");
    assert_eq!(rejection.code, "invalid_multipart");
    assert_eq!(
        rejection
            .details
            .and_then(|details| details
                .get("reason")
                .and_then(|reason| reason.as_str())
                .map(str::to_string))
            .as_deref(),
        Some("missing multipart Content-Type header")
    );
}

#[test]
fn an_agent_may_send_a_file_in_base64() {
    let mut table = UploadTable::new();
    let plain = upload_from_value(&JsonValue::text("aGVsbG8="), "note", &mut table)
        .expect("the notation decodes");
    assert_eq!(plain, UploadFile::new("note", b"hello".to_vec()));

    let refused = upload_from_value(&JsonValue::text("not base64!"), "note", &mut table)
        .err()
        .expect("a rejection");
    assert_eq!(refused.status, 422);

    let input_value = JsonValue::object().with(
        "files",
        JsonValue::list(vec![JsonValue::text("YQ=="), JsonValue::text("Yg==")]),
    );
    let input: InvocationInput<'_, Parts<'_, '_>> = InvocationInput::arguments(&input_value);
    let uploads: Vec<UploadFile> =
        extract_files(&input, "files", true, &mut table).expect("two uploads");
    assert_eq!(uploads.len(), 2);
    assert_eq!(uploads[1].bytes, b"b");
}

#[test]
fn streams_and_extensions_are_extracted_where_they_are_installed() {
    let stream: StreamingBody<Chunks> = StreamingBody::once(b"abc".to_vec());
    let arguments = JsonValue::object();
    let called: InvocationInput<'_, Parts<'_, '_>> = InvocationInput::arguments(&arguments);
    assert!(extract_stream::<Chunks, _>(&called, None).is_err());
    let mut body = UploadBody::new(stream);
    assert_eq!(body.bytes_read(), 0);
    let chunk = body.stream.stream.next_chunk().map(Ok::<_, BodyStreamError>);
    body.pulled(&chunk);
    assert_eq!(body.bytes_read(), 3);

    let mut collected = b"ab".to_vec();
    assert!(collect_upload_chunk(&mut collected, Ok(b"c".to_vec()), 3).is_ok());
    assert!(collect_upload_chunk(&mut collected, Ok(b"d".to_vec()), 3).is_err());
    assert_eq!(UploadBody::new(StreamingBody::once(Vec::new())).bytes_read(), 0);

    assert_eq!(
        extract_extension(true, Some(4_u8), "limits").ok(),
        Some(Extension(4_u8))
    );
    assert!(extract_extension::<u8>(true, None, "limits").is_err());
    assert!(extract_extension::<u8>(false, None, "limits").is_err());
    assert_eq!(extract_background_tasks(true, Some(1_u8), "later").ok(), Some(1));
    assert!(extract_background_tasks::<u8>(false, None, "later").is_err());
}

#[test]
fn a_buffered_body_is_streamed_as_one_chunk() {
    let request = TestRequest::post("/items/7").body(b"abc".to_vec());
    let router = router();
    let path = request.path();
    let route = router.recognize(request.method(), &path).ok().unwrap();
    let parts = RoutedRequestParts {
        route: &route,
        request: &request,
    };
    let input = InvocationInput::http(&parts);
    let Ok(StreamedInput::Buffered(mut held)) = extract_stream::<Chunks, _>(&input, None) else {
        panic!("the transport holds the body");
    };
    assert_eq!(held.exact_length(), Some(3));
    assert_eq!(held.stream.stream.next_chunk(), Some(b"abc".to_vec()));
    assert_eq!(held.stream.stream.next_chunk(), None);

    let stream = StreamingBody::from_chunks(vec![b"d".to_vec(), b"e".to_vec()]);
    let Ok(StreamedInput::Streamed(streamed)) = extract_stream(&input, Some(stream)) else {
        panic!("the transport streams the body");
    };
    assert_eq!(streamed.exact_length(), None);
    assert_eq!(streamed.stream.stream.remaining.len(), 2);
}

#[test]
fn uploads_leave_the_table_only_when_they_are_taken() {
    let mut table = UploadTable::new();
    let slots = UploadSlots::acquire(&table);
    let token = slots.park(&mut table, UploadFile::new("file", b"x".to_vec()));
    let nothing = JsonValue::object().with("file", JsonValue::Null);
    let input: InvocationInput<'_, Parts<'_, '_>> = InvocationInput::arguments(&nothing);
    let none: Option<UploadFile> = extract_files(&input, "file", false, &mut table).unwrap();
    assert!(none.is_none());

    let given = JsonValue::object().with("file", JsonValue::list(vec![token]));
    let input: InvocationInput<'_, Parts<'_, '_>> = InvocationInput::arguments(&given);
    let taken: UploadFile = extract_files(&input, "file", true, &mut table).unwrap();
    assert_eq!(taken.bytes, b"x");
    let again: Result<UploadFile, InputRejection> = extract_files(&input, "file", true, &mut table);
    assert!(again.is_err());
}
