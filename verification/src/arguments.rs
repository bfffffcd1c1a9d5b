//! The values that an invocation supplies to the arguments of a handler.
use crate::contract::{
    field_view, model_view, FieldDescriptor, FieldView, RuleView, SchemaKind, TypeDescriptor,
    TypeView, ValidationRule,
};
use crate::json::{members, parse_json, parsed_json, JsonValue, JsonView};
use crate::metadata::opt_json;
use crate::operation::{
    headers_view, opt_text, texts, ApiSchema, HeaderView, InputSource, ValidationErrors,
    ViolationView,
};
use crate::outcome::{InputRejection, RejectionView};
use crate::request::{nth_header, Request};
use crate::router::{parameter_value, RouteMatch};
use crate::text::split_spec;
use crate::uploads::member;
use crate::url::{
    cookie_value, cookies_of, form_value, form_value_spec, header_name_matches,
    header_of_argument, nth_cookie, nth_value, query_of, query_value, query_value_spec, text_of,
};
use vstd::prelude::*;
use vstd::string::*;

verus! {

// ---------------------------------------------------------------------------
// Rejections
// ---------------------------------------------------------------------------

/// How a source is called.
pub open spec fn source_word(source: InputSource) -> Seq<char> {
    match source {
        InputSource::Path => "path"@,
        InputSource::Query => "query"@,
        InputSource::Header => "header"@,
        InputSource::Cookie => "cookie"@,
        InputSource::Json => "json"@,
        InputSource::Form => "form"@,
        InputSource::Multipart => "multipart"@,
        InputSource::File => "file"@,
        InputSource::Stream => "stream"@,
    }
}

/// How a source is called.
pub fn source_name(source: InputSource) -> (name: &'static str)
    ensures
        name@ == source_word(source),
{
    match source {
        InputSource::Path => "path",
        InputSource::Query => "query",
        InputSource::Header => "header",
        InputSource::Cookie => "cookie",
        InputSource::Json => "json",
        InputSource::Form => "form",
        InputSource::Multipart => "multipart",
        InputSource::File => "file",
        InputSource::Stream => "stream",
    }
}

/// The rejection of an invocation without a required input.
pub open spec fn missing(name: Seq<char>, source: InputSource) -> RejectionView {
    RejectionView {
        status: 422,
        code: "missing_input"@,
        message: "required "@ + source_word(source) + " input is missing"@,
        details: Some(
            JsonView::Object(
                map![
                    "source"@ => JsonView::Text(source_word(source)),
                    "name"@ => JsonView::Text(name),
                ],
            ),
        ),
    }
}

/// Rejects an invocation without a required input.
pub fn missing_input(name: &str, source: InputSource) -> (rejection: InputRejection)
    ensures
        rejection@ == missing(name@, source),
{
    let mut message = String::new();
    message.append("required ");
    message.append(source_name(source));
    message.append(" input is missing");
    let details = JsonValue::object().with("source", JsonValue::text(source_name(source))).with(
        "name",
        JsonValue::text(name),
    );
    let rejection = InputRejection {
        status: 422,
        code: "missing_input".to_owned(),
        message,
        details: Some(details),
    };
    proof {
        assert(rejection@.message =~= missing(name@, source).message);
        assert(members(details@) =~= map![
            "source"@ => JsonView::Text(source_word(source)),
            "name"@ => JsonView::Text(name@),
        ]);
    }
    rejection
}

/// The rejection of an input that could not be decoded, at a path inside it
/// where one is known.
pub open spec fn undecodable(
    name: Seq<char>,
    source: InputSource,
    path: Seq<char>,
    reason: Seq<char>,
) -> RejectionView {
    let details = map![
        "source"@ => JsonView::Text(source_word(source)),
        "name"@ => JsonView::Text(name),
        "reason"@ => JsonView::Text(reason),
    ];
    RejectionView {
        status: 422,
        code: if source == InputSource::Json {
            "invalid_json"@
        } else {
            "invalid_input"@
        },
        message: if source == InputSource::Json {
            "request body is not valid JSON"@
        } else {
            source_word(source) + " input could not be decoded"@
        },
        details: Some(
            JsonView::Object(
                if path.len() == 0 {
                    details
                } else {
                    details.insert("field"@, JsonView::Text(path))
                },
            ),
        ),
    }
}

/// Rejects an input that could not be decoded.
pub fn decode_rejection(name: &str, source: InputSource, reason: &str) -> (rejection: InputRejection)
    ensures
        rejection@ == undecodable(name@, source, Seq::empty(), reason@),
{
    proof {
        reveal_strlit("");
        assert(""@ =~= Seq::<char>::empty());
    }
    decode_path_rejection(name, source, "", reason)
}

/// Rejects an input that could not be decoded at some path inside it.
pub fn decode_path_rejection(name: &str, source: InputSource, path: &str, reason: &str) -> (rejection:
    InputRejection)
    ensures
        rejection@ == undecodable(name@, source, path@, reason@),
{
    let code = if source == InputSource::Json {
        "invalid_json"
    } else {
        "invalid_input"
    };
    let mut message = String::new();
    if source == InputSource::Json {
        message.append("request body is not valid JSON");
    } else {
        message.append(source_name(source));
        message.append(" input could not be decoded");
    }
    let mut details = JsonValue::object().with(
        "source",
        JsonValue::text(source_name(source)),
    ).with("name", JsonValue::text(name)).with("reason", JsonValue::text(reason));
    let ghost plain = map![
        "source"@ => JsonView::Text(source_word(source)),
        "name"@ => JsonView::Text(name@),
        "reason"@ => JsonView::Text(reason@),
    ];
    assert(members(details@) =~= plain);
    if path.unicode_len() > 0 {
        details.set("field", JsonValue::text(path));
    }
    let rejection = InputRejection {
        status: 422,
        code: code.to_owned(),
        message,
        details: Some(details),
    };
    proof {
        assert(rejection@.message =~= undecodable(name@, source, path@, reason@).message);
    }
    rejection
}

/// One violation as data.
pub open spec fn violation_value(violation: ViolationView) -> JsonView {
    JsonView::Object(
        map![
            "field"@ => JsonView::Text(violation.field),
            "code"@ => JsonView::Text(violation.code),
            "message"@ => JsonView::Text(violation.message),
        ],
    )
}

/// Violations as data.
pub open spec fn violations_value(errors: Seq<ViolationView>) -> JsonView {
    JsonView::Object(
        map![
            "violations"@ => JsonView::List(
                errors.map_values(|violation: ViolationView| violation_value(violation)),
            ),
        ],
    )
}

/// The rejection of an input that breaks the rules of its model.
pub open spec fn invalid(errors: Seq<ViolationView>, source: InputSource) -> RejectionView {
    RejectionView {
        status: 422,
        code: "validation_error"@,
        message: source_word(source) + " input failed validation"@,
        details: Some(violations_value(errors)),
    }
}

fn errors_value(errors: &ValidationErrors) -> (value: JsonValue)
    ensures
        value@ == violations_value(errors@),
{
    let violations = errors.violations();
    let mut items: Vec<JsonValue> = Vec::new();
    let mut index: usize = 0;
    while index < violations.len()
        invariant
            index <= violations@.len(),
            errors@ == violations@.map_values(
                |violation: crate::operation::FieldViolation| violation@,
            ),
            items@.len() == index,
            forall|i: int|
                0 <= i < index ==> (#[trigger] items@[i])@ == violation_value(errors@[i]),
        decreases violations@.len() - index,
    {
        let violation = &violations[index];
        assert(errors@[index as int] == violation@);
        let item = JsonValue::object().with("field", JsonValue::text(violation.field.as_str())).with(
            "code",
            JsonValue::text(violation.code.as_str()),
        ).with("message", JsonValue::text(violation.message.as_str()));
        assert(members(item@) =~= map![
            "field"@ => JsonView::Text(violation@.field),
            "code"@ => JsonView::Text(violation@.code),
            "message"@ => JsonView::Text(violation@.message),
        ]);
        items.push(item);
        index += 1;
    }
    proof {
        assert(items@.map_values(|item: JsonValue| crate::json::json_view(item))
            =~= errors@.map_values(|violation: ViolationView| violation_value(violation)));
    }
    let value = JsonValue::object().with("violations", JsonValue::list(items));
    assert(members(value@) =~= map![
        "violations"@ => JsonView::List(
            errors@.map_values(|violation: ViolationView| violation_value(violation)),
        ),
    ]);
    value
}

/// What the verdict on a decoded value comes to.
pub open spec fn judged<T>(
    accepted: Result<T, InputRejection>,
    decoded: T,
    verdict: Result<(), ValidationErrors>,
    source: InputSource,
) -> bool {
    match verdict {
        Ok(()) => accepted == Ok::<T, InputRejection>(decoded),
        Err(errors) => accepted matches Err(rejection) && rejection@ == invalid(errors@, source),
    }
}

/// Accepts a decoded value that validates itself.
pub fn validate_decoded<T: ApiSchema>(decoded: T, source: InputSource) -> (accepted: Result<
    T,
    InputRejection,
>)
    ensures
        exists|verdict: Result<(), ValidationErrors>|
            call_ensures(T::validate_input, (&decoded,), verdict) && #[trigger] judged(
                accepted,
                decoded,
                verdict,
                source,
            ),
{
    let verdict = decoded.validate_input();
    let ghost given = verdict;
    let accepted = judge_decoded(decoded, verdict, source);
    assert(judged(accepted, decoded, given, source));
    accepted
}

/// Accepts a decoded value whose model found no violation.
pub fn judge_decoded<T>(
    decoded: T,
    verdict: Result<(), ValidationErrors>,
    source: InputSource,
) -> (accepted: Result<T, InputRejection>)
    ensures
        judged(accepted, decoded, verdict, source),
{
    match verdict {
        Ok(()) => Ok(decoded),
        Err(errors) => {
            let mut message = String::new();
            message.append(source_name(source));
            message.append(" input failed validation");
            let rejection = InputRejection {
                status: 422,
                code: "validation_error".to_owned(),
                message,
                details: Some(errors_value(&errors)),
            };
            assert(rejection@.message =~= invalid(errors@, source).message);
            Err(rejection)
        },
    }
}

// ---------------------------------------------------------------------------
// Arguments out of an HTTP request
// ---------------------------------------------------------------------------

/// HTTP request values used by the compiled executor, as an adapter supplies
/// them.
pub trait HttpRequestParts {
    /// The value of an argument at an index.
    spec fn raw(&self, source: InputSource, name: Seq<char>, index: nat) -> Option<Seq<char>>;

    /// The body of the request.
    spec fn content(&self) -> Seq<u8>;

    /// A bound on the indices at which there are values.
    spec fn most(&self) -> nat;

    /// There are no values from the bound on.
    proof fn values_end(&self, source: InputSource, name: Seq<char>, index: nat)
        requires
            index >= self.most(),
        ensures
            self.raw(source, name, index) is None,
    ;

    /// The value of an argument at an index.
    fn value(&self, source: InputSource, name: &str, index: usize) -> (value: Option<String>)
        ensures
            opt_text(value) == self.raw(source, name@, index as nat),
    ;

    /// The body of the request.
    fn body(&self) -> (body: &[u8])
        ensures
            body@ == self.content(),
    ;
}

/// Transport-neutral values supplied to typed operation extractors.
#[derive(Debug)]
pub enum InvocationInput<'input, R> {
    Http(&'input R),
    Arguments(&'input JsonValue),
}

impl<'input, R> InvocationInput<'input, R> {
    #[must_use]
    pub fn http(request: &'input R) -> (input: Self)
        ensures
            input == InvocationInput::Http(request),
    {
        InvocationInput::Http(request)
    }

    #[must_use]
    pub fn arguments(arguments: &'input JsonValue) -> (input: Self)
        ensures
            input == InvocationInput::<R>::Arguments(arguments),
    {
        InvocationInput::Arguments(arguments)
    }
}

/// What a text stands for where a value of some shape is expected: itself where
/// a text is, and otherwise the JSON value that it spells out, if it does.
pub open spec fn scalar_of(text: Seq<char>, schema: SchemaKind) -> JsonView {
    match schema {
        SchemaKind::String | SchemaKind::Binary | SchemaKind::Array(_) => JsonView::Text(text),
        _ => match parsed_json(text) {
            Some(value) => value,
            None => JsonView::Text(text),
        },
    }
}

/// Settles what a text stands for once it was read as JSON.
pub fn settle_scalar(text: &str, parsed: Option<JsonValue>) -> (value: JsonValue)
    ensures
        value@ == match parsed {
            Some(parsed) => parsed@,
            None => JsonView::Text(text@),
        },
{
    match parsed {
        Some(parsed) => parsed,
        None => JsonValue::text(text),
    }
}

/// What a text stands for where a value of some shape is expected.
pub fn raw_scalar_value(value: &str, schema: &SchemaKind) -> (scalar: JsonValue)
    ensures
        scalar@ == scalar_of(value@, *schema),
{
    match schema {
        SchemaKind::String | SchemaKind::Binary | SchemaKind::Array(_) => JsonValue::text(value),
        _ => settle_scalar(value, parse_json(value)),
    }
}

/// All values of an argument, from one index on.
pub open spec fn gathered<R: HttpRequestParts>(
    request: R,
    source: InputSource,
    name: Seq<char>,
    from: nat,
) -> Seq<Seq<char>>
    decreases request.most() - from,
{
    if from >= request.most() {
        Seq::empty()
    } else {
        match request.raw(source, name, from) {
            Some(value) => seq![value] + gathered(request, source, name, from + 1),
            None => Seq::empty(),
        }
    }
}

/// The value of an argument of some type.
pub open spec fn typed_value<R: HttpRequestParts>(
    request: R,
    source: InputSource,
    name: Seq<char>,
    ty: TypeView,
) -> Option<JsonView> {
    match ty.schema {
        SchemaKind::Array(item) => {
            let values = gathered(request, source, name, 0);
            if values.len() == 0 {
                None
            } else {
                Some(JsonView::List(values.map_values(|value: Seq<char>| scalar_of(value, *item))))
            }
        },
        _ => match request.raw(source, name, 0) {
            Some(value) => Some(scalar_of(value, ty.schema)),
            None => None,
        },
    }
}

fn raw_typed_value<R: HttpRequestParts>(
    request: &R,
    source: InputSource,
    name: &str,
    descriptor: &TypeDescriptor,
) -> (value: Option<JsonValue>)
    ensures
        opt_json(value) == typed_value(*request, source, name@, descriptor@),
{
    if let SchemaKind::Array(item) = &descriptor.schema {
        let ghost all = gathered(*request, source, name@, 0);
        let mut values: Vec<JsonValue> = Vec::new();
        assert(all.skip(0) =~= all);
        loop
            invariant
                descriptor.schema == SchemaKind::Array(*item),
                all == gathered(*request, source, name@, 0),
                values@.len() <= all.len(),
                all.skip(values@.len() as int) == gathered(
                    *request,
                    source,
                    name@,
                    values@.len(),
                ),
                forall|i: int|
                    0 <= i < values@.len() ==> (#[trigger] values@[i])@ == scalar_of(
                        all[i],
                        **item,
                    ),
            ensures
                values@.len() == all.len(),
            decreases all.len() - values@.len(),
        {
            let index: usize = values.len();
            let ghost rest = gathered(*request, source, name@, index as nat);
            match request.value(source, name, index) {
                None => {
                    assert(rest =~= Seq::<Seq<char>>::empty());
                    assert(all.skip(index as int).len() == 0);
                    break;
                },
                Some(value) => {
                    proof {
                        if index >= request.most() {
                            request.values_end(source, name@, index as nat);
                        }
                        assert(rest[0] == value@);
                        assert(all.skip(index as int)[0] == all[index as int]);
                        assert(all.skip(index + 1) =~= rest.skip(1));
                        assert(rest.skip(1) =~= gathered(
                            *request,
                            source,
                            name@,
                            (index + 1) as nat,
                        ));
                    }
                    values.push(raw_scalar_value(value.as_str(), item));
                },
            }
        }
        if values.len() == 0 {
            return None;
        }
        proof {
            assert(values@.map_values(|value: JsonValue| crate::json::json_view(value))
                =~= all.map_values(|value: Seq<char>| scalar_of(value, **item)));
        }
        return Some(JsonValue::list(values));
    }
    match request.value(source, name, 0) {
        Some(value) => Some(raw_scalar_value(value.as_str(), &descriptor.schema)),
        None => None,
    }
}

/// The aliases among rules, in order.
pub open spec fn aliases(rules: Seq<RuleView>) -> Seq<Seq<char>>
    decreases rules.len(),
{
    if rules.len() == 0 {
        Seq::empty()
    } else {
        let before = aliases(rules.drop_last());
        match rules.last() {
            RuleView::Alias(alias) => before.push(alias),
            _ => before,
        }
    }
}

/// The names under which a field can be given: its own, then its aliases.
pub open spec fn input_names(field: FieldView) -> Seq<Seq<char>> {
    seq![field.name] + aliases(field.validation)
}

/// The names under which a field can be given.
pub fn field_input_names(field: &FieldDescriptor) -> (names: Vec<String>)
    ensures
        texts(names@) == input_names(field@),
{
    let mut names: Vec<String> = vec![field.name.clone()];
    let ghost rules = field@.validation;
    let mut index: usize = 0;
    assert(texts(names@) =~= seq![field@.name] + aliases(rules.take(0)));
    while index < field.validation.len()
        invariant
            index <= field.validation@.len(),
            rules == field@.validation,
            rules.len() == field.validation@.len(),
            texts(names@) == seq![field@.name] + aliases(
                rules.take(index as int),
            ),
        decreases field.validation@.len() - index,
    {
        let rule = &field.validation[index];
        proof {
            assert(rules[index as int] == rule@);
            assert(rules.take(index + 1).drop_last() =~= rules.take(index as int));
            assert(rules.take(index + 1).last() == rule@);
        }
        let ghost before = names@;
        if let ValidationRule::Alias(alias) = rule {
            names.push(alias.clone());
            assert(texts(names@) =~= texts(before).push(
                alias@,
            ));
            assert(texts(names@) =~= seq![field@.name] + aliases(
                rules.take(index + 1),
            ));
        }
        index += 1;
    }
    assert(rules.take(field.validation@.len() as int) =~= rules);
    names
}

/// The first name under which a field is given, with its value.
pub open spec fn first_given<R: HttpRequestParts>(
    request: R,
    source: InputSource,
    names: Seq<Seq<char>>,
    ty: TypeView,
    at: int,
) -> Option<(Seq<char>, JsonView)>
    decreases names.len() - at,
{
    if at < 0 || at >= names.len() {
        None
    } else {
        match typed_value(request, source, names[at], ty) {
            Some(value) => Some((names[at], value)),
            None => first_given(request, source, names, ty, at + 1),
        }
    }
}

fn raw_field_value<R: HttpRequestParts>(
    request: &R,
    source: InputSource,
    field: &FieldDescriptor,
) -> (given: Option<(String, JsonValue)>)
    ensures
        match given {
            Some((name, value)) => first_given(
                *request,
                source,
                input_names(field@),
                field@.ty,
                0,
            ) == Some((name@, value@)),
            None => first_given(*request, source, input_names(field@), field@.ty, 0) is None,
        },
{
    let names = field_input_names(field);
    let ghost views = input_names(field@);
    let mut at: usize = 0;
    while at < names.len()
        invariant
            at <= names@.len(),
            views == input_names(field@),
            texts(names@) == views,
            first_given(*request, source, views, field@.ty, 0) == first_given(
                *request,
                source,
                views,
                field@.ty,
                at as int,
            ),
        decreases names@.len() - at,
    {
        assert(views[at as int] == names@[at as int]@);
        match raw_typed_value(request, source, names[at].as_str(), &field.ty) {
            Some(value) => {
                return Some((names[at].clone(), value));
            },
            None => {},
        }
        at += 1;
    }
    None
}

/// The members of a model that a request gives, over its first so many fields.
pub open spec fn given_fields<R: HttpRequestParts>(
    request: R,
    source: InputSource,
    fields: Seq<FieldView>,
    count: int,
) -> Map<Seq<char>, JsonView>
    decreases count,
{
    if count <= 0 {
        Map::empty()
    } else {
        let before = given_fields(request, source, fields, count - 1);
        let field = fields[count - 1];
        match first_given(request, source, input_names(field), field.ty, 0) {
            Some((name, value)) => before.insert(name, value),
            None => before,
        }
    }
}

/// The value that a request gives to an argument, or its rejection.
pub open spec fn raw_argument<R: HttpRequestParts>(
    request: R,
    name: Seq<char>,
    source: InputSource,
    required: bool,
    ty: TypeView,
) -> Result<JsonView, RejectionView> {
    match ty.model {
        Some(model) => {
            let given = given_fields(request, source, model.fields, model.fields.len() as int);
            if given == Map::<Seq<char>, JsonView>::empty() && !required {
                Ok(JsonView::Null)
            } else {
                Ok(JsonView::Object(given))
            }
        },
        None => match typed_value(request, source, name, ty) {
            Some(value) => Ok(value),
            None => if required {
                Err(missing(name, source))
            } else {
                Ok(JsonView::Null)
            },
        },
    }
}

/// The value that a request gives to an argument.
pub fn raw_argument_value<R: HttpRequestParts>(
    request: &R,
    name: &str,
    source: InputSource,
    required: bool,
    descriptor: &TypeDescriptor,
) -> (value: Result<JsonValue, InputRejection>)
    ensures
        match value {
            Ok(value) => raw_argument(*request, name@, source, required, descriptor@) == Ok::<
                JsonView,
                RejectionView,
            >(value@),
            Err(rejection) => raw_argument(*request, name@, source, required, descriptor@) == Err::<
                JsonView,
                RejectionView,
            >(rejection@),
        },
{
    if let Some(model) = &descriptor.model {
        let ghost fields = descriptor@.model->Some_0.fields;
        let mut properties = JsonValue::object();
        let mut any = false;
        let mut index: usize = 0;
        while index < model.fields.len()
            invariant
                index <= model.fields@.len(),
                descriptor.model == Some(*model),
                fields == model_view(**model).fields,
                properties@ == JsonView::Object(
                    given_fields(*request, source, fields, index as int),
                ),
                any == (given_fields(*request, source, fields, index as int)
                    != Map::<Seq<char>, JsonView>::empty()),
            decreases model.fields@.len() - index,
        {
            assert(fields[index as int] == field_view(model.fields@[index as int]));
            let ghost before = given_fields(*request, source, fields, index as int);
            match raw_field_value(request, source, &model.fields[index]) {
                Some((field_name, value)) => {
                    properties.set(field_name.as_str(), value);
                    any = true;
                    proof {
                        let after = before.insert(field_name@, value@);
                        assert(after.contains_key(field_name@));
                        assert(after != Map::<Seq<char>, JsonView>::empty());
                        assert(members(JsonView::Object(before)) == before);
                    }
                },
                None => {},
            }
            index += 1;
        }
        if !any && !required {
            return Ok(JsonValue::Null);
        }
        return Ok(properties);
    }
    match raw_typed_value(request, source, name, descriptor) {
        Some(value) => Ok(value),
        None => if required {
            Err(missing_input(name, source))
        } else {
            Ok(JsonValue::Null)
        },
    }
}

// ---------------------------------------------------------------------------
// A routed request
// ---------------------------------------------------------------------------

/// A request together with the route that it took.
pub struct RoutedRequestParts<'request, 'router, A> {
    pub route: &'request RouteMatch<'router>,
    pub request: &'request Request<A>,
}

/// The values of the headers with a name, in order.
pub open spec fn values_named(headers: Seq<HeaderView>, name: Seq<char>) -> Seq<Seq<char>>
    decreases headers.len(),
{
    if headers.len() == 0 {
        Seq::empty()
    } else {
        let before = values_named(headers.drop_last(), name);
        if headers.last().name == header_of_argument(name) {
            before.push(headers.last().value)
        } else {
            before
        }
    }
}

/// The cookies of a request.
pub open spec fn request_cookies(headers: Seq<HeaderView>) -> Seq<Seq<char>> {
    cookies_of(values_named(headers, "cookie"@))
}

fn cookie_headers<A>(request: &Request<A>) -> (values: Vec<String>)
    ensures
        texts(values@) == values_named(headers_view(request.headers@), "cookie"@),
{
    let mut values: Vec<String> = Vec::new();
    let ghost views = headers_view(request.headers@);
    let mut index: usize = 0;
    assert(texts(values@) =~= values_named(views.take(0), "cookie"@));
    while index < request.headers.len()
        invariant
            index <= request.headers@.len(),
            views == headers_view(request.headers@),
            texts(values@) == values_named(views.take(index as int), "cookie"@),
        decreases request.headers@.len() - index,
    {
        let header = &request.headers[index];
        let ghost before = values@;
        proof {
            assert(views[index as int] == header@);
            assert(views.take(index + 1).drop_last() =~= views.take(index as int));
            assert(views.take(index + 1).last() == header@);
        }
        if header_name_matches(header.name.as_str(), "cookie") {
            values.push(header.value.clone());
            assert(texts(values@) =~= texts(before).push(header@.value));
        }
        index += 1;
    }
    assert(views.take(request.headers@.len() as int) =~= views);
    values
}

proof fn lemma_values_end(pairs: Seq<Seq<char>>, name: Seq<char>, index: nat)
    requires
        index >= pairs.len(),
    ensures
        nth_value(pairs, name, index) is None,
    decreases pairs.len(),
{
    if pairs.len() > 0 {
        lemma_values_end(pairs.drop_first(), name, index);
        if index > 0 {
            lemma_values_end(pairs.drop_first(), name, (index - 1) as nat);
        }
    }
}

proof fn lemma_headers_end(headers: Seq<HeaderView>, name: Seq<char>, index: nat)
    requires
        index >= headers.len(),
    ensures
        nth_header(headers, name, index) is None,
    decreases headers.len(),
{
    if headers.len() > 0 {
        lemma_headers_end(headers.drop_first(), name, index);
        if index > 0 {
            lemma_headers_end(headers.drop_first(), name, (index - 1) as nat);
        }
    }
}

proof fn lemma_cookies_end(cookies: Seq<Seq<char>>, name: Seq<char>, index: nat)
    requires
        index >= cookies.len(),
    ensures
        nth_cookie(cookies, name, index) is None,
    decreases cookies.len(),
{
    if cookies.len() > 0 {
        lemma_cookies_end(cookies.drop_first(), name, index);
        if index > 0 {
            lemma_cookies_end(cookies.drop_first(), name, (index - 1) as nat);
        }
    }
}

/// The pairs of a query, if there is one.
pub open spec fn query_pairs(target: Seq<char>) -> Seq<Seq<char>> {
    match query_of(target) {
        Some(query) => split_spec(query, '&'),
        None => Seq::empty(),
    }
}

/// The pairs of a form body, if it is a text.
pub open spec fn form_pairs(body: Seq<u8>) -> Seq<Seq<char>> {
    match text_of(body) {
        Some(text) => split_spec(text, '&'),
        None => Seq::empty(),
    }
}

impl<'request, 'router, A> HttpRequestParts for RoutedRequestParts<'request, 'router, A> {
    open spec fn raw(&self, source: InputSource, name: Seq<char>, index: nat) -> Option<Seq<char>> {
        match source {
            InputSource::Path => if index == 0 {
                parameter_value(self.route@, name)
            } else {
                None
            },
            InputSource::Query => query_value_spec(self.request.target@, name, index),
            InputSource::Header => nth_header(headers_view(self.request.headers@), name, index),
            InputSource::Cookie => nth_cookie(
                request_cookies(headers_view(self.request.headers@)),
                name,
                index,
            ),
            InputSource::Form => form_value_spec(self.request.body@, name, index),
            _ => None,
        }
    }

    open spec fn content(&self) -> Seq<u8> {
        self.request.body@
    }

    open spec fn most(&self) -> nat {
        1 + query_pairs(self.request.target@).len() + self.request.headers@.len()
            + request_cookies(headers_view(self.request.headers@)).len() + form_pairs(
            self.request.body@,
        ).len()
    }

    proof fn values_end(&self, source: InputSource, name: Seq<char>, index: nat) {
        lemma_values_end(query_pairs(self.request.target@), name, index);
        lemma_headers_end(headers_view(self.request.headers@), name, index);
        lemma_cookies_end(request_cookies(headers_view(self.request.headers@)), name, index);
        lemma_values_end(form_pairs(self.request.body@), name, index);
    }

    fn value(&self, source: InputSource, name: &str, index: usize) -> (value: Option<String>) {
        match source {
            InputSource::Path => if index == 0 {
                self.route.path_parameter(name)
            } else {
                None
            },
            InputSource::Query => query_value(self.request.target.as_str(), name, index),
            InputSource::Header => match self.request.header_value(name, index) {
                Some(value) => Some(value.to_owned()),
                None => None,
            },
            InputSource::Cookie => cookie_value(&cookie_headers(self.request), name, index),
            InputSource::Form => form_value(self.request.body_bytes(), name, index),
            _ => None,
        }
    }

    fn body(&self) -> (body: &[u8]) {
        self.request.body_bytes()
    }
}

// ---------------------------------------------------------------------------
// Arguments out of a structured document
// ---------------------------------------------------------------------------

/// The first name under which a document gives a field, with its value.
pub open spec fn first_member(
    arguments: Map<Seq<char>, JsonView>,
    names: Seq<Seq<char>>,
    at: int,
) -> Option<(Seq<char>, JsonView)>
    decreases names.len() - at,
{
    if at < 0 || at >= names.len() {
        None
    } else if arguments.contains_key(names[at]) {
        Some((names[at], arguments[names[at]]))
    } else {
        first_member(arguments, names, at + 1)
    }
}

/// The members of a model that a document gives, over its first so many fields.
pub open spec fn selected_fields(
    arguments: Map<Seq<char>, JsonView>,
    fields: Seq<FieldView>,
    count: int,
) -> Map<Seq<char>, JsonView>
    decreases count,
{
    if count <= 0 {
        Map::empty()
    } else {
        let before = selected_fields(arguments, fields, count - 1);
        match first_member(arguments, input_names(fields[count - 1]), 0) {
            Some((name, value)) => before.insert(name, value),
            None => before,
        }
    }
}

/// What a document gives to an argument that is a model: the member with its
/// name where that is an object, and otherwise the members that the model has.
pub open spec fn selected(arguments: JsonView, name: Seq<char>, fields: Seq<FieldView>) -> JsonView {
    match arguments {
        JsonView::Object(given) => if given.contains_key(name) && given[name] is Object {
            given[name]
        } else {
            JsonView::Object(selected_fields(given, fields, fields.len() as int))
        },
        _ => arguments,
    }
}

/// The value that a document gives to an argument, or its rejection.
pub open spec fn structured_argument(
    arguments: JsonView,
    name: Seq<char>,
    source: InputSource,
    required: bool,
    ty: TypeView,
) -> Result<JsonView, RejectionView> {
    match ty.model {
        Some(model) => {
            let value = selected(arguments, name, model.fields);
            if value == JsonView::Object(Map::empty()) && !required {
                Ok(JsonView::Null)
            } else {
                Ok(value)
            }
        },
        None => match member(arguments, name) {
            Some(value) => Ok(value),
            None => if required {
                Err(missing(name, source))
            } else {
                Ok(JsonView::Null)
            },
        },
    }
}

fn first_given_member(arguments: &JsonValue, field: &FieldDescriptor) -> (given: Option<
    (String, JsonValue),
>)
    ensures
        match given {
            Some((name, value)) => first_member(
                members(arguments@),
                input_names(field@),
                0,
            ) == Some((name@, value@)),
            None => first_member(members(arguments@), input_names(field@), 0) is None,
        },
{
    let names = field_input_names(field);
    let ghost views = input_names(field@);
    let mut at: usize = 0;
    while at < names.len()
        invariant
            at <= names@.len(),
            views == input_names(field@),
            texts(names@) == views,
            first_member(members(arguments@), views, 0) == first_member(
                members(arguments@),
                views,
                at as int,
            ),
        decreases names@.len() - at,
    {
        assert(views[at as int] == names@[at as int]@);
        match arguments.get(names[at].as_str()) {
            Some(value) => {
                return Some((names[at].clone(), value.clone()));
            },
            None => {},
        }
        at += 1;
    }
    None
}

/// The value that a document gives to an argument.
pub fn structured_argument_value(
    arguments: &JsonValue,
    name: &str,
    source: InputSource,
    required: bool,
    descriptor: &TypeDescriptor,
) -> (value: Result<JsonValue, InputRejection>)
    ensures
        match value {
            Ok(value) => structured_argument(
                arguments@,
                name@,
                source,
                required,
                descriptor@,
            ) == Ok::<JsonView, RejectionView>(value@),
            Err(rejection) => structured_argument(
                arguments@,
                name@,
                source,
                required,
                descriptor@,
            ) == Err::<JsonView, RejectionView>(rejection@),
        },
{
    if let Some(model) = &descriptor.model {
        let ghost fields = descriptor@.model->Some_0.fields;
        if !arguments.is_object() {
            return Ok(arguments.clone());
        }
        let ghost given = members(arguments@);
        assert(arguments@ == JsonView::Object(given));
        if let Some(nested) = arguments.get(name) {
            if nested.is_object() {
                if !required && nested.is_empty_object() {
                    return Ok(JsonValue::Null);
                }
                return Ok(nested.clone());
            }
        }
        let mut properties = JsonValue::object();
        let mut any = false;
        let mut index: usize = 0;
        while index < model.fields.len()
            invariant
                index <= model.fields@.len(),
                descriptor.model == Some(*model),
                fields == model_view(**model).fields,
                given == members(arguments@),
                properties@ == JsonView::Object(selected_fields(given, fields, index as int)),
                any == (selected_fields(given, fields, index as int) != Map::<
                    Seq<char>,
                    JsonView,
                >::empty()),
            decreases model.fields@.len() - index,
        {
            assert(fields[index as int] == field_view(model.fields@[index as int]));
            let ghost before = selected_fields(given, fields, index as int);
            match first_given_member(arguments, &model.fields[index]) {
                Some((field_name, value)) => {
                    properties.set(field_name.as_str(), value);
                    any = true;
                    proof {
                        let after = before.insert(field_name@, value@);
                        assert(after.contains_key(field_name@));
                        assert(after != Map::<Seq<char>, JsonView>::empty());
                        assert(members(JsonView::Object(before)) == before);
                    }
                },
                None => {},
            }
            index += 1;
        }
        if !any && !required {
            return Ok(JsonValue::Null);
        }
        return Ok(properties);
    }
    match arguments.get(name) {
        Some(value) => Ok(value.clone()),
        None => if required {
            Err(missing_input(name, source))
        } else {
            Ok(JsonValue::Null)
        },
    }
}

/// What an invocation gives to an argument, ready to be decoded: the bytes of a
/// JSON body, or a value.
#[derive(Debug)]
pub enum Argument<'input> {
    Body(&'input [u8]),
    Value(JsonValue),
}

/// What an argument says.
pub enum ArgumentView {
    Body(Seq<u8>),
    Value(JsonView),
}

impl<'input> View for Argument<'input> {
    type V = ArgumentView;

    open spec fn view(&self) -> ArgumentView {
        match self {
            Argument::Body(bytes) => ArgumentView::Body(bytes@),
            Argument::Value(value) => ArgumentView::Value(value@),
        }
    }
}

/// A value that was found, as an argument.
pub open spec fn as_argument(found: Result<JsonView, RejectionView>) -> Result<
    ArgumentView,
    RejectionView,
> {
    match found {
        Ok(value) => Ok(ArgumentView::Value(value)),
        Err(rejection) => Err(rejection),
    }
}

/// What an invocation gives to an argument, or its rejection. The JSON body of
/// an HTTP request is decoded from its bytes, whatever the descriptor says.
pub open spec fn argument_of<R: HttpRequestParts>(
    input: InvocationInput<R>,
    name: Seq<char>,
    source: InputSource,
    required: bool,
    ty: TypeView,
) -> Result<ArgumentView, RejectionView> {
    match input {
        InvocationInput::Http(request) => if source == InputSource::Json {
            Ok(ArgumentView::Body(request.content()))
        } else {
            as_argument(raw_argument(*request, name, source, required, ty))
        },
        InvocationInput::Arguments(arguments) => as_argument(
            structured_argument(arguments@, name, source, required, ty),
        ),
    }
}

/// What an invocation gives to an argument, ready to be decoded.
pub fn extract_argument<'input, R: HttpRequestParts>(
    input: &InvocationInput<'input, R>,
    name: &str,
    source: InputSource,
    required: bool,
    descriptor: &TypeDescriptor,
) -> (argument: Result<Argument<'input>, InputRejection>)
    ensures
        match argument {
            Ok(argument) => argument_of(*input, name@, source, required, descriptor@) == Ok::<
                ArgumentView,
                RejectionView,
            >(argument@),
            Err(rejection) => argument_of(*input, name@, source, required, descriptor@) == Err::<
                ArgumentView,
                RejectionView,
            >(rejection@),
        },
{
    let found = match input {
        InvocationInput::Http(request) => {
            if source == InputSource::Json {
                return Ok(Argument::Body(request.body()));
            }
            raw_argument_value(*request, name, source, required, descriptor)
        },
        InvocationInput::Arguments(arguments) => structured_argument_value(
            arguments,
            name,
            source,
            required,
            descriptor,
        ),
    };
    match found {
        Ok(value) => Ok(Argument::Value(value)),
        Err(rejection) => Err(rejection),
    }
}

// ---------------------------------------------------------------------------
// What arguments are
// ---------------------------------------------------------------------------

/// A text that spells out a JSON value stands for that value wherever something
/// other than a text is expected, and for itself where a text is. A text that
/// spells out none stands for itself.
pub proof fn law_scalars_are_what_they_spell(text: Seq<char>, kind: SchemaKind)
    ensures
        parsed_json(text) matches Some(value) ==> (kind is Integer || kind is Number
            || kind is Boolean || kind is Object || kind is Any) ==> scalar_of(text, kind) == value,
        kind is String || kind is Binary ==> scalar_of(text, kind) == JsonView::Text(text),
        parsed_json(text) is None ==> scalar_of(text, kind) == JsonView::Text(text),
{
}

/// The first value under the name of a plain argument is the argument: read as
/// JSON for a number, an integer, a flag or any value, and as it stands for a
/// text. Where the request has none, a required argument is reported as missing
/// under its name and source, and an optional one is null.
pub proof fn law_plain_arguments_are_read<R: HttpRequestParts>(
    request: &R,
    name: Seq<char>,
    source: InputSource,
    required: bool,
    ty: TypeView,
)
    requires
        ty.model is None,
        !(ty.schema is Array),
        source != InputSource::Json,
    ensures
        ({
            let argument = argument_of(
                InvocationInput::Http(request),
                name,
                source,
                required,
                ty,
            );
            match request.raw(source, name, 0) {
                Some(text) => {
                    &&& ty.schema is String || ty.schema is Binary ==> argument == Ok::<
                        ArgumentView,
                        RejectionView,
                    >(ArgumentView::Value(JsonView::Text(text)))
                    &&& !(ty.schema is String || ty.schema is Binary) ==> (match parsed_json(text) {
                        Some(value) => argument == Ok::<ArgumentView, RejectionView>(
                            ArgumentView::Value(value),
                        ),
                        None => argument == Ok::<ArgumentView, RejectionView>(
                            ArgumentView::Value(JsonView::Text(text)),
                        ),
                    })
                },
                None => if required {
                    argument matches Err(rejection) && rejection == missing(name, source)
                } else {
                    argument == Ok::<ArgumentView, RejectionView>(
                        ArgumentView::Value(JsonView::Null),
                    )
                },
            }
        }),
{
}

/// Each part of a request answers for its own sources: paths come from the route,
/// queries from the target, headers and cookies from the headers, and forms from
/// the body. Two requests that agree on a part give the same values there,
/// whatever else they hold, and the other sources have no text values.
pub proof fn law_sources_are_read_where_they_stand<'q, 'r, A>(
    left: RoutedRequestParts<'q, 'r, A>,
    right: RoutedRequestParts<'q, 'r, A>,
    name: Seq<char>,
    index: nat,
)
    ensures
        left.route@ == right.route@ ==> left.raw(InputSource::Path, name, index) == right.raw(
            InputSource::Path,
            name,
            index,
        ),
        left.request.target@ == right.request.target@ ==> left.raw(InputSource::Query, name, index)
            == right.raw(InputSource::Query, name, index),
        headers_view(left.request.headers@) == headers_view(right.request.headers@) ==> left.raw(
            InputSource::Header,
            name,
            index,
        ) == right.raw(InputSource::Header, name, index) && left.raw(
            InputSource::Cookie,
            name,
            index,
        ) == right.raw(InputSource::Cookie, name, index),
        left.request.body@ == right.request.body@ ==> left.raw(InputSource::Form, name, index)
            == right.raw(InputSource::Form, name, index) && left.content() == right.content(),
        left.raw(InputSource::Json, name, index) is None,
        left.raw(InputSource::Multipart, name, index) is None,
        left.raw(InputSource::File, name, index) is None,
        left.raw(InputSource::Stream, name, index) is None,
{
}

/// A value is read from a part of the request that the source names: a path
/// parameter from the captures of the route, a query value from the query, a form
/// value from the body, and a header under the name that the argument stands for.
pub proof fn law_request_values_are_those_of_the_request<'q, 'r, A>(
    parts: RoutedRequestParts<'q, 'r, A>,
    name: Seq<char>,
    index: nat,
)
    ensures
        parts.raw(InputSource::Query, name, index) == query_value_spec(
            parts.request.target@,
            name,
            index,
        ),
        parts.raw(InputSource::Form, name, index) == form_value_spec(
            parts.request.body@,
            name,
            index,
        ),
        parts.raw(InputSource::Path, name, 0) == parameter_value(parts.route@, name),
        index > 0 ==> parts.raw(InputSource::Path, name, index) is None,
        parts.raw(InputSource::Header, name, 0) matches Some(value) ==> exists|i: int|
            0 <= i < parts.request.headers@.len() && (#[trigger] headers_view(
                parts.request.headers@,
            )[i]) == (HeaderView { name: header_of_argument(name), value }),
        parts.raw(InputSource::Header, name, 0) is None ==> forall|i: int|
            0 <= i < parts.request.headers@.len() ==> (#[trigger] headers_view(
                parts.request.headers@,
            )[i]).name != header_of_argument(name),
{
    lemma_first_header(headers_view(parts.request.headers@), name);
}

proof fn lemma_first_header(headers: Seq<HeaderView>, name: Seq<char>)
    ensures
        match nth_header(headers, name, 0) {
            Some(value) => exists|i: int|
                0 <= i < headers.len() && (#[trigger] headers[i]) == (HeaderView {
                    name: header_of_argument(name),
                    value,
                }),
            None => forall|i: int|
                0 <= i < headers.len() ==> (#[trigger] headers[i]).name != header_of_argument(name),
        },
    decreases headers.len(),
{
    if headers.len() > 0 {
        if headers[0].name == header_of_argument(name) {
            assert(headers[0] == (HeaderView {
                name: header_of_argument(name),
                value: headers[0].value,
            }));
        } else {
            let rest = headers.drop_first();
            lemma_first_header(rest, name);
            match nth_header(rest, name, 0) {
                Some(value) => {
                    let i = choose|i: int|
                        0 <= i < rest.len() && (#[trigger] rest[i]) == (HeaderView {
                            name: header_of_argument(name),
                            value,
                        });
                    assert(headers[i + 1] == rest[i]);
                },
                None => {
                    assert forall|i: int| 0 <= i < headers.len() implies (
                    #[trigger] headers[i]).name != header_of_argument(name) by {
                        if i > 0 {
                            assert(rest[i - 1].name != header_of_argument(name));
                        }
                    }
                },
            }
        }
    }
}

proof fn lemma_gathered<R: HttpRequestParts>(
    request: &R,
    source: InputSource,
    name: Seq<char>,
    from: nat,
    end: nat,
)
    requires
        from <= end,
        forall|k: nat| from <= k < end ==> (#[trigger] request.raw(source, name, k)) is Some,
        request.raw(source, name, end) is None,
    ensures
        gathered(*request, source, name, from).len() == end - from,
        forall|k: nat|
            from <= k < end ==> Some(gathered(*request, source, name, from)[k - from])
                == #[trigger] request.raw(source, name, k),
    decreases end - from,
{
    let all = gathered(*request, source, name, from);
    if from < end {
        if from >= request.most() {
            request.values_end(source, name, from);
        }
        assert(request.raw(source, name, from) is Some);
        lemma_gathered(request, source, name, from + 1, end);
        let rest = gathered(*request, source, name, from + 1);
        assert(all == seq![request.raw(source, name, from)->Some_0] + rest);
        assert forall|k: nat| from <= k < end implies Some(all[k - from]) == #[trigger] request.raw(
            source,
            name,
            k,
        ) by {
            if k > from {
                assert(all[k - from] == rest[k - (from + 1)]);
            }
        }
    }
}

/// A repeated argument is the list of all its values, in order, each read for the
/// kind of the items. Without values it is missing where it is required, and null
/// otherwise.
pub proof fn law_repeated_arguments_are_listed<R: HttpRequestParts>(
    request: &R,
    name: Seq<char>,
    source: InputSource,
    required: bool,
    ty: TypeView,
    count: nat,
)
    requires
        ty.model is None,
        ty.schema is Array,
        source != InputSource::Json,
        forall|k: nat| k < count ==> (#[trigger] request.raw(source, name, k)) is Some,
        request.raw(source, name, count) is None,
    ensures
        ({
            let argument = argument_of(InvocationInput::Http(request), name, source, required, ty);
            let item = *ty.schema->Array_0;
            &&& count > 0 ==> (argument matches Ok(ArgumentView::Value(JsonView::List(values)))
                && values.len() == count && forall|k: nat|
                k < count ==> {
                    let text = (#[trigger] request.raw(source, name, k))->Some_0;
                    &&& item is String || item is Binary ==> values[k as int] == JsonView::Text(text)
                    &&& item is Integer || item is Number || item is Boolean || item is Object
                        || item is Any ==> values[k as int] == (match parsed_json(text) {
                        Some(value) => value,
                        None => JsonView::Text(text),
                    })
                })
            &&& count == 0 && required ==> argument == Err::<ArgumentView, RejectionView>(
                missing(name, source),
            )
            &&& count == 0 && !required ==> argument == Ok::<ArgumentView, RejectionView>(
                ArgumentView::Value(JsonView::Null),
            )
        }),
{
    lemma_gathered(request, source, name, 0, count);
    let item = *ty.schema->Array_0;
    let all = gathered(*request, source, name, 0);
    let values = all.map_values(|value: Seq<char>| scalar_of(value, item));
    assert forall|k: nat| k < count implies values[k as int] == scalar_of(
        (#[trigger] request.raw(source, name, k))->Some_0,
        item,
    ) by {
        assert(Some(all[k - 0]) == request.raw(source, name, k));
    }
}

/// The aliases of a field are those that its rules declare, and nothing else; the
/// field can be given under its own name first.
pub proof fn law_fields_go_by_their_names(field: FieldView, name: Seq<char>)
    ensures
        input_names(field)[0] == field.name,
        input_names(field).contains(name) <==> name == field.name || field.validation.contains(
            RuleView::Alias(name),
        ),
{
    let names = input_names(field);
    lemma_aliases(field.validation, name);
    assert(names[0] == field.name);
    if aliases(field.validation).contains(name) {
        let i = choose|i: int|
            0 <= i < aliases(field.validation).len() && aliases(field.validation)[i] == name;
        assert(names[i + 1] == name);
    }
    if names.contains(name) {
        let i = choose|i: int| 0 <= i < names.len() && names[i] == name;
        if i > 0 {
            assert(aliases(field.validation)[i - 1] == name);
        }
    }
}

proof fn lemma_aliases(rules: Seq<RuleView>, name: Seq<char>)
    ensures
        aliases(rules).contains(name) <==> rules.contains(RuleView::Alias(name)),
    decreases rules.len(),
{
    if rules.len() > 0 {
        let head = rules.drop_last();
        let before = aliases(head);
        let all = aliases(rules);
        lemma_aliases(head, name);
        if before.contains(name) {
            let i = choose|i: int| 0 <= i < before.len() && before[i] == name;
            assert(all[i] == name);
            let j = choose|j: int| 0 <= j < head.len() && head[j] == RuleView::Alias(name);
            assert(rules[j] == RuleView::Alias(name));
        }
        if rules.last() == RuleView::Alias(name) {
            assert(all[all.len() - 1] == name);
            assert(rules[rules.len() - 1] == RuleView::Alias(name));
        }
        if all.contains(name) {
            let i = choose|i: int| 0 <= i < all.len() && all[i] == name;
            if i < before.len() {
                assert(before[i] == name);
            }
        }
        if rules.contains(RuleView::Alias(name)) {
            let j = choose|j: int| 0 <= j < rules.len() && rules[j] == RuleView::Alias(name);
            if j < head.len() {
                assert(head[j] == RuleView::Alias(name));
            }
        }
    }
}

proof fn lemma_first_given<R: HttpRequestParts>(
    request: R,
    source: InputSource,
    names: Seq<Seq<char>>,
    ty: TypeView,
    at: int,
)
    requires
        0 <= at <= names.len(),
    ensures
        match first_given(request, source, names, ty, at) {
            Some((name, value)) => exists|k: int|
                at <= k < names.len() && #[trigger] names[k] == name && typed_value(
                    request,
                    source,
                    name,
                    ty,
                ) == Some(value) && forall|j: int|
                    at <= j < k ==> typed_value(request, source, #[trigger] names[j], ty) is None,
            None => forall|j: int|
                at <= j < names.len() ==> typed_value(request, source, #[trigger] names[j], ty) is None,
        },
    decreases names.len() - at,
{
    if at < names.len() {
        if typed_value(request, source, names[at], ty) is None {
            lemma_first_given(request, source, names, ty, at + 1);
            match first_given(request, source, names, ty, at + 1) {
                Some((name, value)) => {
                    let k = choose|k: int|
                        at + 1 <= k < names.len() && #[trigger] names[k] == name && typed_value(
                            request,
                            source,
                            name,
                            ty,
                        ) == Some(value) && forall|j: int|
                            at + 1 <= j < k ==> typed_value(
                                request,
                                source,
                                #[trigger] names[j],
                                ty,
                            ) is None;
                    assert(names[k] == name);
                },
                None => {},
            }
        } else {
            assert(names[at] == names[at]);
        }
    }
}

/// A model is gathered from the values that the request gives to its fields: every
/// member stands under a name of some field with the value given there, a field
/// that is given under its own name is a member under it, and one that is given
/// under no name is not. A model without members is null where it is optional.
pub proof fn law_models_are_gathered_from_their_fields<R: HttpRequestParts>(
    request: &R,
    name: Seq<char>,
    source: InputSource,
    required: bool,
    ty: TypeView,
)
    requires
        ty.model is Some,
        source != InputSource::Json,
    ensures
        ({
            let fields = ty.model->Some_0.fields;
            let argument = argument_of(InvocationInput::Http(request), name, source, required, ty);
            let given = |field: FieldView| typed_value(*request, source, field.name, field.ty);
            match argument {
                Ok(ArgumentView::Value(JsonView::Object(members))) => {
                    &&& forall|key: Seq<char>| #[trigger]
                        members.contains_key(key) ==> exists|i: int|
                            0 <= i < fields.len() && given_under(
                                request,
                                source,
                                #[trigger] fields[i],
                                key,
                                members[key],
                            )
                    &&& forall|i: int|
                        0 <= i < fields.len() && given(#[trigger] fields[i]) is Some
                            ==> members.contains_key(fields[i].name)
                },
                Ok(ArgumentView::Value(JsonView::Null)) => !required && forall|i: int|
                    0 <= i < fields.len() ==> given(#[trigger] fields[i]) is None,
                _ => false,
            }
        }),
{
    let fields = ty.model->Some_0.fields;
    lemma_given_fields(request, source, fields, fields.len() as int);
}

/// A request gives a value to a field under one of its names.
pub open spec fn given_under<R: HttpRequestParts>(
    request: &R,
    source: InputSource,
    field: FieldView,
    key: Seq<char>,
    value: JsonView,
) -> bool {
    &&& key == field.name || field.validation.contains(RuleView::Alias(key))
    &&& typed_value(*request, source, key, field.ty) == Some(value)
}

proof fn lemma_given_fields<R: HttpRequestParts>(
    request: &R,
    source: InputSource,
    fields: Seq<FieldView>,
    count: int,
)
    requires
        0 <= count <= fields.len(),
    ensures
        ({
            let members = given_fields(*request, source, fields, count);
            &&& forall|key: Seq<char>| #[trigger]
                members.contains_key(key) ==> exists|i: int|
                    0 <= i < count && given_under(
                        request,
                        source,
                        #[trigger] fields[i],
                        key,
                        members[key],
                    )
            &&& forall|i: int|
                0 <= i < count && typed_value(
                    *request,
                    source,
                    (#[trigger] fields[i]).name,
                    fields[i].ty,
                ) is Some ==> members.contains_key(fields[i].name)
        }),
    decreases count,
{
    if count > 0 {
        let before = given_fields(*request, source, fields, count - 1);
        let members = given_fields(*request, source, fields, count);
        let field = fields[count - 1];
        let names = input_names(field);
        lemma_given_fields(request, source, fields, count - 1);
        lemma_first_given(*request, source, names, field.ty, 0);
        assert(names[0] == field.name);
        match first_given(*request, source, names, field.ty, 0) {
            Some((name, value)) => {
                let k = choose|k: int|
                    0 <= k < names.len() && #[trigger] names[k] == name && typed_value(
                        *request,
                        source,
                        name,
                        field.ty,
                    ) == Some(value) && forall|j: int|
                        0 <= j < k ==> typed_value(
                            *request,
                            source,
                            #[trigger] names[j],
                            field.ty,
                        ) is None;
                law_fields_go_by_their_names(field, name);
                assert(names.contains(name));
                assert(given_under(request, source, fields[count - 1], name, value));
                if typed_value(*request, source, field.name, field.ty) is Some {
                    if k > 0 {
                        assert(typed_value(*request, source, names[0], field.ty) is None);
                    }
                    assert(name == field.name);
                }
                assert forall|key: Seq<char>| #[trigger] members.contains_key(key) implies exists|
                    i: int,
                |
                    0 <= i < count && given_under(
                        request,
                        source,
                        #[trigger] fields[i],
                        key,
                        members[key],
                    ) by {
                    if key == name {
                        assert(given_under(request, source, fields[count - 1], key, members[key]));
                    } else {
                        assert(before.contains_key(key));
                        let i = choose|i: int|
                            0 <= i < count - 1 && given_under(
                                request,
                                source,
                                #[trigger] fields[i],
                                key,
                                before[key],
                            );
                        assert(given_under(request, source, fields[i], key, members[key]));
                    }
                }
            },
            None => {
                assert(typed_value(*request, source, names[0], field.ty) is None);
                assert forall|key: Seq<char>| #[trigger] members.contains_key(key) implies exists|
                    i: int,
                |
                    0 <= i < count && given_under(
                        request,
                        source,
                        #[trigger] fields[i],
                        key,
                        members[key],
                    ) by {
                    let i = choose|i: int|
                        0 <= i < count - 1 && given_under(
                            request,
                            source,
                            #[trigger] fields[i],
                            key,
                            before[key],
                        );
                    assert(given_under(request, source, fields[i], key, members[key]));
                }
            },
        }
    }
}

/// A plain argument out of a structured document is the member under its name. A
/// document without it leaves a required argument missing, under its name and
/// source, and an optional one null. The JSON body of a request is handed on as
/// it came.
pub proof fn law_structured_arguments_are_members<R: HttpRequestParts>(
    request: &R,
    document: &JsonValue,
    members: Map<Seq<char>, JsonView>,
    name: Seq<char>,
    source: InputSource,
    required: bool,
    ty: TypeView,
)
    requires
        document@ == JsonView::Object(members),
        ty.model is None,
    ensures
        ({
            let argument = argument_of(
                InvocationInput::<R>::Arguments(document),
                name,
                source,
                required,
                ty,
            );
            &&& members.contains_key(name) ==> argument == Ok::<ArgumentView, RejectionView>(
                ArgumentView::Value(members[name]),
            )
            &&& !members.contains_key(name) && required ==> argument == Err::<
                ArgumentView,
                RejectionView,
            >(missing(name, source))
            &&& !members.contains_key(name) && !required ==> argument == Ok::<
                ArgumentView,
                RejectionView,
            >(ArgumentView::Value(JsonView::Null))
        }),
        argument_of(InvocationInput::Http(request), name, InputSource::Json, required, ty) == Ok::<
            ArgumentView,
            RejectionView,
        >(ArgumentView::Body(request.content())),
{
}

/// A model out of a structured document is the object under its name, where there
/// is one; otherwise it is made of the members that its fields have in the
/// document, under their own names first.
pub proof fn law_structured_models_are_selected(
    members: Map<Seq<char>, JsonView>,
    name: Seq<char>,
    source: InputSource,
    required: bool,
    ty: TypeView,
)
    requires
        ty.model is Some,
    ensures
        ({
            let fields = ty.model->Some_0.fields;
            let argument = structured_argument(
                JsonView::Object(members),
                name,
                source,
                required,
                ty,
            );
            &&& argument is Ok
            &&& members.contains_key(name) && members[name] is Object && (required || members[name]
                != JsonView::Object(Map::empty())) ==> argument == Ok::<JsonView, RejectionView>(
                members[name],
            )
            &&& !(members.contains_key(name) && members[name] is Object) ==> (match argument->Ok_0 {
                JsonView::Object(taken) => {
                    &&& forall|key: Seq<char>| #[trigger]
                        taken.contains_key(key) ==> members.contains_key(key) && taken[key]
                            == members[key] && exists|i: int|
                            0 <= i < fields.len() && named_by(#[trigger] fields[i], key)
                    &&& forall|i: int|
                        0 <= i < fields.len() && members.contains_key((#[trigger] fields[i]).name)
                            ==> taken.contains_key(fields[i].name)
                },
                JsonView::Null => !required && forall|i: int|
                    0 <= i < fields.len() ==> !members.contains_key((#[trigger] fields[i]).name),
                _ => false,
            })
        }),
{
    let fields = ty.model->Some_0.fields;
    lemma_selected_fields(members, fields, fields.len() as int);
}

/// A field goes by a name: its own, or one of its aliases.
pub open spec fn named_by(field: FieldView, name: Seq<char>) -> bool {
    name == field.name || field.validation.contains(RuleView::Alias(name))
}

proof fn lemma_first_member(members: Map<Seq<char>, JsonView>, names: Seq<Seq<char>>, at: int)
    requires
        0 <= at <= names.len(),
    ensures
        match first_member(members, names, at) {
            Some((name, value)) => names.contains(name) && members.contains_key(name)
                && members[name] == value,
            None => forall|j: int| at <= j < names.len() ==> !members.contains_key(#[trigger] names[j]),
        },
        at < names.len() && members.contains_key(names[at]) ==> first_member(members, names, at)
            == Some((names[at], members[names[at]])),
    decreases names.len() - at,
{
    if at < names.len() && !members.contains_key(names[at]) {
        lemma_first_member(members, names, at + 1);
    }
}

proof fn lemma_selected_fields(
    members: Map<Seq<char>, JsonView>,
    fields: Seq<FieldView>,
    count: int,
)
    requires
        0 <= count <= fields.len(),
    ensures
        ({
            let taken = selected_fields(members, fields, count);
            &&& forall|key: Seq<char>| #[trigger]
                taken.contains_key(key) ==> members.contains_key(key) && taken[key] == members[key]
                    && exists|i: int| 0 <= i < count && named_by(#[trigger] fields[i], key)
            &&& forall|i: int|
                0 <= i < count && members.contains_key((#[trigger] fields[i]).name)
                    ==> taken.contains_key(fields[i].name)
        }),
    decreases count,
{
    if count > 0 {
        let before = selected_fields(members, fields, count - 1);
        let taken = selected_fields(members, fields, count);
        let field = fields[count - 1];
        let names = input_names(field);
        lemma_selected_fields(members, fields, count - 1);
        lemma_first_member(members, names, 0);
        assert(names[0] == field.name);
        match first_member(members, names, 0) {
            Some((name, value)) => {
                law_fields_go_by_their_names(field, name);
                assert(named_by(fields[count - 1], name));
            },
            None => {
                assert(!members.contains_key(names[0]));
            },
        }
        assert forall|key: Seq<char>| #[trigger] taken.contains_key(key) implies members.contains_key(
            key,
        ) && taken[key] == members[key] && exists|i: int|
            0 <= i < count && named_by(#[trigger] fields[i], key) by {
            if before.contains_key(key) {
                let i = choose|i: int| 0 <= i < count - 1 && named_by(#[trigger] fields[i], key);
                assert(named_by(fields[i], key));
            }
        }
    }
}

/// Rejected inputs are answered with status 422, under the code of their fault, and
/// name the input and where it should have come from. The reason and the place of
/// a fault are told where they are known.
pub proof fn law_rejected_inputs_are_named(
    name: Seq<char>,
    source: InputSource,
    path: Seq<char>,
    reason: Seq<char>,
    errors: Seq<ViolationView>,
)
    ensures
        ({
            let absent = missing(name, source);
            let broken = undecodable(name, source, path, reason);
            let wrong = invalid(errors, source);
            &&& absent.status == 422 && absent.code == "missing_input"@
            &&& absent.details matches Some(told) && members(told)["name"@] == JsonView::Text(name)
                && members(told)["source"@] == JsonView::Text(source_word(source))
            &&& broken.status == 422
            &&& broken.code == if source == InputSource::Json {
                "invalid_json"@
            } else {
                "invalid_input"@
            }
            &&& broken.details matches Some(told) && members(told)["name"@] == JsonView::Text(name)
                && members(told)["reason"@] == JsonView::Text(reason) && (members(
                told,
            ).contains_key("field"@) <==> path.len() > 0) && (path.len() > 0 ==> members(
                told,
            )["field"@] == JsonView::Text(path))
            &&& wrong.status == 422 && wrong.code == "validation_error"@
            &&& wrong.details == Some(violations_value(errors))
        }),
{
    reveal_strlit("source");
    reveal_strlit("name");
    reveal_strlit("reason");
    reveal_strlit("field");
    assert("source"@.len() == 6 && "source"@[0] == 's');
    assert("name"@.len() == 4);
    assert("reason"@[0] == 'r');
    assert("field"@.len() == 5);
}

/// Every source goes by its own word.
pub proof fn law_sources_have_their_own_words(left: InputSource, right: InputSource)
    ensures
        source_word(left) == source_word(right) ==> left == right,
{
    reveal_strlit("path");
    reveal_strlit("query");
    reveal_strlit("header");
    reveal_strlit("cookie");
    reveal_strlit("json");
    reveal_strlit("form");
    reveal_strlit("multipart");
    reveal_strlit("file");
    reveal_strlit("stream");
    if source_word(left) == source_word(right) {
        assert(source_word(left)[0] == source_word(right)[0]);
        assert(source_word(left)[1] == source_word(right)[1]);
    }
}

/// The values of a header are those of the headers with its name, in order.
pub proof fn law_header_values_are_those_named(headers: Seq<HeaderView>, name: Seq<char>)
    ensures
        values_named(headers, name) == headers.filter(
            |header: HeaderView| header.name == header_of_argument(name),
        ).map_values(|header: HeaderView| header.value),
    decreases headers.len(),
{
    reveal(Seq::filter);
    let pred = |header: HeaderView| header.name == header_of_argument(name);
    let value = |header: HeaderView| header.value;
    if headers.len() > 0 {
        law_header_values_are_those_named(headers.drop_last(), name);
        assert(values_named(headers, name) =~= headers.filter(pred).map_values(value));
    } else {
        assert(values_named(headers, name) =~= headers.filter(pred).map_values(value));
    }
}

/// A decoded argument is accepted as it is if and only if its type accepts it, and
/// refused with the violations that were found otherwise.
pub proof fn law_arguments_are_judged_by_their_type<T>(
    accepted: Result<T, InputRejection>,
    decoded: T,
    verdict: Result<(), ValidationErrors>,
    source: InputSource,
)
    requires
        judged(accepted, decoded, verdict, source),
    ensures
        accepted is Ok <==> verdict is Ok,
        accepted matches Ok(argument) ==> argument == decoded,
        accepted matches Err(rejection) ==> rejection@.status == 422 && rejection@.code
            == "validation_error"@ && (verdict matches Err(errors) && rejection@.details == Some(
            violations_value(errors@),
        )),
{
}

} // verus!
