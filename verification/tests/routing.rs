use blazingly::application::{App, AppDefinition, HttpMethod, OperationDescriptor};
use blazingly::contract::TypeDescriptor;
use blazingly::introspection::Emission;
use blazingly::middleware::{MiddlewareScope, NoFilter, OperationFilter};
use blazingly::operation::{InputDescriptor, InputSource, ResponseDescriptor};
use blazingly::router::{RouteError, Router};
use blazingly::text::TextView;
use blazingly::url::{
    cookie_value, decode_url_component, form_value, header_name_matches, query_value,
    validate_url_encoding,
};

const METHODS: [HttpMethod; 9] = [
    HttpMethod::Get,
    HttpMethod::Head,
    HttpMethod::Post,
    HttpMethod::Put,
    HttpMethod::Patch,
    HttpMethod::Delete,
    HttpMethod::Options,
    HttpMethod::Trace,
    HttpMethod::Connect,
];

/// Accepts identities whose last part is a word.
struct LastPart(&'static str);

impl OperationFilter for LastPart {
    fn accepts(&self, _operation_id: TextView) -> bool {
        unreachable!()
    }

    fn test(&self, operation_id: &str) -> bool {
        operation_id.split('.').next_back() == Some(self.0)
    }
}

type Scope = MiddlewareScope<NoFilter>;

#[test]
fn a_path_prefix_matches_only_on_segment_boundaries() {
    let scope = Scope::prefix("/ingest");
    assert!(scope.matches_request("/ingest"));
    assert!(scope.matches_request("/ingest/events"));
    assert!(!scope.matches_request("/ingested"));
    assert!(!scope.matches_request("/"));
    assert!(Scope::prefix("ingest/").matches_request("/ingest/events"));
    assert!(Scope::all().is_global());
    assert!(!scope.is_global());
}

#[test]
fn operation_predicates_select_by_id_after_routing() {
    let scope = Scope::all().with_operation_prefix("ingest.");
    assert!(scope.matches_operation("/anything", "ingest.events"));
    assert!(!scope.matches_operation("/anything", "status.read"));
    assert!(!scope.matches_request("/anything"));

    let scope = MiddlewareScope::all().with_operation_filter(LastPart("read"));
    assert!(scope.matches_operation("/anything", "status.read"));
    assert!(!scope.matches_operation("/anything", "status.write"));

    let scope = Scope::prefix("/ingest").with_operation("status.read");
    assert!(!scope.matches_operation("/status", "status.read"));
}

#[test]
fn a_scope_widens_with_every_alternative() {
    let scope = Scope::operation("a.read").with_operation("b.read").with_prefix("/x");
    assert!(scope.matches("/x/1", Some("b.read")));
    assert!(!scope.matches("/y", Some("b.read")));
    assert!(!scope.matches("/x", None));
}

fn definition(routes: &[(HttpMethod, &str)]) -> (AppDefinition, Vec<usize>) {
    let mut app = App::new();
    for (index, (method, path)) in routes.iter().enumerate() {
        let inputs = path
            .split('/')
            .filter_map(|segment| {
                segment
                    .strip_prefix('{')
                    .and_then(|segment| segment.strip_suffix('}'))
            })
            .map(|name| {
                InputDescriptor::new(name, InputSource::Path, true, TypeDescriptor::new("String"))
            })
            .collect::<Vec<_>>();
        let descriptor = OperationDescriptor::new(
            *method,
            path,
            &format!("router.op{index}"),
            "Router fixture",
            None,
            vec![ResponseDescriptor::success(200, None)],
        )
        .expect("test operation id should be valid")
        .with_inputs(inputs);
        app = app.route(descriptor);
    }
    let definition = app.build().expect("router fixture compiles");
    let positions = definition
        .operations()
        .iter()
        .map(|operation| {
            operation
                .contract
                .id
                .as_str()
                .trim_start_matches("router.op")
                .parse::<usize>()
                .expect("the position of a route")
        })
        .collect();
    (definition, positions)
}

fn router(routes: &[(HttpMethod, &str)]) -> Router {
    let (definition, positions) = definition(routes);
    Router::new(&definition, &positions)
}

fn allowed(router: &Router, method: HttpMethod, path: &str) -> Vec<HttpMethod> {
    match router.recognize(method, path) {
        Err(RouteError::MethodNotAllowed { allowed }) => allowed,
        other => panic!("{method:?} {path} should be a 405, got {:?}", other.is_ok()),
    }
}

/// The list of allowed methods is rendered by walking the method table low bit
/// first, so its order is that of the methods, not alphabetical.
#[test]
fn the_method_table_matches_the_http_method_order() {
    let mut sorted = METHODS;
    sorted.sort_unstable();
    assert_eq!(sorted, METHODS);
    for (index, method) in METHODS.into_iter().enumerate() {
        assert_eq!(method.rank(), index);
    }
}

#[test]
fn a_static_path_outranks_a_parameter_of_the_same_shape() {
    let router = router(&[
        (HttpMethod::Get, "/items"),
        (HttpMethod::Post, "/items"),
        (HttpMethod::Get, "/items/latest"),
        (HttpMethod::Put, "/items/latest"),
        (HttpMethod::Get, "/items/{id}"),
        (HttpMethod::Delete, "/items/{id}"),
    ]);

    let statically = router
        .recognize(HttpMethod::Get, "/items/latest")
        .ok()
        .expect("static route");
    assert_eq!(statically.path_parameter("id"), None);

    // No static DELETE for that path, so the walk falls through to the
    // parameter route and captures the segment the static table matched.
    let dynamically = router
        .recognize(HttpMethod::Delete, "/items/latest")
        .ok()
        .expect("parameter route");
    assert_eq!(
        dynamically.path_parameter("id").as_deref(),
        Some("latest"),
        "the static probe must not consume the segment"
    );
}

#[test]
fn an_allow_list_unions_static_and_parameter_routes_in_enum_order() {
    let router = router(&[
        (HttpMethod::Get, "/items"),
        (HttpMethod::Post, "/items"),
        (HttpMethod::Get, "/items/latest"),
        (HttpMethod::Put, "/items/latest"),
        (HttpMethod::Get, "/items/{id}"),
        (HttpMethod::Delete, "/items/{id}"),
    ]);

    assert_eq!(
        allowed(&router, HttpMethod::Patch, "/items"),
        vec![HttpMethod::Get, HttpMethod::Post]
    );
    assert_eq!(
        allowed(&router, HttpMethod::Post, "/items/latest"),
        vec![HttpMethod::Get, HttpMethod::Put, HttpMethod::Delete],
        "PUT precedes DELETE in the enum even though it follows alphabetically"
    );
    assert_eq!(
        allowed(&router, HttpMethod::Post, "/items/7"),
        vec![HttpMethod::Get, HttpMethod::Delete]
    );
}

#[test]
fn an_unknown_path_is_a_miss_rather_than_a_wrong_method() {
    let router = router(&[
        (HttpMethod::Get, "/items"),
        (HttpMethod::Get, "/items/{id}/tags/{tag}"),
    ]);

    for path in ["/nope", "/items/7/tags", "/items/7/tags/x/y", "/", ""] {
        assert_eq!(
            router.recognize(HttpMethod::Get, path).err(),
            Some(RouteError::NotFound),
            "{path} should not exist"
        );
    }
}

#[test]
fn a_failed_static_descent_backtracks_into_the_parameter_child() {
    let router = router(&[
        (HttpMethod::Get, "/a/{p}/x"),
        (HttpMethod::Post, "/a/{p}/x"),
        (HttpMethod::Get, "/a/b/y"),
    ]);

    // `b` matches the static child, which dead-ends at `x`; the walk has to
    // unwind and take the parameter child with the same segment.
    let matched = router
        .recognize(HttpMethod::Get, "/a/b/x")
        .ok()
        .expect("parameter route after backtracking");
    assert_eq!(matched.path_parameter("p").as_deref(), Some("b"));

    let statically = router
        .recognize(HttpMethod::Get, "/a/b/y")
        .ok()
        .expect("static branch");
    assert_eq!(statically.path_parameter("p"), None);

    assert_eq!(
        router.recognize(HttpMethod::Get, "/a/c/y").err(),
        Some(RouteError::NotFound)
    );
    assert_eq!(
        allowed(&router, HttpMethod::Delete, "/a/b/x"),
        vec![HttpMethod::Get, HttpMethod::Post]
    );
}

#[test]
fn captures_survive_a_deep_backtrack() {
    let router = router(&[
        (HttpMethod::Get, "/{one}/{two}/{three}/leaf"),
        (HttpMethod::Get, "/a/b/c/other"),
    ]);

    let matched = router
        .recognize(HttpMethod::Get, "/a/b/c/leaf")
        .ok()
        .expect("parameter route");
    assert_eq!(matched.path_parameter("one").as_deref(), Some("a"));
    assert_eq!(matched.path_parameter("two").as_deref(), Some("b"));
    assert_eq!(matched.path_parameter("three").as_deref(), Some("c"));
    assert_eq!(matched.path_parameter("four"), None);
}

#[test]
fn a_captured_segment_is_percent_decoded() {
    let router = router(&[(HttpMethod::Get, "/files/{name}")]);

    let matched = router
        .recognize(HttpMethod::Get, "/files/a%20b%2Fc")
        .ok()
        .expect("parameter route");
    assert_eq!(matched.path_parameter("name").as_deref(), Some("a b/c"));

    let plus = router
        .recognize(HttpMethod::Get, "/files/a+b")
        .ok()
        .expect("parameter route");
    assert_eq!(
        plus.path_parameter("name").as_deref(),
        Some("a+b"),
        "a path segment is not form encoded"
    );

    let invalid = router
        .recognize(HttpMethod::Get, "/files/a%2")
        .ok()
        .expect("parameter route");
    assert_eq!(invalid.path_parameter("name"), None);
}

#[test]
fn empty_segments_are_matched_literally() {
    let router = router(&[(HttpMethod::Get, "/files/{name}/meta")]);

    let matched = router
        .recognize(HttpMethod::Get, "/files//meta")
        .ok()
        .expect("empty segments are still segments");
    assert_eq!(matched.path_parameter("name").as_deref(), Some(""));
}

#[test]
fn every_method_reaches_its_own_static_slot() {
    let bindings = METHODS
        .into_iter()
        .map(|method| (method, "/one"))
        .collect::<Vec<_>>();
    let router = router(&bindings);

    let mut seen = Vec::new();
    for method in METHODS {
        let matched = router
            .recognize(method, "/one")
            .ok()
            .expect("static route");
        seen.push(matched.operation_index());
    }
    seen.sort_unstable();
    seen.dedup();
    assert_eq!(seen.len(), METHODS.len(), "slots must not alias");
}

#[test]
fn a_match_says_where_its_body_comes_from() {
    let descriptor = OperationDescriptor::new(
        HttpMethod::Post,
        "/items",
        "items.create",
        "Create an item",
        None,
        vec![ResponseDescriptor::success(201, None)],
    )
    .unwrap()
    .with_inputs(vec![InputDescriptor::new(
        "body",
        InputSource::Json,
        true,
        TypeDescriptor::new("Item"),
    )]);
    let definition = App::new().route(descriptor).build().unwrap();
    let router = Router::new(&definition, &[0]);
    let matched = router.recognize(HttpMethod::Post, "/items").ok().unwrap();
    assert!(matched.requires_json());
    assert_eq!(matched.body_source(), Some(InputSource::Json));
}

#[test]
fn an_emission_is_named_by_its_mode() {
    assert_eq!(Emission::requested("routes"), Emission::Routes);
    assert_eq!(Emission::requested("openapi"), Emission::OpenApi);
    assert_eq!(Emission::requested("other"), Emission::Unknown);
    assert_eq!(Emission::requested(""), Emission::Nothing);
}

#[test]
fn url_components_are_decoded() {
    assert_eq!(
        decode_url_component("a%20b+c", false).as_deref(),
        Some("a b+c")
    );
    assert_eq!(
        decode_url_component("a%20b+c", true).as_deref(),
        Some("a b c")
    );
    assert_eq!(decode_url_component("%ff", false), None);
    assert_eq!(decode_url_component("%e2%82%ac", false).as_deref(), Some("\u{20ac}"));
    assert!(validate_url_encoding("/a?b=%41"));
    assert!(!validate_url_encoding("/a?b=%4"));
}

#[test]
fn request_values_are_found_by_name() {
    assert_eq!(
        query_value("/items?tag=a&tag=b%21&x=1", "tag", 1).as_deref(),
        Some("b!")
    );
    assert_eq!(query_value("/items?tag=a", "tag", 1), None);
    assert_eq!(query_value("/items", "tag", 0), None);
    assert_eq!(
        form_value(b"name=Ada+L&age=36", "name", 0).as_deref(),
        Some("Ada L")
    );
    let cookies = vec!["a=1; session=xyz".to_string(), "session=second".to_string()];
    assert_eq!(cookie_value(&cookies, "session", 0).as_deref(), Some("xyz"));
    assert_eq!(
        cookie_value(&cookies, "session", 1).as_deref(),
        Some("second")
    );
    assert!(header_name_matches("x-request-id", "X_Request_Id"));
    assert!(!header_name_matches("x-request", "x_request_id"));
}
