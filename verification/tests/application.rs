use blazingly::application::{App, BuildError, HttpMethod, OperationDescriptor};
use blazingly::contract::TypeDescriptor;
use blazingly::operation::{
    AgentPolicy, InputDescriptor, InputSource, McpToolDescriptor, ResponseDescriptor,
    SecurityRequirement, SecuritySchemeDescriptor, SecuritySchemeKind,
};

fn operation(id: &str, method: HttpMethod, path: &str) -> OperationDescriptor {
    OperationDescriptor::new(
        method,
        path,
        id,
        id,
        None,
        vec![ResponseDescriptor::success(
            200,
            Some(TypeDescriptor::new("Output")),
        )],
    )
    .expect("test operation id should be valid")
}

#[test]
fn app_rejects_duplicate_operation_ids() {
    let result = App::new()
        .route(operation("users.read", HttpMethod::Get, "/users/1"))
        .route(operation("users.read", HttpMethod::Get, "/users/2"))
        .build();

    assert!(matches!(result, Err(BuildError::DuplicateOperationId(_))));
}

#[test]
fn app_rejects_duplicate_http_bindings() {
    let result = App::new()
        .route(operation("users.read", HttpMethod::Get, "/users"))
        .route(operation("users.list", HttpMethod::Get, "/users"))
        .build();

    assert!(matches!(
        result,
        Err(BuildError::DuplicateHttpBinding { .. })
    ));
}

#[test]
fn app_rejects_parameter_routes_with_the_same_shape() {
    let result = App::new()
        .route(
            operation("users.by_id", HttpMethod::Get, "/users/{user_id}").with_inputs(vec![
                InputDescriptor::new(
                    "user_id",
                    InputSource::Path,
                    true,
                    TypeDescriptor::new("u64"),
                ),
            ]),
        )
        .route(
            operation("users.by_name", HttpMethod::Get, "/users/{user_name}").with_inputs(vec![
                InputDescriptor::new(
                    "user_name",
                    InputSource::Path,
                    true,
                    TypeDescriptor::new("String"),
                ),
            ]),
        )
        .build();

    assert!(matches!(
        result,
        Err(BuildError::AmbiguousHttpBinding { .. })
    ));
}

#[test]
fn app_order_is_deterministic() {
    let app = App::new()
        .route(operation("users.create", HttpMethod::Post, "/users"))
        .route(operation("health.read", HttpMethod::Get, "/health"))
        .build()
        .expect("application should be valid");

    let ids: Vec<_> = app
        .operations()
        .iter()
        .map(|operation| operation.contract.id.as_str())
        .collect();
    assert_eq!(ids, ["health.read", "users.create"]);
}

#[test]
fn app_validates_and_orders_operation_security() {
    let secured = operation("users.write", HttpMethod::Put, "/users").with_security(vec![
        SecurityRequirement::new("oauth").with_scopes(vec!["users:write".to_string()]),
    ]);
    let app = App::new()
        .route(secured)
        .security_scheme(SecuritySchemeDescriptor::new(
            "oauth",
            SecuritySchemeKind::OAuth2 {
                authorization_url: Some("https://auth.example/authorize".to_string()),
                token_url: Some("https://auth.example/token".to_string()),
                scopes: vec!["users:read".to_string(), "users:write".to_string()],
            },
        ))
        .build()
        .expect("registered security requirements should compile");

    assert_eq!(app.security_schemes()[0].name, "oauth");
    assert_eq!(
        app.operations()[0].contract.security[0].scopes,
        ["users:write"]
    );
}

#[test]
fn app_rejects_unknown_security_schemes_and_scopes() {
    let unknown_scheme = App::new()
        .route(
            operation("users.read", HttpMethod::Get, "/users")
                .with_security(vec![SecurityRequirement::new("missing")]),
        )
        .build();
    assert!(matches!(
        unknown_scheme,
        Err(BuildError::UnknownSecurityScheme { .. })
    ));

    let unknown_scope = App::new()
        .route(
            operation("users.read", HttpMethod::Get, "/users").with_security(vec![
                SecurityRequirement::new("oauth").with_scopes(vec!["users:write".to_string()]),
            ]),
        )
        .security_scheme(SecuritySchemeDescriptor::new(
            "oauth",
            SecuritySchemeKind::OAuth2 {
                authorization_url: None,
                token_url: Some("https://auth.example/token".to_string()),
                scopes: vec!["users:read".to_string()],
            },
        ))
        .build();
    assert!(matches!(
        unknown_scope,
        Err(BuildError::UnknownSecurityScope { .. })
    ));
}

fn path_input(name: &str) -> InputDescriptor {
    InputDescriptor::new(name, InputSource::Path, true, TypeDescriptor::new("u64"))
}

#[test]
fn every_invalid_graph_is_named() {
    let duplicate = App::new()
        .route(operation("users.read", HttpMethod::Get, "/users/1"))
        .route(operation("users.read", HttpMethod::Get, "/users/2"))
        .build()
        .unwrap_err();
    assert_eq!(
        duplicate.to_string(),
        "operation id OperationId(\"users.read\") is registered more than once"
    );
    let bound_twice = App::new()
        .route(operation("users.read", HttpMethod::Get, "/users"))
        .route(operation("users.list", HttpMethod::Get, "/users"))
        .build()
        .unwrap_err();
    assert_eq!(
        bound_twice.to_string(),
        "GET /users is registered more than once"
    );
    let unmatched = App::new()
        .route(operation("users.read", HttpMethod::Get, "/users/{id}"))
        .build()
        .unwrap_err();
    assert!(matches!(unmatched, BuildError::InvalidPathInputs { .. }));
    assert_eq!(
        unmatched.to_string(),
        "operation users.read path placeholders do not match its Path<T> inputs"
    );
    let doubled = App::new()
        .route(
            operation("users.read", HttpMethod::Get, "/users/{id}").with_inputs(vec![
                path_input("id"),
                InputDescriptor::new("id", InputSource::Query, false, TypeDescriptor::new("u64")),
            ]),
        )
        .build()
        .unwrap_err();
    assert_eq!(
        doubled.to_string(),
        "operation users.read exposes input name \"id\" more than once"
    );
    let schemes = App::new()
        .security_scheme(SecuritySchemeDescriptor::new(
            "key",
            SecuritySchemeKind::MutualTls,
        ))
        .security_scheme(SecuritySchemeDescriptor::new(
            "key",
            SecuritySchemeKind::MutualTls,
        ))
        .build()
        .unwrap_err();
    assert_eq!(
        schemes,
        BuildError::DuplicateSecurityScheme("key".to_string())
    );
    assert_eq!(
        schemes.to_string(),
        "security scheme \"key\" is registered more than once"
    );
    let required_twice = App::new()
        .route(
            operation("users.read", HttpMethod::Get, "/users").with_security(vec![
                SecurityRequirement::new("key"),
                SecurityRequirement::new("key"),
            ]),
        )
        .security_scheme(SecuritySchemeDescriptor::new(
            "key",
            SecuritySchemeKind::MutualTls,
        ))
        .build()
        .unwrap_err();
    assert_eq!(
        required_twice.to_string(),
        "operation users.read requires security scheme \"key\" more than once"
    );
    let ambiguous = App::new()
        .route(operation("a", HttpMethod::Get, "/u/{x}").with_inputs(vec![path_input("x")]))
        .route(operation("b", HttpMethod::Get, "/u/{y}").with_inputs(vec![path_input("y")]))
        .build()
        .unwrap_err();
    assert_eq!(
        ambiguous.to_string(),
        "GET /u/{y} conflicts with another parameterized route"
    );
}

#[test]
fn the_definition_does_not_depend_on_registration_order() {
    let first = || operation("users.create", HttpMethod::Post, "/users");
    let second = || operation("users.list", HttpMethod::Get, "/users");
    let third = || operation("health.read", HttpMethod::Get, "/health");
    let one = App::new()
        .routes(vec![first(), second(), third()])
        .build()
        .expect("application should be valid");
    let other = App::new()
        .routes(vec![third(), first(), second()])
        .build()
        .expect("application should be valid");
    assert_eq!(one.operations(), other.operations());
}

#[test]
fn a_tool_carries_its_policy() {
    let tool = operation("users.read", HttpMethod::Get, "/users").with_mcp_tool(
        McpToolDescriptor::new("users_read", "Read users"),
        AgentPolicy::default(),
    );
    assert_eq!(
        tool.mcp_tool().map(|tool| tool.name.as_str()),
        Some("users_read")
    );
    assert!(operation("x", HttpMethod::Get, "/x").mcp_tool().is_none());
}

#[test]
fn validity_does_not_depend_on_registration_order() {
    let build = |paths: [(&str, &str); 3]| {
        let mut app = App::new();
        for (id, path) in paths {
            app = app.route(operation(id, HttpMethod::Get, path));
        }
        app.build().is_ok()
    };
    assert!(build([("a", "/a"), ("b", "/b"), ("c", "/c")]));
    assert!(build([("c", "/c"), ("a", "/a"), ("b", "/b")]));
    assert!(!build([("a", "/a"), ("b", "/b"), ("a", "/c")]));
    assert!(!build([("a", "/c"), ("a", "/a"), ("b", "/b")]));
}
