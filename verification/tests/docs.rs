use blazingly::application::{App, AppDefinition, HttpMethod, OperationDescriptor};
use blazingly::contract::{
    FieldDescriptor, ModelDescriptor, SchemaKind, TypeDescriptor, ValidationRule,
};
use blazingly::deploy::{kubernetes_name, scaffold_files, KubernetesConfig};
use blazingly::docs::{
    bundle, example_arguments, example_value, scaffold, DocsBundle, DocsBundleConfig,
    ScaffoldConfig,
};
use blazingly::generated::GeneratedFiles;
use blazingly::json::JsonValue;
use blazingly::markdown::{api_markdown, describe_rule, mcp_markdown, operation_tag};
use blazingly::operation::{
    AgentPolicy, InputDescriptor, InputSource, McpToolDescriptor, OutputExposure,
    ResponseDescriptor,
};

const CONTRACTS: &str = "[\n  {\n    \"id\": \"users.create\"\n  }\n]";

fn bundled(app: &AppDefinition, config: &DocsBundleConfig) -> DocsBundle {
    bundle::<String>(app, config, Ok(CONTRACTS.to_string())).expect("the contracts encode")
}

fn create_user() -> OperationDescriptor {
    OperationDescriptor::new(
        HttpMethod::Post,
        "/users",
        "users.create",
        "Create a user",
        Some(TypeDescriptor::new("CreateUser")),
        vec![ResponseDescriptor::success(
            201,
            Some(TypeDescriptor::new("UserView")),
        )],
    )
    .expect("operation should be valid")
    .with_mcp_tool(
        McpToolDescriptor::new("create_user", "Create one user"),
        AgentPolicy::default(),
    )
}

#[test]
fn markdown_is_generated_from_operation_metadata() {
    let app = App::new()
        .route(create_user())
        .build()
        .expect("application should be valid");

    let api_document = api_markdown(&app);
    let mcp_document = mcp_markdown(&app);

    assert!(api_document.contains("POST /users"));
    assert!(api_document.contains("CreateUser"));
    assert!(mcp_document.contains("create_user"));
    assert!(mcp_document.contains("users.create"));
}

#[test]
fn bundle_and_scaffold_emit_deterministic_agent_and_starter_files() {
    let app = App::new().route(create_user()).build().unwrap();
    let bundle = bundled(
        &app,
        &DocsBundleConfig::new("Users API").with_base_url("https://api.example"),
    );

    assert!(bundle.file("api.md").unwrap().contains("POST /users"));
    assert!(bundle.file("ai.md").unwrap().contains("Agent policy"));
    assert!(bundle
        .file("examples/mcp.md")
        .unwrap()
        .contains("\"method\": \"tools/call\""));
    assert!(bundle
        .file("clients/rust.rs")
        .unwrap()
        .contains("pub async fn users_create"));
    assert!(bundle
        .file("contracts.json")
        .unwrap()
        .contains("users.create"));

    let scaffold = scaffold(
        &ScaffoldConfig::new("hello-blazingly")
            .with_dependency("{ path = \"../blazingly\", features = [\"native\"] }"),
    );
    assert!(scaffold
        .file("Cargo.toml")
        .unwrap()
        .contains("blazingly = { path = \"../blazingly\", features = [\"native\"] }"));
    assert!(scaffold
        .file("src/main.rs")
        .unwrap()
        .contains("blazingly::native::MulticoreServer"));
    assert!(scaffold
        .file("src/main.rs")
        .unwrap()
        .contains("termination_channel"));
    assert!(scaffold
        .file("deploy/kubernetes/base/hpa.yaml")
        .unwrap()
        .contains("apiVersion: autoscaling/v2"));
    assert!(scaffold
        .file("deploy/kubernetes/overlays/direct/service-load-balancer.yaml")
        .unwrap()
        .contains("type: LoadBalancer"));
    assert!(scaffold
        .file("deploy/kubernetes/overlays/nginx/ingress.yaml")
        .unwrap()
        .contains("ingressClassName: nginx"));
}

#[test]
fn api_markdown_groups_operations_and_prints_their_long_description() {
    let create = OperationDescriptor::new(
        HttpMethod::Post,
        "/users",
        "users.create",
        "Create a user",
        None,
        vec![ResponseDescriptor::success(201, None)],
    )
    .unwrap()
    .with_mcp_tool(
        McpToolDescriptor::new("create_user", "Registers one user and returns its view."),
        AgentPolicy::default(),
    );
    let health = OperationDescriptor::new(
        HttpMethod::Get,
        "/health",
        "health",
        "Report health",
        None,
        vec![ResponseDescriptor::success(200, None)],
    )
    .unwrap();
    let app = App::new().route(create).route(health).build().unwrap();

    let document = api_markdown(&app);

    assert!(document.contains("## users\n"), "{document}");
    assert!(document.contains("### `users.create`"), "{document}");
    assert!(document.contains("## Other\n"), "{document}");
    assert!(
        document.contains("Registers one user and returns its view."),
        "{document}"
    );
}

#[test]
fn recorded_field_metadata_reads_as_prose_and_seeds_the_examples() {
    let model = ModelDescriptor::new(
        "CreateArticle",
        vec![
            FieldDescriptor::new(
                "status",
                false,
                TypeDescriptor::scalar("String", SchemaKind::String),
                vec![
                    ValidationRule::Custom("enum=draft|published".to_string()),
                    ValidationRule::Custom("default=\"draft\"".to_string()),
                ],
            ),
            FieldDescriptor::new(
                "subtitle",
                false,
                TypeDescriptor::scalar("String", SchemaKind::String),
                vec![ValidationRule::Custom("nullable=true".to_string())],
            ),
        ],
    );
    let operation = OperationDescriptor::new(
        HttpMethod::Post,
        "/articles",
        "articles.create",
        "Create an article",
        Some(TypeDescriptor::model(model)),
        vec![ResponseDescriptor::success(201, None)],
    )
    .unwrap();
    let app = App::new().route(operation).build().unwrap();

    let document = api_markdown(&app);
    assert!(
        document.contains("one of `draft`, `published`"),
        "{document}"
    );
    assert!(document.contains("default `\"draft\"`"), "{document}");
    assert!(document.contains(", nullable"), "{document}");
    assert!(
        !document.contains("validator `default"),
        "recovered metadata must not read as an opaque validator: {document}"
    );

    let bundle = bundled(&app, &DocsBundleConfig::new("Articles"));
    assert!(
        bundle
            .file("examples/http.md")
            .unwrap()
            .contains("\"draft\""),
        "a declared default belongs in the sample request"
    );
}

/// A bound on each element reads as one, not as a bound on the list.
#[test]
fn an_item_bundle_reads_as_a_rule_about_each_element() {
    let title = TypeDescriptor::scalar("Title", SchemaKind::String).with_constraints(vec![
        ValidationRule::MinLength(8),
        ValidationRule::Custom("enum=news|sport".to_string()),
    ]);
    let titles = TypeDescriptor {
        rust_name: "Vec<Title>".to_string(),
        schema: SchemaKind::Array(Box::new(SchemaKind::String)),
        model: None,
        items: Some(Box::new(title)),
        constraints: Vec::new(),
    };
    let model = ModelDescriptor::new(
        "RenameBatch",
        vec![FieldDescriptor::new(
            "titles",
            true,
            titles,
            vec![ValidationRule::Custom("min_items=1".to_string())],
        )],
    );
    let operation = OperationDescriptor::new(
        HttpMethod::Post,
        "/titles",
        "articles.rename",
        "Rename articles",
        Some(TypeDescriptor::model(model)),
        vec![ResponseDescriptor::success(200, None)],
    )
    .unwrap();
    let app = App::new().route(operation).build().unwrap();

    let document = api_markdown(&app);
    assert!(
        document.contains("each item min length 8"),
        "an item bound says which scope it bounds: {document}"
    );
    assert!(
        document.contains("each item one of `news`, `sport`"),
        "{document}"
    );
    assert!(
        document.contains("min_items=1") || document.contains("min items 1"),
        "{document}"
    );
    assert!(
        !document.contains("validator `items."),
        "a recovered item rule must not read as an opaque validator: {document}"
    );
}

#[test]
fn names_are_valid_stable_dns_labels() {
    assert_eq!(
        kubernetes_name("Hello_Blazingly.API"),
        "hello-blazingly-api"
    );
    assert_eq!(kubernetes_name("___"), "blazingly-app");
    assert!(kubernetes_name(&"A".repeat(80)).len() <= 63);
}

#[test]
fn a_label_is_its_own_label() {
    for name in ["Hello_Blazingly.API", "___", "-a--b-", "caf\u{e9} 9"] {
        let label = kubernetes_name(name);
        assert_eq!(kubernetes_name(&label), label);
        assert!(!label.contains("--"));
    }
}

#[test]
fn scaffold_contains_both_exposure_modes_and_shared_autoscaling() {
    let config = KubernetesConfig::new("hello_blazingly")
        .with_container_image("registry.example/hello:v1")
        .with_ingress_host("api.example.com")
        .with_replicas(3, 40)
        .with_target_cpu_utilization(55);
    let files = scaffold_files("hello_blazingly", &config);
    let contents = |path: &str| files.file(path).expect("a generated file").to_string();

    assert!(contents("deploy/kubernetes/base/hpa.yaml").contains("apiVersion: autoscaling/v2"));
    assert!(contents("deploy/kubernetes/base/hpa.yaml").contains("maxReplicas: 40"));
    assert!(
        contents("deploy/kubernetes/overlays/direct/service-load-balancer.yaml")
            .contains("type: LoadBalancer")
    );
    assert!(
        contents("deploy/kubernetes/overlays/nginx/ingress.yaml")
            .contains("ingressClassName: nginx")
    );
    assert!(contents("deploy/kubernetes/overlays/nginx/ingress.yaml").contains("api.example.com"));
    assert!(
        contents("deploy/kubernetes/base/deployment.yaml").contains("registry.example/hello:v1")
    );
}

#[test]
fn generated_files_are_listed_by_path() {
    let files = GeneratedFiles::new()
        .with("b.md", "first".to_string())
        .with("a.md", "other".to_string())
        .with("b.md", "second".to_string());
    let listed: Vec<(&str, &str)> = files
        .files()
        .iter()
        .map(|file| (file.path.as_str(), file.contents.as_str()))
        .collect();
    assert_eq!(listed, [("a.md", "other"), ("b.md", "second")]);
    assert_eq!(files.file("c.md"), None);
}

#[test]
fn an_api_document_reads_word_for_word() {
    let operation = OperationDescriptor::new(
        HttpMethod::Get,
        "/health",
        "health",
        "Report health",
        None,
        vec![ResponseDescriptor::success(200, None)],
    )
    .unwrap();
    assert_eq!(operation_tag(&operation), None);
    assert_eq!(
        operation_tag(&create_user()).as_deref(),
        Some("users")
    );
    let app = App::new().route(operation).build().unwrap();
    let document = api_markdown(&app);
    assert!(document.starts_with("# API\n"), "{document}");
    assert_eq!(document.matches("`health`").count(), 1, "{document}");
}

#[test]
fn a_hidden_output_is_called_none() {
    let operation = create_user().with_mcp_tool(
        McpToolDescriptor::new("create_user", "Create one user")
            .with_output_exposure(OutputExposure::Hidden),
        AgentPolicy::default(),
    );
    let app = App::new().route(operation).build().unwrap();
    assert!(
        mcp_markdown(&app).contains("None"),
        "{}",
        mcp_markdown(&app)
    );
}

#[test]
fn rules_read_as_prose() {
    assert_eq!(describe_rule(&ValidationRule::MinLength(3)), "min length 3");
    assert_eq!(describe_rule(&ValidationRule::MaxLength(9)), "max length 9");
    assert_eq!(describe_rule(&ValidationRule::Email), "email");
    assert_eq!(
        describe_rule(&ValidationRule::Alias("x".to_string())),
        "alias `x`"
    );
    assert_eq!(describe_rule(&ValidationRule::Nested), "nested validation");
    assert_eq!(
        describe_rule(&ValidationRule::Custom("slug".to_string())),
        "validator `slug`"
    );
    assert_eq!(
        describe_rule(&ValidationRule::Custom("default=[1,2]".to_string())),
        "default `[1,2]`"
    );
}

#[test]
fn examples_follow_the_schema() {
    let text = TypeDescriptor::scalar("String", SchemaKind::String);
    let sample = example_value(&text);
    assert!(sample.as_str().is_some());
    let inputs = vec![InputDescriptor::new("name", InputSource::Query, true, text)];
    assert_eq!(example_arguments(&inputs).get("name"), Some(&sample));
    assert_eq!(
        example_value(&TypeDescriptor::scalar("bool", SchemaKind::Boolean)),
        JsonValue::flag(true)
    );
}

#[test]
fn contracts_that_do_not_encode_are_reported() {
    let app = App::new().route(create_user()).build().unwrap();
    let failed = bundle::<u8>(&app, &DocsBundleConfig::new("Users"), Err(7));
    assert_eq!(failed.err(), Some(7));
}
