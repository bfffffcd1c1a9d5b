use blazingly::compatibility::{
    compare_agent, Compatibility, CompatibilityImpact, CompatibilityReport,
};
use blazingly::contract::{
    FieldDescriptor, ModelDescriptor, ModelView, OperationId, SchemaKind, TypeDescriptor, ValidationRule,
};
use blazingly::operation::{
    AgentPolicy, ApiModel, ApiSchema, Confirmation, DependencyDescriptor, InputDescriptor,
    InputSource, McpToolDescriptor, OperationContract, OperationRisk, OutputExposure,
    ResponseDescriptor, ResponseHeader, SecurityRequirement, ValidationErrors,
};

#[test]
fn operation_ids_are_stable_and_conservative() {
    assert!(OperationId::new("users.create-v2").is_ok());
    assert!(OperationId::new("").is_err());
    assert!(OperationId::new("users/create").is_err());
    assert!(OperationId::new("users create").is_err());
}

#[test]
fn canonical_contract_is_independent_of_declaration_order() {
    let original = sample_contract();
    let mut reordered = original.clone();
    reordered.inputs.reverse();
    reordered.dependencies.reverse();
    reordered.security.reverse();
    reordered.security[0].scopes.reverse();
    reordered.responses.reverse();
    reordered
        .responses
        .iter_mut()
        .find(|response| response.status == 201)
        .unwrap()
        .headers
        .reverse();
    let model = reordered.inputs[1].ty.model.as_mut().unwrap();
    model.fields.reverse();
    model.fields[1].validation.reverse();

    assert_eq!(original.canonical_bytes(), reordered.canonical_bytes());
    assert!(original.fingerprint().same(&reordered.fingerprint()));
}

#[test]
fn deprecated_input_mirror_does_not_change_fingerprint() {
    let original = sample_contract();
    let mut changed = original.clone();
    changed.input = Some(TypeDescriptor::scalar("bool", SchemaKind::Boolean));

    assert!(original.fingerprint().same(&changed.fingerprint()));
    assert!(Compatibility::compare(&original, &changed).changes.is_empty());
}

#[test]
fn canonical_fingerprint_has_a_golden_value() {
    let fingerprint = sample_contract().fingerprint().to_string();
    assert_eq!(
        fingerprint,
        "blazingly-contract-v1.0-sha256:\
         f930a013b78fd44d7253b2b42e9d168318ac9ec206508f2c98383a0fdbb3c891"
    );
}

#[test]
fn compatibility_classifies_input_and_response_evolution() {
    let original = sample_contract();

    let mut optional_input = original.clone();
    optional_input.inputs.push(InputDescriptor::new(
        "x-request-id",
        InputSource::Header,
        false,
        String::type_descriptor(),
    ));
    assert!(Compatibility::compare(&original, &optional_input).is_backward_compatible());

    let mut required_input = original.clone();
    required_input.inputs.push(InputDescriptor::new(
        "tenant",
        InputSource::Path,
        true,
        String::type_descriptor(),
    ));
    let report = Compatibility::compare(&original, &required_input);
    assert!(!report.is_backward_compatible());
    assert!(report
        .breaking_changes()
        .iter()
        .any(|change| change.code == "required_input_added"));

    let mut removed_response = original.clone();
    removed_response.responses.pop();
    let report = Compatibility::compare(&original, &removed_response);
    assert!(report
        .breaking_changes()
        .iter()
        .any(|change| change.code == "response_removed"));
}

#[test]
fn compatibility_catches_stricter_model_agent_and_mcp_policies() {
    let original = sample_contract();
    let mut stricter = original.clone();
    let model = stricter.inputs[0].ty.model.as_mut().unwrap();
    model.fields[0]
        .validation
        .push(ValidationRule::MinLength(12));
    stricter.agent.risk = OperationRisk::Destructive;
    stricter.agent.confirmation = Confirmation::Required;
    stricter.agent.idempotent = false;
    stricter.mcp.as_mut().unwrap().expose_output = OutputExposure::Hidden;

    let report = Compatibility::compare(&original, &stricter);
    assert!(!report.is_backward_compatible());
    assert!(report
        .breaking_changes()
        .iter()
        .any(|change| change.code == "minimum_length_changed"));
    assert!(report
        .breaking_changes()
        .iter()
        .any(|change| change.code == "agent_risk_changed"));
    assert!(report
        .breaking_changes()
        .iter()
        .any(|change| change.code == "mcp_output_exposure_changed"));
}

#[test]
fn collection_descriptors_retain_nested_model_contracts() {
    let descriptor = Vec::<TestModel>::type_descriptor();

    assert!(matches!(descriptor.schema, SchemaKind::Array(_)));
    assert_eq!(
        descriptor
            .items
            .as_ref()
            .and_then(|item| item.model.as_ref())
            .map(|model| model.name.as_str()),
        Some("TestModel")
    );
}

#[test]
fn an_unchanged_contract_has_no_changes() {
    let original = sample_contract();
    let report = Compatibility::compare(&original, &original.clone());
    assert!(report.changes.is_empty());
    assert!(report.is_backward_compatible());
    assert!(report.breaking_changes().is_empty());
}

#[test]
fn a_refused_identity_is_named() {
    let refused = OperationId::new("users create").unwrap_err();
    assert_eq!(refused.value(), "users create");
    assert!(refused.to_string().contains("\"users create\"") || refused.to_string().contains("users create"));
}

struct TestModel;

impl ApiModel for TestModel {
    fn described_model() -> ModelView {
        unreachable!()
    }

    fn model_descriptor() -> ModelDescriptor {
        request_model()
    }

    fn validate(&self) -> Result<(), ValidationErrors> {
        Ok(())
    }
}

fn sample_contract() -> OperationContract {
    OperationContract::new(
        "users.create",
        "Create one user",
        None,
        vec![
            ResponseDescriptor::success(
                201,
                Some(TypeDescriptor::model(ModelDescriptor::new(
                    "CreatedUser",
                    vec![
                        FieldDescriptor::new("id", true, String::type_descriptor(), vec![]),
                        FieldDescriptor::new(
                            "display_name",
                            true,
                            String::type_descriptor(),
                            vec![],
                        ),
                    ],
                ))),
            )
            .with_headers(vec![
                ResponseHeader::new("Location", "/users/{id}"),
                ResponseHeader::new("X-Request-Id", "generated"),
            ]),
            ResponseDescriptor::error(409, "user_exists", "user already exists", None),
        ],
    )
    .unwrap()
    .with_inputs(vec![
        InputDescriptor::new(
            "body",
            InputSource::Json,
            true,
            TypeDescriptor::model(request_model()),
        ),
        InputDescriptor::new(
            "x-tenant",
            InputSource::Header,
            true,
            String::type_descriptor(),
        ),
    ])
    .with_dependencies(vec![
        DependencyDescriptor::new("UserRepository"),
        DependencyDescriptor::new("AuditLog"),
    ])
    .with_security(vec![
        SecurityRequirement::new("bearer")
            .with_scopes(vec!["users:write".to_string(), "profile:write".to_string()]),
        SecurityRequirement::new("tenant"),
    ])
    .with_agent_policy(AgentPolicy {
        risk: OperationRisk::Write,
        confirmation: Confirmation::Never,
        idempotent: true,
    })
    .with_mcp_tool(McpToolDescriptor::new(
        "users_create",
        "Create one user account",
    ))
}

fn request_model() -> ModelDescriptor {
    ModelDescriptor::new(
        "TestModel",
        vec![
            FieldDescriptor::new(
                "email",
                true,
                String::type_descriptor(),
                vec![ValidationRule::Email, ValidationRule::MinLength(3)],
            ),
            FieldDescriptor::new(
                "display_name",
                false,
                String::type_descriptor(),
                vec![ValidationRule::MaxLength(80)],
            ),
        ],
    )
}

#[test]
fn the_case_of_header_names_is_no_part_of_a_contract() {
    let contract = sample_contract();
    let mut respelled = contract.clone();
    respelled.inputs[1].name = "X-Tenant".to_string();
    for response in &mut respelled.responses {
        for header in &mut response.headers {
            header.name = header.name.to_ascii_uppercase();
        }
    }
    assert_eq!(contract.canonical_bytes(), respelled.canonical_bytes());
    assert!(Compatibility::compare(&contract, &respelled).changes.is_empty());
}

#[test]
fn agent_policies_compare_alike_in_both_directions() {
    let lenient = sample_contract();
    let strict = sample_contract().with_agent_policy(AgentPolicy {
        risk: OperationRisk::Destructive,
        confirmation: Confirmation::Required,
        idempotent: false,
    });
    let found = |report: CompatibilityReport| {
        let found: Vec<(String, String, CompatibilityImpact)> = report
            .changes
            .into_iter()
            .map(|change| (change.path, change.code, change.impact))
            .collect();
        found
    };
    let forth = found(Compatibility::compare(&lenient, &strict));
    let back = found(Compatibility::compare(&strict, &lenient));
    assert_eq!(forth.len(), 3);
    assert_eq!(back.len(), 3);
    for (there, here) in forth.iter().zip(&back) {
        assert_eq!((&there.0, &there.1), (&here.0, &here.1));
        assert_eq!(there.2, CompatibilityImpact::Breaking);
        assert_eq!(here.2, CompatibilityImpact::NonBreaking);
    }
}

#[test]
fn agent_findings_are_appended() {
    let lenient = sample_contract();
    let strict = sample_contract().with_agent_policy(AgentPolicy {
        risk: OperationRisk::Write,
        confirmation: Confirmation::Required,
        idempotent: true,
    });
    let mut changes = Vec::new();
    compare_agent(&lenient, &strict, &mut changes);
    compare_agent(&strict, &lenient, &mut changes);
    assert_eq!(changes.len(), 2);
    assert_eq!(changes[0].code, "agent_confirmation_changed");
    assert_eq!(changes[0].impact, CompatibilityImpact::Breaking);
    assert_eq!(changes[1].impact, CompatibilityImpact::NonBreaking);
}
