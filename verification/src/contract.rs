//! Protocol-neutral operation contracts.
//!
//! Every descriptor has a mathematical view in which texts are character
//! sequences; the rules of the library are stated over those views.
use crate::text::{chars_of, eq_text};
use vstd::prelude::*;
use vstd::string::*;

verus! {

// ---------------------------------------------------------------------------
// Format version
// ---------------------------------------------------------------------------

/// Version of the canonical contract format.
///
/// Major versions may change canonical encoding or compatibility semantics.
/// Minor versions may add backward-compatible metadata.
#[derive(Clone, Copy, Debug, PartialEq, Eq, PartialOrd, Ord, Hash, Structural)]
pub struct ContractFormatVersion {
    pub major: u16,
    pub minor: u16,
}

/// The major number of the current canonical contract encoding.
pub const CURRENT_FORMAT_MAJOR: u16 = 1;

/// The minor number of the current canonical contract encoding.
pub const CURRENT_FORMAT_MINOR: u16 = 0;

impl ContractFormatVersion {
    #[must_use]
    pub fn new(major: u16, minor: u16) -> (version: Self)
        ensures
            version.major == major,
            version.minor == minor,
    {
        ContractFormatVersion { major, minor }
    }
}

impl Default for ContractFormatVersion {
    fn default() -> (version: Self)
        ensures
            version.major == CURRENT_FORMAT_MAJOR,
            version.minor == CURRENT_FORMAT_MINOR,
    {
        ContractFormatVersion { major: CURRENT_FORMAT_MAJOR, minor: CURRENT_FORMAT_MINOR }
    }
}

// ---------------------------------------------------------------------------
// Operation identity
// ---------------------------------------------------------------------------

/// The characters an operation identity may hold.
pub open spec fn identity_char(character: char) -> bool {
    ||| 'a' <= character <= 'z'
    ||| 'A' <= character <= 'Z'
    ||| '0' <= character <= '9'
    ||| character == '.'
    ||| character == '-'
    ||| character == '_'
}

/// A text usable as an operation identity.
pub open spec fn is_identity(text: Seq<char>) -> bool {
    text.len() > 0 && forall|i: int| 0 <= i < text.len() ==> identity_char(#[trigger] text[i])
}

/// A stable, human-readable operation identity such as `users.create`.
#[derive(Debug, PartialEq, Eq, PartialOrd, Ord, Hash)]
pub struct OperationId(String);

impl View for OperationId {
    type V = Seq<char>;

    closed spec fn view(&self) -> Seq<char> {
        self.0@
    }
}

/// An invalid operation identity.
#[derive(Clone, Debug, PartialEq, Eq)]
pub struct InvalidOperationId {
    value: String,
}

impl View for InvalidOperationId {
    type V = Seq<char>;

    closed spec fn view(&self) -> Seq<char> {
        self.value@
    }
}

impl OperationId {
    /// Every identity that exists holds only the stable alphabet.
    #[verifier::type_invariant]
    spec fn well_formed(self) -> bool {
        is_identity(self.0@)
    }

    /// Creates an operation identity.
    ///
    /// Identities are deliberately conservative because they are used in
    /// generated clients, contract snapshots, and internal service calls.
    pub fn new(value: &str) -> (result: Result<Self, InvalidOperationId>)
        ensures
            result is Ok <==> is_identity(value@),
            result matches Ok(id) ==> id@ == value@,
            result matches Err(error) ==> error@ == value@,
    {
        let characters = chars_of(value);
        let mut valid = characters.len() > 0;
        let mut index: usize = 0;
        while index < characters.len() && valid
            invariant
                index <= characters@.len(),
                characters@ == value@,
                valid ==> characters@.len() > 0,
                valid ==> forall|i: int| 0 <= i < index ==> identity_char(#[trigger] value@[i]),
                !valid ==> !is_identity(value@),
            decreases characters@.len() - index,
        {
            let character = characters[index];
            valid = ('a' <= character && character <= 'z') || ('A' <= character && character <= 'Z')
                || ('0' <= character && character <= '9') || character == '.' || character == '-'
                || character == '_';
            assert(valid == identity_char(value@[index as int]));
            index += 1;
        }
        if valid {
            Ok(OperationId(value.to_owned()))
        } else {
            Err(InvalidOperationId { value: value.to_owned() })
        }
    }

    #[must_use]
    pub fn as_str(&self) -> (text: &str)
        ensures
            text@ == self@,
            is_identity(text@),
    {
        proof {
            use_type_invariant(self);
        }
        self.0.as_str()
    }

}

impl Clone for OperationId {
    fn clone(&self) -> (copy: Self)
        ensures
            copy@ == self@,
    {
        proof {
            use_type_invariant(self);
        }
        OperationId(self.0.clone())
    }
}

/// How a text is written in the debugging notation of the standard library:
/// quoted and escaped.
pub uninterp spec fn debug_notation(text: Seq<char>) -> Seq<char>;

/// Formats a text with `format!("{:?}")`. Nothing beyond the dependence of the
/// output on the text alone is claimed.
#[verifier::external_body]
pub(crate) fn debug_text(text: &str) -> (quoted: String)
    ensures
        quoted@ == debug_notation(text@),
{
    format!("{text:?}")
}

impl InvalidOperationId {
    #[must_use]
    pub fn value(&self) -> (text: &str)
        ensures
            text@ == self@,
    {
        self.value.as_str()
    }

    /// The message shown for a rejected identity.
    #[must_use]
    pub fn to_string(&self) -> (text: String)
        ensures
            text@ == "operation id "@ + debug_notation(self@)
                + " must contain only ASCII letters, digits, '.', '-' or '_'"@,
    {
        let mut text = "operation id ".to_owned();
        text.append(debug_text(self.value.as_str()).as_str());
        text.append(" must contain only ASCII letters, digits, '.', '-' or '_'");
        text
    }
}

// ---------------------------------------------------------------------------
// Schemas, rules, models and types
// ---------------------------------------------------------------------------

/// Transport-independent JSON shape.
#[derive(Debug, PartialEq, Eq)]
pub enum SchemaKind {
    String,
    Binary,
    Integer,
    Number,
    Boolean,
    Array(Box<SchemaKind>),
    Object,
    Any,
}

impl SchemaKind {
    /// Reports whether two shapes are the same.
    pub fn same(&self, other: &SchemaKind) -> (same: bool)
        ensures
            same == (*self == *other),
        decreases self,
    {
        match (self, other) {
            (SchemaKind::String, SchemaKind::String) => true,
            (SchemaKind::Binary, SchemaKind::Binary) => true,
            (SchemaKind::Integer, SchemaKind::Integer) => true,
            (SchemaKind::Number, SchemaKind::Number) => true,
            (SchemaKind::Boolean, SchemaKind::Boolean) => true,
            (SchemaKind::Array(left), SchemaKind::Array(right)) => left.same(right),
            (SchemaKind::Object, SchemaKind::Object) => true,
            (SchemaKind::Any, SchemaKind::Any) => true,
            _ => false,
        }
    }

    fn duplicate(&self) -> (copy: SchemaKind)
        ensures
            copy == *self,
        decreases self,
    {
        match self {
            SchemaKind::String => SchemaKind::String,
            SchemaKind::Binary => SchemaKind::Binary,
            SchemaKind::Integer => SchemaKind::Integer,
            SchemaKind::Number => SchemaKind::Number,
            SchemaKind::Boolean => SchemaKind::Boolean,
            SchemaKind::Array(item) => SchemaKind::Array(Box::new(item.duplicate())),
            SchemaKind::Object => SchemaKind::Object,
            SchemaKind::Any => SchemaKind::Any,
        }
    }
}

/// A validation rule attached to a field or to the elements of a type.
#[derive(Debug, PartialEq, Eq)]
pub enum ValidationRule {
    MinLength(usize),
    MaxLength(usize),
    Email,
    /// A further name under which the field is accepted.
    Alias(String),
    /// A named constraint that carries its own text.
    Custom(String),
    /// The field is validated by its own model.
    Nested,
}

/// What a validation rule says.
pub enum RuleView {
    MinLength(usize),
    MaxLength(usize),
    Email,
    Alias(Seq<char>),
    Custom(Seq<char>),
    Nested,
}

impl View for ValidationRule {
    type V = RuleView;

    open spec fn view(&self) -> RuleView {
        match self {
            ValidationRule::MinLength(value) => RuleView::MinLength(*value),
            ValidationRule::MaxLength(value) => RuleView::MaxLength(*value),
            ValidationRule::Email => RuleView::Email,
            ValidationRule::Alias(name) => RuleView::Alias(name@),
            ValidationRule::Custom(text) => RuleView::Custom(text@),
            ValidationRule::Nested => RuleView::Nested,
        }
    }
}

impl ValidationRule {
    /// Reports whether two rules say the same.
    pub fn same(&self, other: &ValidationRule) -> (same: bool)
        ensures
            same == (self@ == other@),
    {
        match (self, other) {
            (ValidationRule::MinLength(left), ValidationRule::MinLength(right)) => *left == *right,
            (ValidationRule::MaxLength(left), ValidationRule::MaxLength(right)) => *left == *right,
            (ValidationRule::Email, ValidationRule::Email) => true,
            (ValidationRule::Alias(left), ValidationRule::Alias(right)) => eq_text(left, right),
            (ValidationRule::Custom(left), ValidationRule::Custom(right)) => eq_text(left, right),
            (ValidationRule::Nested, ValidationRule::Nested) => true,
            _ => false,
        }
    }

    fn duplicate(&self) -> (copy: ValidationRule)
        ensures
            copy@ == self@,
    {
        match self {
            ValidationRule::MinLength(value) => ValidationRule::MinLength(*value),
            ValidationRule::MaxLength(value) => ValidationRule::MaxLength(*value),
            ValidationRule::Email => ValidationRule::Email,
            ValidationRule::Alias(name) => ValidationRule::Alias(name.clone()),
            ValidationRule::Custom(text) => ValidationRule::Custom(text.clone()),
            ValidationRule::Nested => ValidationRule::Nested,
        }
    }
}

/// What a list of rules says.
pub open spec fn rules_view(rules: Seq<ValidationRule>) -> Seq<RuleView> {
    rules.map_values(|rule: ValidationRule| rule@)
}

fn duplicate_rules(rules: &Vec<ValidationRule>) -> (copies: Vec<ValidationRule>)
    ensures
        rules_view(copies@) == rules_view(rules@),
{
    let mut copies: Vec<ValidationRule> = Vec::new();
    let mut index: usize = 0;
    while index < rules.len()
        invariant
            index <= rules@.len(),
            copies@.len() == index,
            forall|i: int| 0 <= i < index ==> (#[trigger] copies@[i])@ == rules@[i]@,
        decreases rules@.len() - index,
    {
        copies.push(rules[index].duplicate());
        index += 1;
    }
    assert(rules_view(copies@) =~= rules_view(rules@));
    copies
}

/// One field in an API model.
#[derive(Debug, PartialEq, Eq)]
pub struct FieldDescriptor {
    pub name: String,
    pub required: bool,
    pub ty: TypeDescriptor,
    pub validation: Vec<ValidationRule>,
}

/// A complete model used by validation, `OpenAPI`, MCP, and Markdown.
#[derive(Debug, PartialEq, Eq)]
pub struct ModelDescriptor {
    pub name: String,
    pub fields: Vec<FieldDescriptor>,
}

/// The type identity and schema of one value.
#[derive(Debug, PartialEq, Eq)]
pub struct TypeDescriptor {
    pub rust_name: String,
    pub schema: SchemaKind,
    pub model: Option<Box<ModelDescriptor>>,
    /// Complete item contract for collections.
    ///
    /// `SchemaKind::Array` retains the lightweight JSON shape while this field
    /// preserves nested model metadata for validation, `OpenAPI`, MCP, and
    /// compatibility analysis.
    pub items: Option<Box<TypeDescriptor>>,
    /// Rules every value of the type obeys wherever it is used. They are
    /// documentation metadata and take no part in the contract identity.
    pub constraints: Vec<ValidationRule>,
}

/// What a field descriptor says.
#[verifier::ext_equal]
pub struct FieldView {
    pub name: Seq<char>,
    pub required: bool,
    pub ty: TypeView,
    pub validation: Seq<RuleView>,
}

/// What a model descriptor says.
#[verifier::ext_equal]
pub struct ModelView {
    pub name: Seq<char>,
    pub fields: Seq<FieldView>,
}

/// What a type descriptor says.
#[verifier::ext_equal]
pub struct TypeView {
    pub rust_name: Seq<char>,
    pub schema: SchemaKind,
    pub model: Option<Box<ModelView>>,
    pub items: Option<Box<TypeView>>,
    pub constraints: Seq<RuleView>,
}

/// The view of a field.
pub open spec fn field_view(field: FieldDescriptor) -> FieldView
    decreases field,
{
    FieldView {
        name: field.name@,
        required: field.required,
        ty: type_view(field.ty),
        validation: rules_view(field.validation@),
    }
}

/// The view of a model.
pub open spec fn model_view(model: ModelDescriptor) -> ModelView
    decreases model,
{
    ModelView {
        name: model.name@,
        fields: Seq::new(
            model.fields@.len(),
            |i: int|
                if 0 <= i < model.fields@.len() {
                    field_view(model.fields@[i])
                } else {
                    arbitrary()
                },
        ),
    }
}

/// The view of a type.
pub open spec fn type_view(ty: TypeDescriptor) -> TypeView
    decreases ty,
{
    TypeView {
        rust_name: ty.rust_name@,
        schema: ty.schema,
        model: match ty.model {
            Some(model) => Some(Box::new(model_view(*model))),
            None => None,
        },
        items: match ty.items {
            Some(items) => Some(Box::new(type_view(*items))),
            None => None,
        },
        constraints: rules_view(ty.constraints@),
    }
}

impl View for FieldDescriptor {
    type V = FieldView;

    open spec fn view(&self) -> FieldView {
        field_view(*self)
    }
}

impl View for ModelDescriptor {
    type V = ModelView;

    open spec fn view(&self) -> ModelView {
        model_view(*self)
    }
}

impl View for TypeDescriptor {
    type V = TypeView;

    open spec fn view(&self) -> TypeView {
        type_view(*self)
    }
}

impl FieldDescriptor {
    #[must_use]
    pub fn new(
        name: &str,
        required: bool,
        ty: TypeDescriptor,
        validation: Vec<ValidationRule>,
    ) -> (field: Self)
        ensures
            field@ == (FieldView {
                name: name@,
                required,
                ty: ty@,
                validation: rules_view(validation@),
            }),
    {
        FieldDescriptor { name: name.to_owned(), required, ty, validation }
    }

    fn duplicate(&self) -> (copy: FieldDescriptor)
        ensures
            copy@ == self@,
        decreases self,
    {
        FieldDescriptor {
            name: self.name.clone(),
            required: self.required,
            ty: self.ty.duplicate(),
            validation: duplicate_rules(&self.validation),
        }
    }
}

impl ModelDescriptor {
    #[must_use]
    pub fn new(name: &str, fields: Vec<FieldDescriptor>) -> (model: Self)
        ensures
            model@.name == name@,
            model.fields == fields,
    {
        ModelDescriptor { name: name.to_owned(), fields }
    }

    fn duplicate(&self) -> (copy: ModelDescriptor)
        ensures
            copy@ == self@,
        decreases self,
    {
        let mut fields: Vec<FieldDescriptor> = Vec::new();
        let mut index: usize = 0;
        while index < self.fields.len()
            invariant
                index <= self.fields@.len(),
                fields@.len() == index,
                forall|i: int|
                    0 <= i < index ==> field_view(#[trigger] fields@[i]) == field_view(
                        self.fields@[i],
                    ),
            decreases self.fields@.len() - index,
        {
            fields.push(self.fields[index].duplicate());
            index += 1;
        }
        let copy = ModelDescriptor { name: self.name.clone(), fields };
        assert forall|i: int| 0 <= i < copy@.fields.len() implies copy@.fields[i]
            == self@.fields[i] by {
            assert(field_view(copy.fields@[i]) == field_view(self.fields@[i]));
        }
        assert(copy@.fields =~= self@.fields);
        copy
    }
}

impl TypeDescriptor {
    #[must_use]
    pub fn new(rust_name: &str) -> (ty: Self)
        ensures
            ty@ == (TypeView {
                rust_name: rust_name@,
                schema: SchemaKind::Any,
                model: None,
                items: None,
                constraints: Seq::empty(),
            }),
    {
        TypeDescriptor::scalar(rust_name, SchemaKind::Any)
    }

    #[must_use]
    pub fn scalar(rust_name: &str, schema: SchemaKind) -> (ty: Self)
        ensures
            ty@ == scalar_view(rust_name@, schema),
    {
        let ty = TypeDescriptor {
            rust_name: rust_name.to_owned(),
            schema,
            model: None,
            items: None,
            constraints: Vec::new(),
        };
        assert(ty@ =~= scalar_view(rust_name@, schema));
        ty
    }

    #[must_use]
    pub fn model(model: ModelDescriptor) -> (ty: Self)
        ensures
            ty@ == model_type_view(model@),
    {
        let ghost view = model@;
        let ty = TypeDescriptor {
            rust_name: model.name.clone(),
            schema: SchemaKind::Object,
            model: Some(Box::new(model)),
            items: None,
            constraints: Vec::new(),
        };
        assert(ty@ =~= model_type_view(view));
        ty
    }

    /// The same type with element constraints.
    #[must_use]
    pub fn with_constraints(self, constraints: Vec<ValidationRule>) -> (ty: Self)
        ensures
            ty@ == (TypeView { constraints: rules_view(constraints@), ..self@ }),
    {
        TypeDescriptor {
            rust_name: self.rust_name,
            schema: self.schema,
            model: self.model,
            items: self.items,
            constraints,
        }
    }

    fn duplicate(&self) -> (copy: TypeDescriptor)
        ensures
            copy@ == self@,
        decreases self,
    {
        let model = match &self.model {
            Some(model) => Some(Box::new(model.duplicate())),
            None => None,
        };
        let items = match &self.items {
            Some(items) => Some(Box::new(items.duplicate())),
            None => None,
        };
        TypeDescriptor {
            rust_name: self.rust_name.clone(),
            schema: self.schema.duplicate(),
            model,
            items,
            constraints: duplicate_rules(&self.constraints),
        }
    }
}

impl Clone for SchemaKind {
    fn clone(&self) -> (copy: Self)
        ensures
            copy == *self,
    {
        self.duplicate()
    }
}

impl Clone for ValidationRule {
    fn clone(&self) -> (copy: Self)
        ensures
            copy@ == self@,
    {
        self.duplicate()
    }
}

impl Clone for FieldDescriptor {
    fn clone(&self) -> (copy: Self)
        ensures
            copy@ == self@,
    {
        self.duplicate()
    }
}

impl Clone for ModelDescriptor {
    fn clone(&self) -> (copy: Self)
        ensures
            copy@ == self@,
    {
        self.duplicate()
    }
}

impl Clone for TypeDescriptor {
    fn clone(&self) -> (copy: Self)
        ensures
            copy@ == self@,
    {
        self.duplicate()
    }
}

/// The view of a type that is fully described by its shape.
pub open spec fn scalar_view(rust_name: Seq<char>, schema: SchemaKind) -> TypeView {
    TypeView { rust_name, schema, model: None, items: None, constraints: Seq::empty() }
}

/// The view of a type that is described by a model.
pub open spec fn model_type_view(model: ModelView) -> TypeView {
    TypeView {
        rust_name: model.name,
        schema: SchemaKind::Object,
        model: Some(Box::new(model)),
        items: None,
        constraints: Seq::empty(),
    }
}

/// The view of a collection of values of one type.
pub open spec fn list_view(item: TypeView) -> TypeView {
    TypeView {
        rust_name: "Vec<"@ + item.rust_name + ">"@,
        schema: SchemaKind::Array(Box::new(item.schema)),
        model: None,
        items: Some(Box::new(item)),
        constraints: Seq::empty(),
    }
}

/// An identity is a text of letters, digits, dots, dashes and underscores; it is
/// not empty, and holds no slash, no colon and no white space.
pub proof fn law_identities_are_plain(text: Seq<char>)
    ensures
        is_identity("a.b-c_9"@),
        is_identity(text) ==> text.len() > 0,
        is_identity(text) ==> forall|i: int|
            0 <= i < text.len() ==> #[trigger] text[i] != '/' && text[i] != ' ' && text[i] != ':'
                && text[i] != '\n' && text[i] < '\x7f',
        text.len() > 0 && (forall|i: int|
            0 <= i < text.len() ==> 'a' <= #[trigger] text[i] <= 'z' || '0' <= text[i] <= '9'
                || text[i] == '.' || text[i] == '-' || text[i] == '_' || 'A' <= text[i] <= 'Z')
            ==> is_identity(text),
{
    reveal_strlit("a.b-c_9");
}

} // verus!
