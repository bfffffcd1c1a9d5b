//! Semantic comparison of two versions of one operation contract.
use crate::canonical::{
    exposure_tag, exposure_tag_spec, fingerprint_of, risk_tag, risk_tag_spec, version_text,
    ContractFingerprint,
};
use crate::contract::{
    field_view, FieldDescriptor, FieldView, ModelDescriptor, ModelView, RuleView, TypeDescriptor,
    TypeView, ValidationRule,
};
use crate::contract::rules_view;
use crate::operation::{
    dependencies_view, headers_view, inputs_view, opt_text, responses_view, security_view, texts,
    Confirmation, ContractView, DependencyDescriptor, HeaderView, InputDescriptor, InputSource,
    InputView, OperationContract, OperationRisk, OutputExposure, ResponseDescriptor,
    ResponseHeader, ResponseView, SecurityRequirement, SecurityView,
};
use crate::text::{
    decimal, decimal_text, eq_ignore_ascii_case, eq_text, lemma_before_irreflexive,
    lemma_before_total, lemma_before_transitive, lower_all, lower_text, text_before,
    text_before_spec,
};
use vstd::prelude::*;
use vstd::string::*;

verus! {

// ---------------------------------------------------------------------------
// Changes and reports
// ---------------------------------------------------------------------------

/// Compatibility impact of one semantic contract change.
#[derive(Clone, Copy, Debug, PartialEq, Eq, Structural)]
pub enum CompatibilityImpact {
    Breaking,
    NonBreaking,
    Metadata,
}

/// One deterministic compatibility finding.
#[derive(Clone, Debug, PartialEq, Eq)]
pub struct CompatibilityChange {
    pub impact: CompatibilityImpact,
    pub path: String,
    pub code: String,
    pub message: String,
}

/// What a finding says.
pub struct ChangeView {
    pub impact: CompatibilityImpact,
    pub path: Seq<char>,
    pub code: Seq<char>,
    pub message: Seq<char>,
}

impl View for CompatibilityChange {
    type V = ChangeView;

    open spec fn view(&self) -> ChangeView {
        ChangeView {
            impact: self.impact,
            path: self.path@,
            code: self.code@,
            message: self.message@,
        }
    }
}

/// What a list of findings says.
pub open spec fn changes_view(changes: Seq<CompatibilityChange>) -> Seq<ChangeView> {
    changes.map_values(|change: CompatibilityChange| change@)
}

/// A list with one finding.
pub open spec fn one(
    impact: CompatibilityImpact,
    path: Seq<char>,
    code: Seq<char>,
    message: Seq<char>,
) -> Seq<ChangeView> {
    seq![ChangeView { impact, path, code, message }]
}

/// `Breaking` when the condition holds, `NonBreaking` otherwise.
pub open spec fn breaking_when(condition: bool) -> CompatibilityImpact {
    if condition {
        CompatibilityImpact::Breaking
    } else {
        CompatibilityImpact::NonBreaking
    }
}

fn impact_when(condition: bool) -> (impact: CompatibilityImpact)
    ensures
        impact == breaking_when(condition),
{
    if condition {
        CompatibilityImpact::Breaking
    } else {
        CompatibilityImpact::NonBreaking
    }
}

impl CompatibilityChange {
    #[must_use]
    pub fn new(impact: CompatibilityImpact, path: &str, code: &str, message: &str) -> (change: Self)
        ensures
            change@ == (ChangeView { impact, path: path@, code: code@, message: message@ }),
    {
        CompatibilityChange {
            impact,
            path: path.to_owned(),
            code: code.to_owned(),
            message: message.to_owned(),
        }
    }
}

/// Semantic compatibility report between two versions of one operation.
#[derive(Clone, Debug, PartialEq, Eq)]
pub struct CompatibilityReport {
    pub previous: ContractFingerprint,
    pub current: ContractFingerprint,
    pub changes: Vec<CompatibilityChange>,
}

/// The findings with breaking impact, in order.
pub open spec fn breaking_only(changes: Seq<ChangeView>) -> Seq<ChangeView> {
    changes.filter(|change: ChangeView| change.impact == CompatibilityImpact::Breaking)
}

impl CompatibilityReport {
    #[must_use]
    pub fn is_backward_compatible(&self) -> (compatible: bool)
        ensures
            compatible <==> forall|i: int|
                0 <= i < self.changes@.len() ==> (#[trigger] self.changes@[i]).impact
                    != CompatibilityImpact::Breaking,
    {
        let mut index: usize = 0;
        while index < self.changes.len()
            invariant
                index <= self.changes@.len(),
                forall|i: int|
                    0 <= i < index ==> (#[trigger] self.changes@[i]).impact
                        != CompatibilityImpact::Breaking,
            decreases self.changes@.len() - index,
        {
            if self.changes[index].impact == CompatibilityImpact::Breaking {
                return false;
            }
            index += 1;
        }
        true
    }

    /// The findings with breaking impact, in report order.
    pub fn breaking_changes(&self) -> (breaking: Vec<&CompatibilityChange>)
        ensures
            breaking@.map_values(|change: &CompatibilityChange| change@) == breaking_only(
                changes_view(self.changes@),
            ),
    {
        let mut breaking: Vec<&CompatibilityChange> = Vec::new();
        let ghost all = changes_view(self.changes@);
        let mut index: usize = 0;
        proof {
            assert(all.take(0) =~= Seq::empty());
            reveal(Seq::filter);
            assert(breaking@.map_values(|change: &CompatibilityChange| change@) =~= breaking_only(
                all.take(0),
            ));
        }
        while index < self.changes.len()
            invariant
                index <= self.changes@.len(),
                all == changes_view(self.changes@),
                breaking@.map_values(|change: &CompatibilityChange| change@) == breaking_only(
                    all.take(index as int),
                ),
            decreases self.changes@.len() - index,
        {
            let change = &self.changes[index];
            let ghost before = breaking@.map_values(|change: &CompatibilityChange| change@);
            proof {
                reveal(Seq::filter);
                assert(all.take(index + 1).drop_last() =~= all.take(index as int));
                assert(all.take(index + 1).last() == change@);
            }
            if change.impact == CompatibilityImpact::Breaking {
                breaking.push(change);
                assert(breaking@.map_values(|change: &CompatibilityChange| change@) =~= before.push(
                    change@,
                ));
            }
            index += 1;
        }
        assert(all.take(all.len() as int) =~= all);
        breaking
    }
}

fn report(
    changes: &mut Vec<CompatibilityChange>,
    impact: CompatibilityImpact,
    path: &str,
    code: &str,
    message: &str,
)
    ensures
        changes_view(final(changes)@) == changes_view(old(changes)@) + one(
            impact,
            path@,
            code@,
            message@,
        ),
{
    changes.push(CompatibilityChange::new(impact, path, code, message));
    assert(changes_view(changes@) =~= changes_view(old(changes)@) + one(
        impact,
        path@,
        code@,
        message@,
    ));
}

fn joined(left: &str, right: &str) -> (text: String)
    ensures
        text@ == left@ + right@,
{
    let mut text = left.to_owned();
    text.append(right);
    text
}

// ---------------------------------------------------------------------------
// List vocabulary
// ---------------------------------------------------------------------------

/// The findings reported for each item in turn.
pub open spec fn each<A>(list: Seq<A>, found: spec_fn(A) -> Seq<ChangeView>) -> Seq<ChangeView>
    decreases list.len(),
{
    if list.len() == 0 {
        Seq::empty()
    } else {
        each(list.drop_last(), found) + found(list.last())
    }
}

/// The first item that satisfies a condition.
pub open spec fn first<A>(list: Seq<A>, hit: spec_fn(A) -> bool) -> Option<A>
    decreases list.len(),
{
    if list.len() == 0 {
        None
    } else if hit(list[0]) {
        Some(list[0])
    } else {
        first(list.drop_first(), hit)
    }
}

proof fn lemma_first_at<A>(list: Seq<A>, hit: spec_fn(A) -> bool, at: int)
    requires
        0 <= at < list.len(),
        hit(list[at]),
        forall|i: int| 0 <= i < at ==> !hit(#[trigger] list[i]),
    ensures
        first(list, hit) == Some(list[at]),
    decreases list.len(),
{
    if at > 0 {
        assert(!hit(list[0]));
        let rest = list.drop_first();
        assert forall|i: int| 0 <= i < at - 1 implies !hit(#[trigger] rest[i]) by {
            assert(!hit(list[i + 1]));
        }
        lemma_first_at(rest, hit, at - 1);
    }
}

proof fn lemma_first_none<A>(list: Seq<A>, hit: spec_fn(A) -> bool)
    requires
        forall|i: int| 0 <= i < list.len() ==> !hit(#[trigger] list[i]),
    ensures
        first(list, hit) is None,
    decreases list.len(),
{
    if list.len() > 0 {
        assert(!hit(list[0]));
        let rest = list.drop_first();
        assert forall|i: int| 0 <= i < rest.len() implies !hit(#[trigger] rest[i]) by {
            assert(!hit(list[i + 1]));
        }
        lemma_first_none(rest, hit);
    }
}

proof fn lemma_each_step<A>(list: Seq<A>, found: spec_fn(A) -> Seq<ChangeView>, at: int)
    requires
        0 <= at < list.len(),
    ensures
        each(list.take(at + 1), found) == each(list.take(at), found) + found(list[at]),
        each(list.take(0), found) == Seq::<ChangeView>::empty(),
        list.take(list.len() as int) == list,
{
    assert(list.take(at + 1).drop_last() =~= list.take(at));
    assert(list.take(at + 1).last() == list[at]);
    assert(list.take(list.len() as int) =~= list);
}

proof fn lemma_each_ends<A>(list: Seq<A>, found: spec_fn(A) -> Seq<ChangeView>)
    ensures
        each(list.take(0), found) == Seq::<ChangeView>::empty(),
        list.take(list.len() as int) == list,
{
    assert(list.take(list.len() as int) =~= list);
}

// ---------------------------------------------------------------------------
// Versions and identity
// ---------------------------------------------------------------------------

/// Findings about the contract format.
pub open spec fn version_changes(previous: ContractView, current: ContractView) -> Seq<ChangeView> {
    let message = "canonical contract format changed from "@ + version_text(previous.format_version)
        + " to "@ + version_text(current.format_version);
    if previous.format_version.major != current.format_version.major {
        one(CompatibilityImpact::Breaking, "format_version"@, "format_major_changed"@, message)
    } else if previous.format_version.minor != current.format_version.minor {
        one(CompatibilityImpact::Metadata, "format_version"@, "format_minor_changed"@, message)
    } else {
        Seq::empty()
    }
}

/// Findings about the identity and the summary.
pub open spec fn identity_changes(previous: ContractView, current: ContractView) -> Seq<
    ChangeView,
> {
    (if previous.id != current.id {
        one(
            CompatibilityImpact::Breaking,
            "id"@,
            "operation_id_changed"@,
            "operation id changed from "@ + previous.id + " to "@ + current.id,
        )
    } else {
        Seq::empty()
    }) + (if previous.summary != current.summary {
        one(
            CompatibilityImpact::Metadata,
            "summary"@,
            "summary_changed"@,
            "operation summary changed"@,
        )
    } else {
        Seq::empty()
    })
}

fn compare_versions(
    previous: &OperationContract,
    current: &OperationContract,
    changes: &mut Vec<CompatibilityChange>,
)
    ensures
        changes_view(final(changes)@) == changes_view(old(changes)@) + version_changes(
            previous@,
            current@,
        ),
{
    let mut message = "canonical contract format changed from ".to_owned();
    message.append(previous.format_version.to_string().as_str());
    message.append(" to ");
    message.append(current.format_version.to_string().as_str());
    if previous.format_version.major != current.format_version.major {
        report(
            changes,
            CompatibilityImpact::Breaking,
            "format_version",
            "format_major_changed",
            message.as_str(),
        );
    } else if previous.format_version.minor != current.format_version.minor {
        report(
            changes,
            CompatibilityImpact::Metadata,
            "format_version",
            "format_minor_changed",
            message.as_str(),
        );
    }
    assert(changes_view(changes@) =~= changes_view(old(changes)@) + version_changes(
        previous@,
        current@,
    ));
}

fn compare_identity(
    previous: &OperationContract,
    current: &OperationContract,
    changes: &mut Vec<CompatibilityChange>,
)
    ensures
        changes_view(final(changes)@) == changes_view(old(changes)@) + identity_changes(
            previous@,
            current@,
        ),
{
    if !eq_text(previous.id.as_str(), current.id.as_str()) {
        let mut message = "operation id changed from ".to_owned();
        message.append(previous.id.as_str());
        message.append(" to ");
        message.append(current.id.as_str());
        report(
            changes,
            CompatibilityImpact::Breaking,
            "id",
            "operation_id_changed",
            message.as_str(),
        );
    }
    if !eq_text(previous.summary.as_str(), current.summary.as_str()) {
        report(
            changes,
            CompatibilityImpact::Metadata,
            "summary",
            "summary_changed",
            "operation summary changed",
        );
    }
    assert(changes_view(changes@) =~= changes_view(old(changes)@) + identity_changes(
        previous@,
        current@,
    ));
}

// ---------------------------------------------------------------------------
// Validation rules
// ---------------------------------------------------------------------------

/// Whether a type is read from a request or written to a response.
#[derive(Clone, Copy, Debug, PartialEq, Eq, Structural)]
pub enum TypeDirection {
    Input,
    Output,
}

/// The largest declared minimum length.
pub open spec fn min_length(rules: Seq<RuleView>) -> Option<usize>
    decreases rules.len(),
{
    if rules.len() == 0 {
        None
    } else {
        let rest = min_length(rules.drop_last());
        match rules.last() {
            RuleView::MinLength(value) => match rest {
                Some(other) if other > value => Some(other),
                _ => Some(value),
            },
            _ => rest,
        }
    }
}

/// The smallest declared maximum length.
pub open spec fn max_length(rules: Seq<RuleView>) -> Option<usize>
    decreases rules.len(),
{
    if rules.len() == 0 {
        None
    } else {
        let rest = max_length(rules.drop_last());
        match rules.last() {
            RuleView::MaxLength(value) => match rest {
                Some(other) if other < value => Some(other),
                _ => Some(value),
            },
            _ => rest,
        }
    }
}

/// A declared number or zero.
pub open spec fn or_zero(value: Option<usize>) -> usize {
    match value {
        Some(value) => value,
        None => 0,
    }
}

/// A maximum is stricter when it appears or shrinks.
pub open spec fn stricter_max(old: Option<usize>, new: Option<usize>) -> bool {
    match (old, new) {
        (None, Some(_)) => true,
        (Some(old), Some(new)) => new < old,
        _ => false,
    }
}

/// Findings about the rules of a field.
pub open spec fn rule_changes(
    previous: Seq<RuleView>,
    current: Seq<RuleView>,
    path: Seq<char>,
    direction: TypeDirection,
) -> Seq<ChangeView> {
    if direction == TypeDirection::Output {
        if previous != current {
            one(
                CompatibilityImpact::Metadata,
                path + ".validation"@,
                "output_validation_changed"@,
                "output model validation metadata changed"@,
            )
        } else {
            Seq::empty()
        }
    } else {
        let old_email = previous.contains(RuleView::Email);
        let new_email = current.contains(RuleView::Email);
        (if min_length(previous) != min_length(current) {
            one(
                breaking_when(or_zero(min_length(current)) > or_zero(min_length(previous))),
                path + ".validation.min_length"@,
                "minimum_length_changed"@,
                "minimum accepted length changed"@,
            )
        } else {
            Seq::empty()
        }) + (if max_length(previous) != max_length(current) {
            one(
                breaking_when(stricter_max(max_length(previous), max_length(current))),
                path + ".validation.max_length"@,
                "maximum_length_changed"@,
                "maximum accepted length changed"@,
            )
        } else {
            Seq::empty()
        }) + (if old_email != new_email {
            one(
                breaking_when(new_email),
                path + ".validation.email"@,
                "email_validation_changed"@,
                "email validation changed"@,
            )
        } else {
            Seq::empty()
        })
    }
}

fn same_rules(previous: &Vec<ValidationRule>, current: &Vec<ValidationRule>) -> (same: bool)
    ensures
        same == (rules_view(previous@) == rules_view(current@)),
{
    if previous.len() != current.len() {
        assert(rules_view(previous@).len() != rules_view(current@).len());
        return false;
    }
    let mut index: usize = 0;
    while index < previous.len()
        invariant
            index <= previous@.len(),
            previous@.len() == current@.len(),
            forall|i: int| 0 <= i < index ==> (#[trigger] previous@[i])@ == current@[i]@,
        decreases previous@.len() - index,
    {
        if !previous[index].same(&current[index]) {
            assert(rules_view(previous@)[index as int] != rules_view(current@)[index as int]);
            return false;
        }
        index += 1;
    }
    assert(rules_view(previous@) =~= rules_view(current@));
    true
}

fn strictest_min(rules: &Vec<ValidationRule>) -> (value: Option<usize>)
    ensures
        value == min_length(rules_view(rules@)),
{
    let ghost views = rules_view(rules@);
    let mut best: Option<usize> = None;
    let mut index: usize = 0;
    assert(views.take(0) =~= Seq::empty());
    while index < rules.len()
        invariant
            index <= rules@.len(),
            views == rules_view(rules@),
            best == min_length(views.take(index as int)),
        decreases rules@.len() - index,
    {
        proof {
            assert(views.take(index + 1).drop_last() =~= views.take(index as int));
            assert(views.take(index + 1).last() == rules@[index as int]@);
        }
        match &rules[index] {
            ValidationRule::MinLength(value) => {
                best = match best {
                    Some(other) if other > *value => Some(other),
                    _ => Some(*value),
                };
            },
            _ => {},
        }
        index += 1;
    }
    assert(views.take(views.len() as int) =~= views);
    best
}

fn strictest_max(rules: &Vec<ValidationRule>) -> (value: Option<usize>)
    ensures
        value == max_length(rules_view(rules@)),
{
    let ghost views = rules_view(rules@);
    let mut best: Option<usize> = None;
    let mut index: usize = 0;
    assert(views.take(0) =~= Seq::empty());
    while index < rules.len()
        invariant
            index <= rules@.len(),
            views == rules_view(rules@),
            best == max_length(views.take(index as int)),
        decreases rules@.len() - index,
    {
        proof {
            assert(views.take(index + 1).drop_last() =~= views.take(index as int));
            assert(views.take(index + 1).last() == rules@[index as int]@);
        }
        match &rules[index] {
            ValidationRule::MaxLength(value) => {
                best = match best {
                    Some(other) if other < *value => Some(other),
                    _ => Some(*value),
                };
            },
            _ => {},
        }
        index += 1;
    }
    assert(views.take(views.len() as int) =~= views);
    best
}

fn has_email(rules: &Vec<ValidationRule>) -> (found: bool)
    ensures
        found == rules_view(rules@).contains(RuleView::Email),
{
    let mut index: usize = 0;
    while index < rules.len()
        invariant
            index <= rules@.len(),
            forall|i: int| 0 <= i < index ==> (#[trigger] rules_view(rules@)[i]) != RuleView::Email,
        decreases rules@.len() - index,
    {
        if rules[index].same(&ValidationRule::Email) {
            assert(rules_view(rules@)[index as int] == RuleView::Email);
            return true;
        }
        index += 1;
    }
    false
}

fn same_bound(left: Option<usize>, right: Option<usize>) -> (same: bool)
    ensures
        same == (left == right),
{
    match (left, right) {
        (Some(a), Some(b)) => a == b,
        (None, None) => true,
        _ => false,
    }
}

fn compare_validation(
    previous: &Vec<ValidationRule>,
    current: &Vec<ValidationRule>,
    path: &str,
    direction: TypeDirection,
    changes: &mut Vec<CompatibilityChange>,
)
    ensures
        changes_view(final(changes)@) == changes_view(old(changes)@) + rule_changes(
            rules_view(previous@),
            rules_view(current@),
            path@,
            direction,
        ),
{
    if direction == TypeDirection::Output {
        if !same_rules(previous, current) {
            report(
                changes,
                CompatibilityImpact::Metadata,
                joined(path, ".validation").as_str(),
                "output_validation_changed",
                "output model validation metadata changed",
            );
        }
    } else {
        compare_min_length(previous, current, path, changes);
        compare_max_length(previous, current, path, changes);
        let old_email = has_email(previous);
        let new_email = has_email(current);
        if old_email != new_email {
            report(
                changes,
                impact_when(new_email),
                joined(path, ".validation.email").as_str(),
                "email_validation_changed",
                "email validation changed",
            );
        }
    }
    assert(changes_view(changes@) =~= changes_view(old(changes)@) + rule_changes(
        rules_view(previous@),
        rules_view(current@),
        path@,
        direction,
    ));
}

fn compare_min_length(
    previous: &Vec<ValidationRule>,
    current: &Vec<ValidationRule>,
    path: &str,
    changes: &mut Vec<CompatibilityChange>,
)
    ensures
        changes_view(final(changes)@) == changes_view(old(changes)@) + (if min_length(
            rules_view(previous@),
        ) != min_length(rules_view(current@)) {
            one(
                breaking_when(
                    or_zero(min_length(rules_view(current@))) > or_zero(
                        min_length(rules_view(previous@)),
                    ),
                ),
                path@ + ".validation.min_length"@,
                "minimum_length_changed"@,
                "minimum accepted length changed"@,
            )
        } else {
            Seq::empty()
        }),
{
    let before = strictest_min(previous);
    let after = strictest_min(current);
    if !same_bound(before, after) {
        report(
            changes,
            impact_when(after.unwrap_or(0) > before.unwrap_or(0)),
            joined(path, ".validation.min_length").as_str(),
            "minimum_length_changed",
            "minimum accepted length changed",
        );
    } else {
        assert(changes_view(changes@) =~= changes_view(old(changes)@) + Seq::empty());
    }
}

fn compare_max_length(
    previous: &Vec<ValidationRule>,
    current: &Vec<ValidationRule>,
    path: &str,
    changes: &mut Vec<CompatibilityChange>,
)
    ensures
        changes_view(final(changes)@) == changes_view(old(changes)@) + (if max_length(
            rules_view(previous@),
        ) != max_length(rules_view(current@)) {
            one(
                breaking_when(
                    stricter_max(
                        max_length(rules_view(previous@)),
                        max_length(rules_view(current@)),
                    ),
                ),
                path@ + ".validation.max_length"@,
                "maximum_length_changed"@,
                "maximum accepted length changed"@,
            )
        } else {
            Seq::empty()
        }),
{
    let before = strictest_max(previous);
    let after = strictest_max(current);
    if !same_bound(before, after) {
        let stricter = match (before, after) {
            (None, Some(_)) => true,
            (Some(old_value), Some(new_value)) => new_value < old_value,
            _ => false,
        };
        report(
            changes,
            impact_when(stricter),
            joined(path, ".validation.max_length").as_str(),
            "maximum_length_changed",
            "maximum accepted length changed",
        );
    } else {
        assert(changes_view(changes@) =~= changes_view(old(changes)@) + Seq::empty());
    }
}

// ---------------------------------------------------------------------------
// Types and models
// ---------------------------------------------------------------------------

/// Findings about a type. A changed wire shape hides everything below it.
pub open spec fn type_changes(
    previous: TypeView,
    current: TypeView,
    path: Seq<char>,
    direction: TypeDirection,
) -> Seq<ChangeView>
    decreases previous,
{
    if previous.schema != current.schema {
        one(
            CompatibilityImpact::Breaking,
            path + ".schema"@,
            "schema_changed"@,
            "wire schema changed"@,
        )
    } else {
        let renamed = if previous.rust_name != current.rust_name {
            one(
                CompatibilityImpact::Metadata,
                path + ".rust_name"@,
                "rust_type_name_changed"@,
                "Rust type name changed without changing the wire shape"@,
            )
        } else {
            Seq::empty()
        };
        let items = match (previous.items, current.items) {
            (Some(a), Some(b)) => type_changes(*a, *b, path + ".items"@, direction),
            (Some(_), None) => one(
                CompatibilityImpact::Breaking,
                path + ".items"@,
                "collection_item_contract_removed"@,
                "collection item contract precision was removed"@,
            ),
            (None, Some(_)) => one(
                breaking_when(direction == TypeDirection::Input),
                path + ".items"@,
                "collection_item_contract_added"@,
                "collection item contract precision was added"@,
            ),
            (None, None) => Seq::empty(),
        };
        let model = match (previous.model, current.model) {
            (Some(a), Some(b)) => model_changes(*a, *b, path, direction),
            (Some(_), None) => one(
                CompatibilityImpact::Breaking,
                path + ".model"@,
                "model_contract_removed"@,
                "model contract precision was removed"@,
            ),
            (None, Some(_)) => one(
                breaking_when(direction == TypeDirection::Input),
                path + ".model"@,
                "model_contract_added"@,
                "model contract precision was added"@,
            ),
            (None, None) => Seq::empty(),
        };
        renamed + items + model
    }
}

/// Findings about a model: its name, the fields it kept or lost, and the
/// fields it gained.
pub open spec fn model_changes(
    previous: ModelView,
    current: ModelView,
    path: Seq<char>,
    direction: TypeDirection,
) -> Seq<ChangeView>
    decreases previous,
{
    (if previous.name != current.name {
        one(
            CompatibilityImpact::Metadata,
            path + ".model.name"@,
            "model_name_changed"@,
            "model name changed without changing its wire shape"@,
        )
    } else {
        Seq::empty()
    }) + kept_fields(previous.fields, current.fields, path, direction) + each(
        current.fields,
        |field: FieldView| added_field(field, previous.fields, path, direction),
    )
}

/// Findings about the fields declared before.
pub open spec fn kept_fields(
    previous: Seq<FieldView>,
    current: Seq<FieldView>,
    path: Seq<char>,
    direction: TypeDirection,
) -> Seq<ChangeView>
    decreases previous,
{
    if previous.len() == 0 {
        Seq::empty()
    } else {
        kept_fields(previous.drop_last(), current, path, direction) + kept_field(
            previous[previous.len() - 1],
            current,
            path,
            direction,
        )
    }
}

/// Findings about one field declared before.
pub open spec fn kept_field(
    previous: FieldView,
    current: Seq<FieldView>,
    path: Seq<char>,
    direction: TypeDirection,
) -> Seq<ChangeView>
    decreases previous,
{
    let field_path = path + ".fields."@ + previous.name;
    match first(current, |field: FieldView| field.name == previous.name) {
        None => one(
            CompatibilityImpact::Breaking,
            field_path,
            "model_field_removed"@,
            "a model field was removed"@,
        ),
        Some(field) => (if previous.required != field.required {
            one(
                breaking_when((direction == TypeDirection::Input) == field.required),
                field_path + ".required"@,
                "model_field_requiredness_changed"@,
                "model field requiredness changed"@,
            )
        } else {
            Seq::empty()
        }) + type_changes(previous.ty, field.ty, field_path + ".type"@, direction) + rule_changes(
            previous.validation,
            field.validation,
            field_path,
            direction,
        ),
    }
}

/// The finding about a field that was not declared before.
pub open spec fn added_field(
    field: FieldView,
    previous: Seq<FieldView>,
    path: Seq<char>,
    direction: TypeDirection,
) -> Seq<ChangeView> {
    if first(previous, |other: FieldView| other.name == field.name) is Some {
        Seq::empty()
    } else {
        one(
            breaking_when(direction == TypeDirection::Input && field.required),
            path + ".fields."@ + field.name,
            if field.required {
                "required_model_field_added"@
            } else {
                "optional_model_field_added"@
            },
            "a model field was added"@,
        )
    }
}

fn find_field(list: &Vec<FieldDescriptor>, name: &str) -> (found: Option<usize>)
    ensures
        match found {
            Some(at) => at < list@.len() && first(
                fields_view(list@),
                |field: FieldView| field.name == name@,
            ) == Some(field_view(list@[at as int])),
            None => first(fields_view(list@), |field: FieldView| field.name == name@) is None,
        },
{
    let ghost views = fields_view(list@);
    let ghost hit = |field: FieldView| field.name == name@;
    let mut index: usize = 0;
    while index < list.len()
        invariant
            index <= list@.len(),
            views == fields_view(list@),
            hit == (|field: FieldView| field.name == name@),
            forall|i: int| 0 <= i < index ==> !hit(#[trigger] views[i]),
        decreases list@.len() - index,
    {
        if eq_text(list[index].name.as_str(), name) {
            proof {
                lemma_first_at(views, hit, index as int);
            }
            return Some(index);
        }
        index += 1;
    }
    proof {
        lemma_first_none(views, hit);
    }
    None
}

/// What a list of fields says.
pub open spec fn fields_view(fields: Seq<FieldDescriptor>) -> Seq<FieldView> {
    fields.map_values(|field: FieldDescriptor| field_view(field))
}

/// The part of [`type_changes`] about collection items.
pub open spec fn item_changes(
    previous: TypeView,
    current: TypeView,
    path: Seq<char>,
    direction: TypeDirection,
) -> Seq<ChangeView> {
    match (previous.items, current.items) {
        (Some(a), Some(b)) => type_changes(*a, *b, path + ".items"@, direction),
        (Some(_), None) => one(
            CompatibilityImpact::Breaking,
            path + ".items"@,
            "collection_item_contract_removed"@,
            "collection item contract precision was removed"@,
        ),
        (None, Some(_)) => one(
            breaking_when(direction == TypeDirection::Input),
            path + ".items"@,
            "collection_item_contract_added"@,
            "collection item contract precision was added"@,
        ),
        (None, None) => Seq::empty(),
    }
}

/// The part of [`type_changes`] about the model behind a type.
pub open spec fn nested_changes(
    previous: TypeView,
    current: TypeView,
    path: Seq<char>,
    direction: TypeDirection,
) -> Seq<ChangeView> {
    match (previous.model, current.model) {
        (Some(a), Some(b)) => model_changes(*a, *b, path, direction),
        (Some(_), None) => one(
            CompatibilityImpact::Breaking,
            path + ".model"@,
            "model_contract_removed"@,
            "model contract precision was removed"@,
        ),
        (None, Some(_)) => one(
            breaking_when(direction == TypeDirection::Input),
            path + ".model"@,
            "model_contract_added"@,
            "model contract precision was added"@,
        ),
        (None, None) => Seq::empty(),
    }
}

fn compare_items(
    previous: &TypeDescriptor,
    current: &TypeDescriptor,
    path: &str,
    direction: TypeDirection,
    changes: &mut Vec<CompatibilityChange>,
)
    ensures
        changes_view(final(changes)@) == changes_view(old(changes)@) + item_changes(
            previous@,
            current@,
            path@,
            direction,
        ),
    decreases previous, 0nat,
{
    match (&previous.items, &current.items) {
        (Some(a), Some(b)) => {
            compare_type(a, b, joined(path, ".items").as_str(), direction, changes);
        },
        (Some(_), None) => {
            report(
                changes,
                CompatibilityImpact::Breaking,
                joined(path, ".items").as_str(),
                "collection_item_contract_removed",
                "collection item contract precision was removed",
            );
        },
        (None, Some(_)) => {
            report(
                changes,
                impact_when(direction == TypeDirection::Input),
                joined(path, ".items").as_str(),
                "collection_item_contract_added",
                "collection item contract precision was added",
            );
        },
        (None, None) => {
            assert(changes_view(changes@) =~= changes_view(changes@) + Seq::empty());
        },
    }
}

fn compare_nested(
    previous: &TypeDescriptor,
    current: &TypeDescriptor,
    path: &str,
    direction: TypeDirection,
    changes: &mut Vec<CompatibilityChange>,
)
    ensures
        changes_view(final(changes)@) == changes_view(old(changes)@) + nested_changes(
            previous@,
            current@,
            path@,
            direction,
        ),
    decreases previous, 0nat,
{
    match (&previous.model, &current.model) {
        (Some(a), Some(b)) => {
            compare_model(a, b, path, direction, changes);
        },
        (Some(_), None) => {
            report(
                changes,
                CompatibilityImpact::Breaking,
                joined(path, ".model").as_str(),
                "model_contract_removed",
                "model contract precision was removed",
            );
        },
        (None, Some(_)) => {
            report(
                changes,
                impact_when(direction == TypeDirection::Input),
                joined(path, ".model").as_str(),
                "model_contract_added",
                "model contract precision was added",
            );
        },
        (None, None) => {
            assert(changes_view(changes@) =~= changes_view(changes@) + Seq::empty());
        },
    }
}

#[verifier::rlimit(40)]
#[verifier::spinoff_prover]
fn compare_type(
    previous: &TypeDescriptor,
    current: &TypeDescriptor,
    path: &str,
    direction: TypeDirection,
    changes: &mut Vec<CompatibilityChange>,
)
    ensures
        changes_view(final(changes)@) == changes_view(old(changes)@) + type_changes(
            previous@,
            current@,
            path@,
            direction,
        ),
    decreases previous, 1nat,
{
    if !previous.schema.same(&current.schema) {
        report(
            changes,
            CompatibilityImpact::Breaking,
            joined(path, ".schema").as_str(),
            "schema_changed",
            "wire schema changed",
        );
        return;
    }
    if !eq_text(previous.rust_name.as_str(), current.rust_name.as_str()) {
        report(
            changes,
            CompatibilityImpact::Metadata,
            joined(path, ".rust_name").as_str(),
            "rust_type_name_changed",
            "Rust type name changed without changing the wire shape",
        );
    }
    compare_items(previous, current, path, direction, changes);
    compare_nested(previous, current, path, direction, changes);
    assert(changes_view(changes@) =~= changes_view(old(changes)@) + type_changes(
        previous@,
        current@,
        path@,
        direction,
    ));
}

fn compare_field(
    previous: &FieldDescriptor,
    current: &Vec<FieldDescriptor>,
    path: &str,
    direction: TypeDirection,
    changes: &mut Vec<CompatibilityChange>,
)
    ensures
        changes_view(final(changes)@) == changes_view(old(changes)@) + kept_field(
            previous@,
            fields_view(current@),
            path@,
            direction,
        ),
    decreases previous, 0nat,
{
    let mut field_path = joined(path, ".fields.");
    field_path.append(previous.name.as_str());
    match find_field(current, previous.name.as_str()) {
        None => {
            report(
                changes,
                CompatibilityImpact::Breaking,
                field_path.as_str(),
                "model_field_removed",
                "a model field was removed",
            );
        },
        Some(at) => {
            let field = &current[at];
            if previous.required != field.required {
                report(
                    changes,
                    impact_when((direction == TypeDirection::Input) == field.required),
                    joined(field_path.as_str(), ".required").as_str(),
                    "model_field_requiredness_changed",
                    "model field requiredness changed",
                );
            }
            compare_type(
                &previous.ty,
                &field.ty,
                joined(field_path.as_str(), ".type").as_str(),
                direction,
                changes,
            );
            compare_validation(
                &previous.validation,
                &field.validation,
                field_path.as_str(),
                direction,
                changes,
            );
        },
    }
    assert(changes_view(changes@) =~= changes_view(old(changes)@) + kept_field(
        previous@,
        fields_view(current@),
        path@,
        direction,
    ));
}

fn compare_model(
    previous: &ModelDescriptor,
    current: &ModelDescriptor,
    path: &str,
    direction: TypeDirection,
    changes: &mut Vec<CompatibilityChange>,
)
    ensures
        changes_view(final(changes)@) == changes_view(old(changes)@) + model_changes(
            previous@,
            current@,
            path@,
            direction,
        ),
    decreases previous, 0nat,
{
    let ghost before = previous@.fields;
    let ghost after = current@.fields;
    proof {
        assert(before =~= fields_view(previous.fields@));
        assert(after =~= fields_view(current.fields@));
        assert(before.take(0) =~= Seq::empty());
    }
    if !eq_text(previous.name.as_str(), current.name.as_str()) {
        report(
            changes,
            CompatibilityImpact::Metadata,
            joined(path, ".model.name").as_str(),
            "model_name_changed",
            "model name changed without changing its wire shape",
        );
    }
    let ghost start = changes_view(changes@);
    let mut index: usize = 0;
    while index < previous.fields.len()
        invariant
            index <= previous.fields@.len(),
            before == fields_view(previous.fields@),
            after == fields_view(current.fields@),
            changes_view(changes@) =~= start + kept_fields(
                before.take(index as int),
                after,
                path@,
                direction,
            ),
        decreases previous.fields@.len() - index,
    {
        compare_field(&previous.fields[index], &current.fields, path, direction, changes);
        proof {
            assert(before.take(index + 1).drop_last() =~= before.take(index as int));
            assert(before.take(index + 1)[index as int] == field_view(
                previous.fields@[index as int],
            ));
        }
        index += 1;
    }
    assert(before.take(before.len() as int) =~= before);
    let ghost middle = changes_view(changes@);
    let ghost added = |field: FieldView| added_field(field, before, path@, direction);
    let mut at: usize = 0;
    proof {
        lemma_each_ends(after, added);
    }
    while at < current.fields.len()
        invariant
            at <= current.fields@.len(),
            before == fields_view(previous.fields@),
            after == fields_view(current.fields@),
            added == (|field: FieldView| added_field(field, before, path@, direction)),
            changes_view(changes@) =~= middle + each(after.take(at as int), added),
        decreases current.fields@.len() - at,
    {
        let field = &current.fields[at];
        if find_field(&previous.fields, field.name.as_str()).is_none() {
            let mut field_path = joined(path, ".fields.");
            field_path.append(field.name.as_str());
            report(
                changes,
                impact_when(direction == TypeDirection::Input && field.required),
                field_path.as_str(),
                if field.required {
                    "required_model_field_added"
                } else {
                    "optional_model_field_added"
                },
                "a model field was added",
            );
        }
        proof {
            lemma_each_step(after, added, at as int);
        }
        at += 1;
    }
    proof {
        lemma_each_ends(after, added);
    }
    assert(changes_view(changes@) =~= changes_view(old(changes)@) + model_changes(
        previous@,
        current@,
        path@,
        direction,
    ));
}

// ---------------------------------------------------------------------------
// Inputs
// ---------------------------------------------------------------------------

/// The name of an input source.
pub open spec fn source_name_spec(source: InputSource) -> Seq<char> {
    match source {
        InputSource::Path => "path"@,
        InputSource::Query => "query"@,
        InputSource::Header => "header"@,
        InputSource::Cookie => "cookie"@,
        InputSource::Json => "json"@,
        InputSource::Form => "form"@,
        InputSource::Multipart => "multipart"@,
        InputSource::File => "file"@,
        InputSource::Stream => "stream"@,
    }
}

/// Names an input source.
pub fn input_source_name(source: InputSource) -> (name: &'static str)
    ensures
        name@ == source_name_spec(source),
{
    match source {
        InputSource::Path => "path",
        InputSource::Query => "query",
        InputSource::Header => "header",
        InputSource::Cookie => "cookie",
        InputSource::Json => "json",
        InputSource::Form => "form",
        InputSource::Multipart => "multipart",
        InputSource::File => "file",
        InputSource::Stream => "stream",
    }
}

/// The name by which an input is known; header names are case-insensitive.
pub open spec fn input_key(input: InputView) -> Seq<char> {
    if input.source == InputSource::Header {
        lower_all(input.name)
    } else {
        input.name
    }
}

/// Two inputs that callers address in the same way.
pub open spec fn same_input(left: InputView, right: InputView) -> bool {
    left.source == right.source && input_key(left) == input_key(right)
}

/// Where an input stands in a contract.
pub open spec fn input_path_spec(input: InputView) -> Seq<char> {
    "inputs."@ + source_name_spec(input.source) + "."@ + input_key(input)
}

/// Findings about an input declared before.
pub open spec fn kept_input(input: InputView, current: Seq<InputView>) -> Seq<ChangeView> {
    let path = input_path_spec(input);
    match first(current, |other: InputView| same_input(input, other)) {
        None => one(
            CompatibilityImpact::Breaking,
            path,
            "input_removed"@,
            "an accepted operation input was removed"@,
        ),
        Some(other) => (if !input.required && other.required {
            one(
                CompatibilityImpact::Breaking,
                path + ".required"@,
                "input_became_required"@,
                "an optional input became required"@,
            )
        } else if input.required && !other.required {
            one(
                CompatibilityImpact::NonBreaking,
                path + ".required"@,
                "input_became_optional"@,
                "a required input became optional"@,
            )
        } else {
            Seq::empty()
        }) + type_changes(input.ty, other.ty, path + ".type"@, TypeDirection::Input),
    }
}

/// The finding about an input that was not declared before.
pub open spec fn added_input(input: InputView, previous: Seq<InputView>) -> Seq<ChangeView> {
    if first(previous, |other: InputView| same_input(input, other)) is Some {
        Seq::empty()
    } else if input.required {
        one(
            CompatibilityImpact::Breaking,
            input_path_spec(input),
            "required_input_added"@,
            "a new required operation input was added"@,
        )
    } else {
        one(
            CompatibilityImpact::NonBreaking,
            input_path_spec(input),
            "optional_input_added"@,
            "a new optional operation input was added"@,
        )
    }
}

/// Findings about the inputs.
pub open spec fn input_changes(previous: ContractView, current: ContractView) -> Seq<ChangeView> {
    each(previous.inputs, |input: InputView| kept_input(input, current.inputs)) + each(
        current.inputs,
        |input: InputView| added_input(input, previous.inputs),
    )
}

fn same_input_key(left: &InputDescriptor, right: &InputDescriptor) -> (same: bool)
    ensures
        same == same_input(left@, right@),
{
    left.source == right.source && if left.source == InputSource::Header {
        eq_ignore_ascii_case(left.name.as_str(), right.name.as_str())
    } else {
        eq_text(left.name.as_str(), right.name.as_str())
    }
}

fn input_path(input: &InputDescriptor) -> (path: String)
    ensures
        path@ == input_path_spec(input@),
{
    let mut path = "inputs.".to_owned();
    path.append(input_source_name(input.source));
    path.append(".");
    if input.source == InputSource::Header {
        path.append(lower_text(input.name.as_str()).as_str());
    } else {
        path.append(input.name.as_str());
    }
    path
}

fn find_input(list: &Vec<InputDescriptor>, input: &InputDescriptor) -> (found: Option<usize>)
    ensures
        match found {
            Some(at) => at < list@.len() && first(inputs_view(list@), |other: InputView| same_input(input@, other)) == Some(
                list@[at as int]@,
            ),
            None => first(inputs_view(list@), |other: InputView| same_input(input@, other)) is None,
        },
{
    let ghost views = inputs_view(list@);
    let ghost hit = |other: InputView| same_input(input@, other);
    let mut index: usize = 0;
    while index < list.len()
        invariant
            index <= list@.len(),
            views == inputs_view(list@),
            hit == (|other: InputView| same_input(input@, other)),
            forall|i: int| 0 <= i < index ==> !hit(#[trigger] views[i]),
        decreases list@.len() - index,
    {
        if same_input_key(input, &list[index]) {
            proof {
                lemma_first_at(views, hit, index as int);
            }
            return Some(index);
        }
        index += 1;
    }
    proof {
        lemma_first_none(views, hit);
    }
    None
}

fn compare_input(
    input: &InputDescriptor,
    current: &Vec<InputDescriptor>,
    changes: &mut Vec<CompatibilityChange>,
)
    ensures
        changes_view(final(changes)@) == changes_view(old(changes)@) + kept_input(input@, inputs_view(current@)),
{
    let path = input_path(input);
    match find_input(current, input) {
        None => {
            report(
                changes,
                CompatibilityImpact::Breaking,
                path.as_str(),
                "input_removed",
                "an accepted operation input was removed",
            );
        },
        Some(at) => {
            let other = &current[at];
            if !input.required && other.required {
                report(
                    changes,
                    CompatibilityImpact::Breaking,
                    joined(path.as_str(), ".required").as_str(),
                    "input_became_required",
                    "an optional input became required",
                );
            } else if input.required && !other.required {
                report(
                    changes,
                    CompatibilityImpact::NonBreaking,
                    joined(path.as_str(), ".required").as_str(),
                    "input_became_optional",
                    "a required input became optional",
                );
            }
            compare_type(
                &input.ty,
                &other.ty,
                joined(path.as_str(), ".type").as_str(),
                TypeDirection::Input,
                changes,
            );
        },
    }
    assert(changes_view(changes@) =~= changes_view(old(changes)@) + kept_input(input@, inputs_view(current@)));
}

fn compare_inputs(
    previous: &OperationContract,
    current: &OperationContract,
    changes: &mut Vec<CompatibilityChange>,
)
    ensures
        changes_view(final(changes)@) == changes_view(old(changes)@) + input_changes(previous@, current@),
{
    let ghost start = changes_view(changes@);
    let ghost found = |input: InputView| kept_input(input, current@.inputs);
    let mut index: usize = 0;
    proof {
        lemma_each_ends(inputs_view(previous.inputs@), found);
    }
    while index < previous.inputs.len()
        invariant
            index <= previous.inputs@.len(),
            found == (|input: InputView| kept_input(input, current@.inputs)),
            changes_view(changes@) =~= start + each(
                inputs_view(previous.inputs@).take(index as int),
                found,
            ),
        decreases previous.inputs@.len() - index,
    {
        let item = &previous.inputs[index];
        compare_input(item, &current.inputs, changes);
        proof {
            lemma_each_step(inputs_view(previous.inputs@), found, index as int);
        }
        index += 1;
    }
    proof {
        lemma_each_ends(inputs_view(previous.inputs@), found);
    }
    let ghost start2 = changes_view(changes@);
    let ghost found2 = |input: InputView| added_input(input, previous@.inputs);
    let mut index2: usize = 0;
    proof {
        lemma_each_ends(inputs_view(current.inputs@), found2);
    }
    while index2 < current.inputs.len()
        invariant
            index2 <= current.inputs@.len(),
            found2 == (|input: InputView| added_input(input, previous@.inputs)),
            changes_view(changes@) =~= start2 + each(
                inputs_view(current.inputs@).take(index2 as int),
                found2,
            ),
        decreases current.inputs@.len() - index2,
    {
        let item = &current.inputs[index2];
        if find_input(&previous.inputs, item).is_none() {
            if item.required {
                report(
                    changes,
                    CompatibilityImpact::Breaking,
                    input_path(item).as_str(),
                    "required_input_added",
                    "a new required operation input was added",
                );
            } else {
                report(
                    changes,
                    CompatibilityImpact::NonBreaking,
                    input_path(item).as_str(),
                    "optional_input_added",
                    "a new optional operation input was added",
                );
            }
        }
        proof {
            lemma_each_step(inputs_view(current.inputs@), found2, index2 as int);
        }
        index2 += 1;
    }
    proof {
        lemma_each_ends(inputs_view(current.inputs@), found2);
    }
    assert(changes_view(changes@) =~= changes_view(old(changes)@) + input_changes(previous@, current@));
}

// ---------------------------------------------------------------------------
// Dependencies and security
// ---------------------------------------------------------------------------

/// Findings about the dependencies.
pub open spec fn dependency_changes(previous: ContractView, current: ContractView) -> Seq<
    ChangeView,
> {
    each(
        previous.dependencies,
        |name: Seq<char>|
            if current.dependencies.contains(name) {
                Seq::empty()
            } else {
                one(
                    CompatibilityImpact::NonBreaking,
                    "dependencies."@ + name,
                    "dependency_removed"@,
                    "an operation dependency was removed"@,
                )
            },
    ) + each(
        current.dependencies,
        |name: Seq<char>|
            if previous.dependencies.contains(name) {
                Seq::empty()
            } else {
                one(
                    CompatibilityImpact::Breaking,
                    "dependencies."@ + name,
                    "dependency_added"@,
                    "a new operation dependency must be provided"@,
                )
            },
    )
}

fn has_dependency(list: &Vec<DependencyDescriptor>, name: &str) -> (found: bool)
    ensures
        found == dependencies_view(list@).contains(name@),
{
    let mut index: usize = 0;
    while index < list.len()
        invariant
            index <= list@.len(),
            forall|i: int| 0 <= i < index ==> (#[trigger] dependencies_view(list@)[i]) != name@,
        decreases list@.len() - index,
    {
        if eq_text(list[index].rust_name.as_str(), name) {
            assert(dependencies_view(list@)[index as int] == name@);
            return true;
        }
        index += 1;
    }
    false
}

/// Reports whether a list of texts holds one text.
pub fn contains_text(list: &Vec<String>, text: &str) -> (found: bool)
    ensures
        found == texts(list@).contains(text@),
{
    let mut index: usize = 0;
    while index < list.len()
        invariant
            index <= list@.len(),
            forall|i: int| 0 <= i < index ==> (#[trigger] texts(list@)[i]) != text@,
        decreases list@.len() - index,
    {
        if eq_text(list[index].as_str(), text) {
            assert(texts(list@)[index as int] == text@);
            return true;
        }
        index += 1;
    }
    false
}

fn compare_dependencies(
    previous: &OperationContract,
    current: &OperationContract,
    changes: &mut Vec<CompatibilityChange>,
)
    ensures
        changes_view(final(changes)@) == changes_view(old(changes)@) + dependency_changes(previous@, current@),
{
    let ghost start = changes_view(changes@);
    let ghost found = |name: Seq<char>|
        if current@.dependencies.contains(name) {
            Seq::empty()
        } else {
            one(
                CompatibilityImpact::NonBreaking,
                "dependencies."@ + name,
                "dependency_removed"@,
                "an operation dependency was removed"@,
            )
        };
    let mut index: usize = 0;
    proof {
        lemma_each_ends(dependencies_view(previous.dependencies@), found);
    }
    while index < previous.dependencies.len()
        invariant
            index <= previous.dependencies@.len(),
            found == (|name: Seq<char>|
        if current@.dependencies.contains(name) {
            Seq::empty()
        } else {
            one(
                CompatibilityImpact::NonBreaking,
                "dependencies."@ + name,
                "dependency_removed"@,
                "an operation dependency was removed"@,
            )
        }),
            changes_view(changes@) =~= start + each(
                dependencies_view(previous.dependencies@).take(index as int),
                found,
            ),
        decreases previous.dependencies@.len() - index,
    {
        let item = &previous.dependencies[index];
        if !has_dependency(&current.dependencies, item.rust_name.as_str()) {
            report(
                changes,
                CompatibilityImpact::NonBreaking,
                joined("dependencies.", item.rust_name.as_str()).as_str(),
                "dependency_removed",
                "an operation dependency was removed",
            );
        }
        proof {
            lemma_each_step(dependencies_view(previous.dependencies@), found, index as int);
        }
        index += 1;
    }
    proof {
        lemma_each_ends(dependencies_view(previous.dependencies@), found);
    }
    let ghost start2 = changes_view(changes@);
    let ghost found2 = |name: Seq<char>|
        if previous@.dependencies.contains(name) {
            Seq::empty()
        } else {
            one(
                CompatibilityImpact::Breaking,
                "dependencies."@ + name,
                "dependency_added"@,
                "a new operation dependency must be provided"@,
            )
        };
    let mut index2: usize = 0;
    proof {
        lemma_each_ends(dependencies_view(current.dependencies@), found2);
    }
    while index2 < current.dependencies.len()
        invariant
            index2 <= current.dependencies@.len(),
            found2 == (|name: Seq<char>|
        if previous@.dependencies.contains(name) {
            Seq::empty()
        } else {
            one(
                CompatibilityImpact::Breaking,
                "dependencies."@ + name,
                "dependency_added"@,
                "a new operation dependency must be provided"@,
            )
        }),
            changes_view(changes@) =~= start2 + each(
                dependencies_view(current.dependencies@).take(index2 as int),
                found2,
            ),
        decreases current.dependencies@.len() - index2,
    {
        let item = &current.dependencies[index2];
        if !has_dependency(&previous.dependencies, item.rust_name.as_str()) {
            report(
                changes,
                CompatibilityImpact::Breaking,
                joined("dependencies.", item.rust_name.as_str()).as_str(),
                "dependency_added",
                "a new operation dependency must be provided",
            );
        }
        proof {
            lemma_each_step(dependencies_view(current.dependencies@), found2, index2 as int);
        }
        index2 += 1;
    }
    proof {
        lemma_each_ends(dependencies_view(current.dependencies@), found2);
    }
    assert(changes_view(changes@) =~= changes_view(old(changes)@) + dependency_changes(previous@, current@));
}

/// Findings about a set of declared scopes.
pub open spec fn scope_changes(
    previous: Seq<Seq<char>>,
    current: Seq<Seq<char>>,
    path: Seq<char>,
) -> Seq<ChangeView> {
    each(
        previous,
        |scope: Seq<char>|
            if current.contains(scope) {
                Seq::empty()
            } else {
                one(
                    CompatibilityImpact::NonBreaking,
                    path + "."@ + scope,
                    "security_scope_removed"@,
                    "a declared value was removed"@,
                )
            },
    ) + each(
        current,
        |scope: Seq<char>|
            if previous.contains(scope) {
                Seq::empty()
            } else {
                one(
                    CompatibilityImpact::Breaking,
                    path + "."@ + scope,
                    "security_scope_added"@,
                    "a declared value was added"@,
                )
            },
    )
}

/// Findings about a requirement declared before.
pub open spec fn kept_requirement(requirement: SecurityView, current: Seq<SecurityView>) -> Seq<
    ChangeView,
> {
    match first(current, |other: SecurityView| other.scheme == requirement.scheme) {
        None => one(
            CompatibilityImpact::NonBreaking,
            "security."@ + requirement.scheme,
            "security_requirement_removed"@,
            "a security requirement was removed"@,
        ),
        Some(other) => scope_changes(
            requirement.scopes,
            other.scopes,
            "security."@ + requirement.scheme + ".scopes"@,
        ),
    }
}

/// The finding about a requirement that was not declared before.
pub open spec fn added_requirement(
    requirement: SecurityView,
    previous: Seq<SecurityView>,
) -> Seq<ChangeView> {
    if first(previous, |other: SecurityView| other.scheme == requirement.scheme) is Some {
        Seq::empty()
    } else {
        one(
            CompatibilityImpact::Breaking,
            "security."@ + requirement.scheme,
            "security_requirement_added"@,
            "a new security requirement was added"@,
        )
    }
}

/// Findings about the security requirements.
pub open spec fn security_changes(previous: ContractView, current: ContractView) -> Seq<
    ChangeView,
> {
    each(
        previous.security,
        |requirement: SecurityView| kept_requirement(requirement, current.security),
    ) + each(
        current.security,
        |requirement: SecurityView| added_requirement(requirement, previous.security),
    )
}

fn find_requirement(list: &Vec<SecurityRequirement>, scheme: &str) -> (found: Option<usize>)
    ensures
        match found {
            Some(at) => at < list@.len() && first(security_view(list@), |other: SecurityView| other.scheme == scheme@) == Some(
                list@[at as int]@,
            ),
            None => first(security_view(list@), |other: SecurityView| other.scheme == scheme@) is None,
        },
{
    let ghost views = security_view(list@);
    let ghost hit = |other: SecurityView| other.scheme == scheme@;
    let mut index: usize = 0;
    while index < list.len()
        invariant
            index <= list@.len(),
            views == security_view(list@),
            hit == (|other: SecurityView| other.scheme == scheme@),
            forall|i: int| 0 <= i < index ==> !hit(#[trigger] views[i]),
        decreases list@.len() - index,
    {
        if eq_text(list[index].scheme.as_str(), scheme) {
            proof {
                lemma_first_at(views, hit, index as int);
            }
            return Some(index);
        }
        index += 1;
    }
    proof {
        lemma_first_none(views, hit);
    }
    None
}

fn compare_string_set(
    previous: &Vec<String>,
    current: &Vec<String>,
    path: &str,
    changes: &mut Vec<CompatibilityChange>,
)
    ensures
        changes_view(final(changes)@) == changes_view(old(changes)@) + scope_changes(texts(previous@), texts(current@), path@),
{
    let ghost start = changes_view(changes@);
    let ghost found = |scope: Seq<char>|
        if texts(current@).contains(scope) {
            Seq::empty()
        } else {
            one(
                CompatibilityImpact::NonBreaking,
                path@ + "."@ + scope,
                "security_scope_removed"@,
                "a declared value was removed"@,
            )
        };
    let mut index: usize = 0;
    proof {
        lemma_each_ends(texts(previous@), found);
    }
    while index < previous.len()
        invariant
            index <= previous@.len(),
            found == (|scope: Seq<char>|
        if texts(current@).contains(scope) {
            Seq::empty()
        } else {
            one(
                CompatibilityImpact::NonBreaking,
                path@ + "."@ + scope,
                "security_scope_removed"@,
                "a declared value was removed"@,
            )
        }),
            changes_view(changes@) =~= start + each(
                texts(previous@).take(index as int),
                found,
            ),
        decreases previous@.len() - index,
    {
        let item = &previous[index];
        if !contains_text(current, item.as_str()) {
            let mut scope_path = joined(path, ".");
            scope_path.append(item.as_str());
            report(
                changes,
                CompatibilityImpact::NonBreaking,
                scope_path.as_str(),
                "security_scope_removed",
                "a declared value was removed",
            );
        }
        proof {
            lemma_each_step(texts(previous@), found, index as int);
        }
        index += 1;
    }
    proof {
        lemma_each_ends(texts(previous@), found);
    }
    let ghost start2 = changes_view(changes@);
    let ghost found2 = |scope: Seq<char>|
        if texts(previous@).contains(scope) {
            Seq::empty()
        } else {
            one(
                CompatibilityImpact::Breaking,
                path@ + "."@ + scope,
                "security_scope_added"@,
                "a declared value was added"@,
            )
        };
    let mut index2: usize = 0;
    proof {
        lemma_each_ends(texts(current@), found2);
    }
    while index2 < current.len()
        invariant
            index2 <= current@.len(),
            found2 == (|scope: Seq<char>|
        if texts(previous@).contains(scope) {
            Seq::empty()
        } else {
            one(
                CompatibilityImpact::Breaking,
                path@ + "."@ + scope,
                "security_scope_added"@,
                "a declared value was added"@,
            )
        }),
            changes_view(changes@) =~= start2 + each(
                texts(current@).take(index2 as int),
                found2,
            ),
        decreases current@.len() - index2,
    {
        let item = &current[index2];
        if !contains_text(previous, item.as_str()) {
            let mut scope_path = joined(path, ".");
            scope_path.append(item.as_str());
            report(
                changes,
                CompatibilityImpact::Breaking,
                scope_path.as_str(),
                "security_scope_added",
                "a declared value was added",
            );
        }
        proof {
            lemma_each_step(texts(current@), found2, index2 as int);
        }
        index2 += 1;
    }
    proof {
        lemma_each_ends(texts(current@), found2);
    }
    assert(changes_view(changes@) =~= changes_view(old(changes)@) + scope_changes(texts(previous@), texts(current@), path@));
}

fn compare_security(
    previous: &OperationContract,
    current: &OperationContract,
    changes: &mut Vec<CompatibilityChange>,
)
    ensures
        changes_view(final(changes)@) == changes_view(old(changes)@) + security_changes(previous@, current@),
{
    let ghost start = changes_view(changes@);
    let ghost found = |requirement: SecurityView| kept_requirement(requirement, current@.security);
    let mut index: usize = 0;
    proof {
        lemma_each_ends(security_view(previous.security@), found);
    }
    while index < previous.security.len()
        invariant
            index <= previous.security@.len(),
            found == (|requirement: SecurityView| kept_requirement(requirement, current@.security)),
            changes_view(changes@) =~= start + each(
                security_view(previous.security@).take(index as int),
                found,
            ),
        decreases previous.security@.len() - index,
    {
        let item = &previous.security[index];
        match find_requirement(&current.security, item.scheme.as_str()) {
            None => {
                report(
                    changes,
                    CompatibilityImpact::NonBreaking,
                    joined("security.", item.scheme.as_str()).as_str(),
                    "security_requirement_removed",
                    "a security requirement was removed",
                );
            },
            Some(at) => {
                let mut scopes_path = joined("security.", item.scheme.as_str());
                scopes_path.append(".scopes");
                compare_string_set(
                    &item.scopes,
                    &current.security[at].scopes,
                    scopes_path.as_str(),
                    changes,
                );
            },
        }
        proof {
            lemma_each_step(security_view(previous.security@), found, index as int);
        }
        index += 1;
    }
    proof {
        lemma_each_ends(security_view(previous.security@), found);
    }
    let ghost start2 = changes_view(changes@);
    let ghost found2 = |requirement: SecurityView| added_requirement(requirement, previous@.security);
    let mut index2: usize = 0;
    proof {
        lemma_each_ends(security_view(current.security@), found2);
    }
    while index2 < current.security.len()
        invariant
            index2 <= current.security@.len(),
            found2 == (|requirement: SecurityView| added_requirement(requirement, previous@.security)),
            changes_view(changes@) =~= start2 + each(
                security_view(current.security@).take(index2 as int),
                found2,
            ),
        decreases current.security@.len() - index2,
    {
        let item = &current.security[index2];
        if find_requirement(&previous.security, item.scheme.as_str()).is_none() {
            report(
                changes,
                CompatibilityImpact::Breaking,
                joined("security.", item.scheme.as_str()).as_str(),
                "security_requirement_added",
                "a new security requirement was added",
            );
        }
        proof {
            lemma_each_step(security_view(current.security@), found2, index2 as int);
        }
        index2 += 1;
    }
    proof {
        lemma_each_ends(security_view(current.security@), found2);
    }
    assert(changes_view(changes@) =~= changes_view(old(changes)@) + security_changes(previous@, current@));
}

// ---------------------------------------------------------------------------
// Responses
// ---------------------------------------------------------------------------

/// Two responses that callers tell apart from all others in the same way.
pub open spec fn same_response(left: ResponseView, right: ResponseView) -> bool {
    left.status == right.status && left.error_code == right.error_code
}

/// Where a response stands in a contract.
pub open spec fn response_path_spec(response: ResponseView) -> Seq<char> {
    "responses."@ + decimal(response.status as nat) + "."@ + (match response.error_code {
        Some(code) => code,
        None => "success"@,
    })
}

/// Findings about a response header declared before.
pub open spec fn kept_header(header: HeaderView, current: Seq<HeaderView>, path: Seq<char>) -> Seq<
    ChangeView,
> {
    let header_path = path + ".headers."@ + lower_all(header.name);
    match first(
        current,
        |other: HeaderView| lower_all(other.name) == lower_all(header.name),
    ) {
        None => one(
            CompatibilityImpact::Breaking,
            header_path,
            "response_header_removed"@,
            "a declared response header was removed"@,
        ),
        Some(other) => if header.value != other.value {
            one(
                CompatibilityImpact::Breaking,
                header_path,
                "response_header_value_changed"@,
                "a declared response header value changed"@,
            )
        } else {
            Seq::empty()
        },
    }
}

/// The finding about a response header that was not declared before.
pub open spec fn added_header(
    header: HeaderView,
    previous: Seq<HeaderView>,
    path: Seq<char>,
) -> Seq<ChangeView> {
    if first(
        previous,
        |other: HeaderView| lower_all(other.name) == lower_all(header.name),
    ) is Some {
        Seq::empty()
    } else {
        one(
            CompatibilityImpact::NonBreaking,
            path + ".headers."@ + lower_all(header.name),
            "response_header_added"@,
            "a new response header was declared"@,
        )
    }
}

/// Findings about the headers of a response.
pub open spec fn header_changes(
    previous: Seq<HeaderView>,
    current: Seq<HeaderView>,
    path: Seq<char>,
) -> Seq<ChangeView> {
    each(previous, |header: HeaderView| kept_header(header, current, path)) + each(
        current,
        |header: HeaderView| added_header(header, previous, path),
    )
}

/// Findings about the body of a response.
pub open spec fn body_changes(
    previous: Option<TypeView>,
    current: Option<TypeView>,
    path: Seq<char>,
) -> Seq<ChangeView> {
    match (previous, current) {
        (Some(a), Some(b)) => type_changes(a, b, path + ".body"@, TypeDirection::Output),
        (Some(_), None) => one(
            CompatibilityImpact::Breaking,
            path + ".body"@,
            "response_body_removed"@,
            "a declared response body was removed"@,
        ),
        (None, Some(_)) => one(
            CompatibilityImpact::NonBreaking,
            path + ".body"@,
            "response_body_added"@,
            "a response body was added"@,
        ),
        (None, None) => Seq::empty(),
    }
}

/// Findings about a response declared before.
pub open spec fn kept_response(response: ResponseView, current: Seq<ResponseView>) -> Seq<
    ChangeView,
> {
    let path = response_path_spec(response);
    match first(current, |other: ResponseView| same_response(response, other)) {
        None => one(
            CompatibilityImpact::Breaking,
            path,
            "response_removed"@,
            "a declared operation response was removed"@,
        ),
        Some(other) => body_changes(response.body, other.body, path) + (if response.error_message
            != other.error_message {
            one(
                CompatibilityImpact::Metadata,
                path + ".error_message"@,
                "error_message_changed"@,
                "a declared error message changed"@,
            )
        } else {
            Seq::empty()
        }) + header_changes(response.headers, other.headers, path),
    }
}

/// The finding about a response that was not declared before.
pub open spec fn added_response(response: ResponseView, previous: Seq<ResponseView>) -> Seq<
    ChangeView,
> {
    if first(previous, |other: ResponseView| same_response(response, other)) is Some {
        Seq::empty()
    } else {
        one(
            CompatibilityImpact::NonBreaking,
            response_path_spec(response),
            "response_added"@,
            "a new operation response was declared"@,
        )
    }
}

/// Findings about the responses.
pub open spec fn response_changes(previous: ContractView, current: ContractView) -> Seq<
    ChangeView,
> {
    each(previous.responses, |response: ResponseView| kept_response(response, current.responses))
        + each(
        current.responses,
        |response: ResponseView| added_response(response, previous.responses),
    )
}

fn same_opt_text(left: &Option<String>, right: &Option<String>) -> (same: bool)
    ensures
        same == (opt_text(*left) == opt_text(*right)),
{
    match (left, right) {
        (Some(a), Some(b)) => eq_text(a.as_str(), b.as_str()),
        (None, None) => true,
        _ => false,
    }
}

fn same_response_key(left: &ResponseDescriptor, right: &ResponseDescriptor) -> (same: bool)
    ensures
        same == same_response(left@, right@),
{
    left.status == right.status && same_opt_text(&left.error_code, &right.error_code)
}

fn response_path(response: &ResponseDescriptor) -> (path: String)
    ensures
        path@ == response_path_spec(response@),
{
    let mut path = "responses.".to_owned();
    path.append(decimal_text(response.status as u64).as_str());
    path.append(".");
    match &response.error_code {
        Some(code) => path.append(code.as_str()),
        None => path.append("success"),
    }
    path
}

fn find_header(list: &Vec<ResponseHeader>, name: &str) -> (found: Option<usize>)
    ensures
        match found {
            Some(at) => at < list@.len() && first(headers_view(list@), |other: HeaderView| lower_all(other.name) == lower_all(name@)) == Some(
                list@[at as int]@,
            ),
            None => first(headers_view(list@), |other: HeaderView| lower_all(other.name) == lower_all(name@)) is None,
        },
{
    let ghost views = headers_view(list@);
    let ghost hit = |other: HeaderView| lower_all(other.name) == lower_all(name@);
    let mut index: usize = 0;
    while index < list.len()
        invariant
            index <= list@.len(),
            views == headers_view(list@),
            hit == (|other: HeaderView| lower_all(other.name) == lower_all(name@)),
            forall|i: int| 0 <= i < index ==> !hit(#[trigger] views[i]),
        decreases list@.len() - index,
    {
        if eq_ignore_ascii_case(list[index].name.as_str(), name) {
            proof {
                lemma_first_at(views, hit, index as int);
            }
            return Some(index);
        }
        index += 1;
    }
    proof {
        lemma_first_none(views, hit);
    }
    None
}

fn find_response(list: &Vec<ResponseDescriptor>, response: &ResponseDescriptor) -> (found: Option<usize>)
    ensures
        match found {
            Some(at) => at < list@.len() && first(responses_view(list@), |other: ResponseView| same_response(response@, other)) == Some(
                list@[at as int]@,
            ),
            None => first(responses_view(list@), |other: ResponseView| same_response(response@, other)) is None,
        },
{
    let ghost views = responses_view(list@);
    let ghost hit = |other: ResponseView| same_response(response@, other);
    let mut index: usize = 0;
    while index < list.len()
        invariant
            index <= list@.len(),
            views == responses_view(list@),
            hit == (|other: ResponseView| same_response(response@, other)),
            forall|i: int| 0 <= i < index ==> !hit(#[trigger] views[i]),
        decreases list@.len() - index,
    {
        if same_response_key(response, &list[index]) {
            proof {
                lemma_first_at(views, hit, index as int);
            }
            return Some(index);
        }
        index += 1;
    }
    proof {
        lemma_first_none(views, hit);
    }
    None
}

fn header_path(path: &str, name: &str) -> (full: String)
    ensures
        full@ == path@ + ".headers."@ + lower_all(name@),
{
    let mut full = joined(path, ".headers.");
    full.append(lower_text(name).as_str());
    full
}

fn compare_response_headers(
    previous: &Vec<ResponseHeader>,
    current: &Vec<ResponseHeader>,
    path: &str,
    changes: &mut Vec<CompatibilityChange>,
)
    ensures
        changes_view(final(changes)@) == changes_view(old(changes)@) + header_changes(headers_view(previous@), headers_view(current@), path@),
{
    let ghost start = changes_view(changes@);
    let ghost found = |header: HeaderView| kept_header(header, headers_view(current@), path@);
    let mut index: usize = 0;
    proof {
        lemma_each_ends(headers_view(previous@), found);
    }
    while index < previous.len()
        invariant
            index <= previous@.len(),
            found == (|header: HeaderView| kept_header(header, headers_view(current@), path@)),
            changes_view(changes@) =~= start + each(
                headers_view(previous@).take(index as int),
                found,
            ),
        decreases previous@.len() - index,
    {
        let item = &previous[index];
        match find_header(current, item.name.as_str()) {
            None => {
                report(
                    changes,
                    CompatibilityImpact::Breaking,
                    header_path(path, item.name.as_str()).as_str(),
                    "response_header_removed",
                    "a declared response header was removed",
                );
            },
            Some(at) => {
                if !eq_text(item.value.as_str(), current[at].value.as_str()) {
                    report(
                        changes,
                        CompatibilityImpact::Breaking,
                        header_path(path, item.name.as_str()).as_str(),
                        "response_header_value_changed",
                        "a declared response header value changed",
                    );
                }
            },
        }
        proof {
            lemma_each_step(headers_view(previous@), found, index as int);
        }
        index += 1;
    }
    proof {
        lemma_each_ends(headers_view(previous@), found);
    }
    let ghost start2 = changes_view(changes@);
    let ghost found2 = |header: HeaderView| added_header(header, headers_view(previous@), path@);
    let mut index2: usize = 0;
    proof {
        lemma_each_ends(headers_view(current@), found2);
    }
    while index2 < current.len()
        invariant
            index2 <= current@.len(),
            found2 == (|header: HeaderView| added_header(header, headers_view(previous@), path@)),
            changes_view(changes@) =~= start2 + each(
                headers_view(current@).take(index2 as int),
                found2,
            ),
        decreases current@.len() - index2,
    {
        let item = &current[index2];
        if find_header(previous, item.name.as_str()).is_none() {
            report(
                changes,
                CompatibilityImpact::NonBreaking,
                header_path(path, item.name.as_str()).as_str(),
                "response_header_added",
                "a new response header was declared",
            );
        }
        proof {
            lemma_each_step(headers_view(current@), found2, index2 as int);
        }
        index2 += 1;
    }
    proof {
        lemma_each_ends(headers_view(current@), found2);
    }
    assert(changes_view(changes@) =~= changes_view(old(changes)@) + header_changes(headers_view(previous@), headers_view(current@), path@));
}

fn compare_body(
    previous: &Option<TypeDescriptor>,
    current: &Option<TypeDescriptor>,
    path: &str,
    changes: &mut Vec<CompatibilityChange>,
)
    ensures
        changes_view(final(changes)@) == changes_view(old(changes)@) + body_changes(crate::operation::opt_type(*previous), crate::operation::opt_type(*current), path@),
{
    match (previous, current) {
        (Some(a), Some(b)) => {
            compare_type(a, b, joined(path, ".body").as_str(), TypeDirection::Output, changes);
        },
        (Some(_), None) => {
            report(
                changes,
                CompatibilityImpact::Breaking,
                joined(path, ".body").as_str(),
                "response_body_removed",
                "a declared response body was removed",
            );
        },
        (None, Some(_)) => {
            report(
                changes,
                CompatibilityImpact::NonBreaking,
                joined(path, ".body").as_str(),
                "response_body_added",
                "a response body was added",
            );
        },
        (None, None) => {
            assert(changes_view(changes@) =~= changes_view(changes@) + Seq::empty());
        },
    }
}

fn compare_response(
    response: &ResponseDescriptor,
    current: &Vec<ResponseDescriptor>,
    changes: &mut Vec<CompatibilityChange>,
)
    ensures
        changes_view(final(changes)@) == changes_view(old(changes)@) + kept_response(response@, responses_view(current@)),
{
    let path = response_path(response);
    match find_response(current, response) {
        None => {
            report(
                changes,
                CompatibilityImpact::Breaking,
                path.as_str(),
                "response_removed",
                "a declared operation response was removed",
            );
        },
        Some(at) => {
            let other = &current[at];
            compare_body(&response.body, &other.body, path.as_str(), changes);
            if !same_opt_text(&response.error_message, &other.error_message) {
                report(
                    changes,
                    CompatibilityImpact::Metadata,
                    joined(path.as_str(), ".error_message").as_str(),
                    "error_message_changed",
                    "a declared error message changed",
                );
            }
            compare_response_headers(&response.headers, &other.headers, path.as_str(), changes);
        },
    }
    assert(changes_view(changes@) =~= changes_view(old(changes)@) + kept_response(response@, responses_view(current@)));
}

fn compare_responses(
    previous: &OperationContract,
    current: &OperationContract,
    changes: &mut Vec<CompatibilityChange>,
)
    ensures
        changes_view(final(changes)@) == changes_view(old(changes)@) + response_changes(previous@, current@),
{
    let ghost start = changes_view(changes@);
    let ghost found = |response: ResponseView| kept_response(response, current@.responses);
    let mut index: usize = 0;
    proof {
        lemma_each_ends(responses_view(previous.responses@), found);
    }
    while index < previous.responses.len()
        invariant
            index <= previous.responses@.len(),
            found == (|response: ResponseView| kept_response(response, current@.responses)),
            changes_view(changes@) =~= start + each(
                responses_view(previous.responses@).take(index as int),
                found,
            ),
        decreases previous.responses@.len() - index,
    {
        let item = &previous.responses[index];
        compare_response(item, &current.responses, changes);
        proof {
            lemma_each_step(responses_view(previous.responses@), found, index as int);
        }
        index += 1;
    }
    proof {
        lemma_each_ends(responses_view(previous.responses@), found);
    }
    let ghost start2 = changes_view(changes@);
    let ghost found2 = |response: ResponseView| added_response(response, previous@.responses);
    let mut index2: usize = 0;
    proof {
        lemma_each_ends(responses_view(current.responses@), found2);
    }
    while index2 < current.responses.len()
        invariant
            index2 <= current.responses@.len(),
            found2 == (|response: ResponseView| added_response(response, previous@.responses)),
            changes_view(changes@) =~= start2 + each(
                responses_view(current.responses@).take(index2 as int),
                found2,
            ),
        decreases current.responses@.len() - index2,
    {
        let item = &current.responses[index2];
        if find_response(&previous.responses, item).is_none() {
            report(
                changes,
                CompatibilityImpact::NonBreaking,
                response_path(item).as_str(),
                "response_added",
                "a new operation response was declared",
            );
        }
        proof {
            lemma_each_step(responses_view(current.responses@), found2, index2 as int);
        }
        index2 += 1;
    }
    proof {
        lemma_each_ends(responses_view(current.responses@), found2);
    }
    assert(changes_view(changes@) =~= changes_view(old(changes)@) + response_changes(previous@, current@));
}

// ---------------------------------------------------------------------------
// Agent policy and MCP projection
// ---------------------------------------------------------------------------

/// Findings about the agent policy: more risk, a new confirmation, or a lost
/// idempotency guarantee breaks callers.
pub open spec fn agent_changes(previous: ContractView, current: ContractView) -> Seq<ChangeView> {
    (if risk_tag_spec(previous.agent.risk) != risk_tag_spec(current.agent.risk) {
        one(
            breaking_when(risk_tag_spec(current.agent.risk) > risk_tag_spec(previous.agent.risk)),
            "agent.risk"@,
            "agent_risk_changed"@,
            "agent invocation risk changed"@,
        )
    } else {
        Seq::empty()
    }) + (if previous.agent.confirmation != current.agent.confirmation {
        one(
            breaking_when(current.agent.confirmation == Confirmation::Required),
            "agent.confirmation"@,
            "agent_confirmation_changed"@,
            "agent confirmation policy changed"@,
        )
    } else {
        Seq::empty()
    }) + (if previous.agent.idempotent != current.agent.idempotent {
        one(
            breaking_when(previous.agent.idempotent),
            "agent.idempotent"@,
            "agent_idempotency_changed"@,
            "agent idempotency guarantee changed"@,
        )
    } else {
        Seq::empty()
    })
}

/// Two impacts of which one breaks callers and the other does not.
pub open spec fn opposed(left: CompatibilityImpact, right: CompatibilityImpact) -> bool {
    ||| left == CompatibilityImpact::Breaking && right == CompatibilityImpact::NonBreaking
    ||| left == CompatibilityImpact::NonBreaking && right == CompatibilityImpact::Breaking
}

/// Agent policies compare alike in both directions: one finding for each field
/// that differs, at the same places and under the same codes, and what breaks
/// callers in one direction does not in the other. More risk, a confirmation
/// that became required, and a lost idempotency guarantee break callers, and
/// nothing else does.
pub proof fn law_agent_changes_mirror_each_other(previous: ContractView, current: ContractView)
    ensures
        ({
            let forth = agent_changes(previous, current);
            let back = agent_changes(current, previous);
            let a = previous.agent;
            let b = current.agent;
            &&& forth.len() == back.len()
            &&& forth.len() == (if a.risk != b.risk {
                1int
            } else {
                0
            }) + (if a.confirmation != b.confirmation {
                1int
            } else {
                0
            }) + (if a.idempotent != b.idempotent {
                1int
            } else {
                0
            })
            &&& forall|i: int|
                0 <= i < forth.len() ==> {
                    &&& (#[trigger] forth[i]).path == back[i].path
                    &&& forth[i].code == back[i].code
                    &&& opposed(forth[i].impact, back[i].impact)
                    &&& forth[i].impact == CompatibilityImpact::Breaking <==> {
                        ||| forth[i].code == "agent_risk_changed"@ && risk_tag_spec(b.risk)
                            > risk_tag_spec(a.risk)
                        ||| forth[i].code == "agent_confirmation_changed"@ && b.confirmation
                            == Confirmation::Required && a.confirmation != Confirmation::Required
                        ||| forth[i].code == "agent_idempotency_changed"@ && a.idempotent
                            && !b.idempotent
                    }
                }
        }),
{
    reveal_strlit("agent_risk_changed");
    reveal_strlit("agent_confirmation_changed");
    reveal_strlit("agent_idempotency_changed");
    assert("agent_risk_changed"@.len() == 18);
    assert("agent_confirmation_changed"@.len() == 26);
    assert("agent_idempotency_changed"@.len() == 25);
}

/// Findings about the MCP projection: a lost or renamed tool, or less exposed
/// output, breaks callers.
pub open spec fn mcp_changes(previous: ContractView, current: ContractView) -> Seq<ChangeView> {
    match (previous.mcp, current.mcp) {
        (Some(a), Some(b)) => (if a.name != b.name {
            one(
                CompatibilityImpact::Breaking,
                "mcp.name"@,
                "mcp_tool_name_changed"@,
                "MCP tool name changed"@,
            )
        } else {
            Seq::empty()
        }) + (if a.description != b.description {
            one(
                CompatibilityImpact::Metadata,
                "mcp.description"@,
                "mcp_description_changed"@,
                "MCP tool description changed"@,
            )
        } else {
            Seq::empty()
        }) + (if exposure_tag_spec(a.expose_output) != exposure_tag_spec(b.expose_output) {
            one(
                breaking_when(
                    exposure_tag_spec(b.expose_output) > exposure_tag_spec(a.expose_output),
                ),
                "mcp.expose_output"@,
                "mcp_output_exposure_changed"@,
                "MCP output exposure policy changed"@,
            )
        } else {
            Seq::empty()
        }),
        (Some(_), None) => one(
            CompatibilityImpact::Breaking,
            "mcp"@,
            "mcp_tool_removed"@,
            "MCP tool projection was removed"@,
        ),
        (None, Some(_)) => one(
            CompatibilityImpact::NonBreaking,
            "mcp"@,
            "mcp_tool_added"@,
            "MCP tool projection was added"@,
        ),
        (None, None) => Seq::empty(),
    }
}

/// Appends the findings about the agent policy.
pub fn compare_agent(
    previous: &OperationContract,
    current: &OperationContract,
    changes: &mut Vec<CompatibilityChange>,
)
    ensures
        changes_view(final(changes)@) == changes_view(old(changes)@) + agent_changes(previous@, current@),
{
    let previous_risk: u8 = risk_tag(previous.agent.risk);
    let current_risk: u8 = risk_tag(current.agent.risk);
    if previous_risk != current_risk {
        report(
            changes,
            impact_when(current_risk > previous_risk),
            "agent.risk",
            "agent_risk_changed",
            "agent invocation risk changed",
        );
    }
    if previous.agent.confirmation != current.agent.confirmation {
        report(
            changes,
            impact_when(current.agent.confirmation == Confirmation::Required),
            "agent.confirmation",
            "agent_confirmation_changed",
            "agent confirmation policy changed",
        );
    }
    if previous.agent.idempotent != current.agent.idempotent {
        report(
            changes,
            impact_when(previous.agent.idempotent),
            "agent.idempotent",
            "agent_idempotency_changed",
            "agent idempotency guarantee changed",
        );
    }
    assert(changes_view(changes@) =~= changes_view(old(changes)@) + agent_changes(previous@, current@));
}

fn compare_mcp(
    previous: &OperationContract,
    current: &OperationContract,
    changes: &mut Vec<CompatibilityChange>,
)
    ensures
        changes_view(final(changes)@) == changes_view(old(changes)@) + mcp_changes(previous@, current@),
{
    match (&previous.mcp, &current.mcp) {
        (Some(a), Some(b)) => {
            if !eq_text(a.name.as_str(), b.name.as_str()) {
                report(
                    changes,
                    CompatibilityImpact::Breaking,
                    "mcp.name",
                    "mcp_tool_name_changed",
                    "MCP tool name changed",
                );
            }
            if !eq_text(a.description.as_str(), b.description.as_str()) {
                report(
                    changes,
                    CompatibilityImpact::Metadata,
                    "mcp.description",
                    "mcp_description_changed",
                    "MCP tool description changed",
                );
            }
            let before: u8 = exposure_tag(a.expose_output);
            let after: u8 = exposure_tag(b.expose_output);
            if before != after {
                report(
                    changes,
                    impact_when(after > before),
                    "mcp.expose_output",
                    "mcp_output_exposure_changed",
                    "MCP output exposure policy changed",
                );
            }
        },
        (Some(_), None) => {
            report(
                changes,
                CompatibilityImpact::Breaking,
                "mcp",
                "mcp_tool_removed",
                "MCP tool projection was removed",
            );
        },
        (None, Some(_)) => {
            report(
                changes,
                CompatibilityImpact::NonBreaking,
                "mcp",
                "mcp_tool_added",
                "MCP tool projection was added",
            );
        },
        (None, None) => {},
    }
    assert(changes_view(changes@) =~= changes_view(old(changes)@) + mcp_changes(previous@, current@));
}

// ---------------------------------------------------------------------------
// Report order
// ---------------------------------------------------------------------------

/// The rank of an impact among findings with the same path and code.
pub open spec fn impact_rank(impact: CompatibilityImpact) -> int {
    match impact {
        CompatibilityImpact::Breaking => 0,
        CompatibilityImpact::NonBreaking => 1,
        CompatibilityImpact::Metadata => 2,
    }
}

/// Findings are ordered by path, then code, then impact.
pub open spec fn change_before(left: ChangeView, right: ChangeView) -> bool {
    ||| text_before_spec(left.path, right.path)
    ||| left.path == right.path && (text_before_spec(left.code, right.code) || left.code
        == right.code && impact_rank(left.impact) < impact_rank(right.impact))
}

/// Places a finding behind every finding that does not come after it.
pub open spec fn placed(sorted: Seq<ChangeView>, change: ChangeView) -> Seq<ChangeView>
    decreases sorted.len(),
{
    if sorted.len() == 0 || !change_before(change, sorted.last()) {
        sorted.push(change)
    } else {
        placed(sorted.drop_last(), change).push(sorted.last())
    }
}

/// The findings in report order; findings that rank the same keep their order.
pub open spec fn report_order(changes: Seq<ChangeView>) -> Seq<ChangeView>
    decreases changes.len(),
{
    if changes.len() == 0 {
        Seq::empty()
    } else {
        placed(report_order(changes.drop_last()), changes.last())
    }
}

proof fn lemma_change_before_transitive(a: ChangeView, b: ChangeView, c: ChangeView)
    requires
        change_before(a, b),
        change_before(b, c),
    ensures
        change_before(a, c),
{
    if text_before_spec(a.path, b.path) && text_before_spec(b.path, c.path) {
        lemma_before_transitive(a.path, b.path, c.path);
    } else if a.path == b.path && b.path == c.path {
        if text_before_spec(a.code, b.code) && text_before_spec(b.code, c.code) {
            lemma_before_transitive(a.code, b.code, c.code);
        }
    }
}

proof fn lemma_change_order_connected(a: ChangeView, b: ChangeView, c: ChangeView)
    requires
        !change_before(b, a),
        !change_before(c, b),
    ensures
        !change_before(c, a),
{
    lemma_before_total(a.path, b.path);
    lemma_before_total(b.path, c.path);
    lemma_before_total(a.code, b.code);
    lemma_before_total(b.code, c.code);
    lemma_before_irreflexive(a.path);
    lemma_before_irreflexive(a.code);
    if change_before(c, a) {
        if text_before_spec(a.path, b.path) {
            if text_before_spec(c.path, a.path) {
                lemma_before_transitive(c.path, a.path, b.path);
            }
        } else if text_before_spec(b.path, c.path) {
            if text_before_spec(c.path, a.path) {
                lemma_before_transitive(b.path, c.path, a.path);
            }
        } else if text_before_spec(a.code, b.code) {
            if text_before_spec(c.code, a.code) {
                lemma_before_transitive(c.code, a.code, b.code);
            }
        } else if text_before_spec(b.code, c.code) {
            if text_before_spec(c.code, a.code) {
                lemma_before_transitive(b.code, c.code, a.code);
            }
        }
    }
}

proof fn lemma_placed_sorted(sorted: Seq<ChangeView>, change: ChangeView)
    requires
        forall|i: int, j: int|
            0 <= i < j < sorted.len() ==> !change_before(#[trigger] sorted[j], #[trigger] sorted[i]),
    ensures
        placed(sorted, change).len() == sorted.len() + 1,
        placed(sorted, change).to_multiset() == sorted.to_multiset().insert(change),
        forall|i: int, j: int|
            0 <= i < j < sorted.len() + 1 ==> !change_before(
                #[trigger] placed(sorted, change)[j],
                #[trigger] placed(sorted, change)[i],
            ),
        forall|i: int|
            0 <= i < placed(sorted, change).len() ==> #[trigger] placed(sorted, change)[i] == change
                || sorted.contains(placed(sorted, change)[i]),
    decreases sorted.len(),
{
    let out = placed(sorted, change);
    if sorted.len() == 0 || !change_before(change, sorted.last()) {
        vstd::seq_lib::to_multiset_build(sorted, change);
        assert forall|i: int, j: int| 0 <= i < j < out.len() implies !change_before(
            #[trigger] out[j],
            #[trigger] out[i],
        ) by {
            if j == sorted.len() && i < sorted.len() - 1 {
                assert(!change_before(sorted[sorted.len() - 1], sorted[i]));
                lemma_change_order_connected(sorted[i], sorted.last(), change);
            }
        }
        assert forall|i: int| 0 <= i < out.len() implies #[trigger] out[i] == change
            || sorted.contains(out[i]) by {
            if i < sorted.len() {
                assert(out[i] == sorted[i]);
            }
        }
    } else {
        let head = sorted.drop_last();
        let last = sorted.last();
        lemma_placed_sorted(head, change);
        let inner = placed(head, change);
        assert forall|i: int, j: int| 0 <= i < j < out.len() implies !change_before(
            #[trigger] out[j],
            #[trigger] out[i],
        ) by {
            if j == out.len() - 1 {
                assert(inner[i] == change || head.contains(inner[i]));
                if inner[i] == change {
                    if change_before(last, change) {
                        lemma_change_before_transitive(change, last, change);
                        lemma_before_irreflexive(change.path);
                        lemma_before_irreflexive(change.code);
                    }
                } else {
                    let k = choose|k: int| 0 <= k < head.len() && head[k] == inner[i];
                    assert(!change_before(sorted[sorted.len() - 1], sorted[k]));
                }
            } else {
                assert(out[j] == inner[j] && out[i] == inner[i]);
            }
        }
        vstd::seq_lib::to_multiset_build(inner, last);
        assert(sorted =~= head.push(last));
        vstd::seq_lib::to_multiset_build(head, last);
        assert(out.to_multiset() =~= sorted.to_multiset().insert(change));
        assert forall|i: int| 0 <= i < out.len() implies #[trigger] out[i] == change
            || sorted.contains(out[i]) by {
            if i < inner.len() {
                assert(out[i] == inner[i]);
                if inner[i] != change {
                    let k = choose|k: int| 0 <= k < head.len() && head[k] == inner[i];
                    assert(sorted[k] == out[i]);
                }
            } else {
                assert(out[i] == sorted[sorted.len() - 1]);
            }
        }
    }
}

/// A report holds exactly the findings of the comparison, ordered by path,
/// code and impact.
pub proof fn law_reports_are_ordered(changes: Seq<ChangeView>)
    ensures
        report_order(changes).to_multiset() == changes.to_multiset(),
        forall|i: int, j: int|
            0 <= i < j < report_order(changes).len() ==> !change_before(
                #[trigger] report_order(changes)[j],
                #[trigger] report_order(changes)[i],
            ),
    decreases changes.len(),
{
    if changes.len() == 0 {
        assert(report_order(changes) =~= changes);
    } else {
        let head = changes.drop_last();
        law_reports_are_ordered(head);
        lemma_placed_sorted(report_order(head), changes.last());
        assert(changes =~= head.push(changes.last()));
        vstd::seq_lib::to_multiset_build(head, changes.last());
    }
}

proof fn lemma_placed_at(sorted: Seq<ChangeView>, change: ChangeView, at: int)
    requires
        0 <= at <= sorted.len(),
        forall|i: int| at <= i < sorted.len() ==> change_before(change, #[trigger] sorted[i]),
        at > 0 ==> !change_before(change, sorted[at - 1]),
    ensures
        placed(sorted, change) == sorted.insert(at, change),
    decreases sorted.len(),
{
    if at == sorted.len() {
        assert(sorted.insert(at, change) =~= sorted.push(change));
    } else {
        assert(change_before(change, sorted[sorted.len() - 1]));
        lemma_placed_at(sorted.drop_last(), change, at);
        assert(sorted.insert(at, change) =~= sorted.drop_last().insert(at, change).push(
            sorted.last(),
        ));
    }
}

fn impact_number(impact: CompatibilityImpact) -> (rank: u8)
    ensures
        rank == impact_rank(impact),
{
    match impact {
        CompatibilityImpact::Breaking => 0,
        CompatibilityImpact::NonBreaking => 1,
        CompatibilityImpact::Metadata => 2,
    }
}

fn comes_before(left: &CompatibilityChange, right: &CompatibilityChange) -> (before: bool)
    ensures
        before == change_before(left@, right@),
{
    if text_before(left.path.as_str(), right.path.as_str()) {
        return true;
    }
    if !eq_text(left.path.as_str(), right.path.as_str()) {
        return false;
    }
    if text_before(left.code.as_str(), right.code.as_str()) {
        return true;
    }
    eq_text(left.code.as_str(), right.code.as_str()) && impact_number(left.impact)
        < impact_number(right.impact)
}

fn ordered(changes: Vec<CompatibilityChange>) -> (sorted: Vec<CompatibilityChange>)
    ensures
        changes_view(sorted@) == report_order(changes_view(changes@)),
{
    let ghost all = changes_view(changes@);
    let mut rest = changes;
    let mut sorted: Vec<CompatibilityChange> = Vec::new();
    proof {
        assert(all.take(0) =~= Seq::empty());
        assert(changes_view(sorted@) =~= Seq::empty());
        assert(all.skip(0) =~= all);
    }
    let ghost mut done: int = 0;
    while rest.len() > 0
        invariant
            0 <= done <= all.len(),
            changes_view(rest@) == all.skip(done),
            changes_view(sorted@) == report_order(all.take(done)),
        decreases rest@.len(),
    {
        let ghost left = changes_view(rest@);
        assert(left.len() == all.len() - done);
        let change = rest.remove(0);
        let ghost view = change@;
        let mut at: usize = sorted.len();
        proof {
            assert(left[0] == view);
            assert(all[done] == view);
            assert(changes_view(rest@) =~= left.drop_first());
            assert(left.drop_first() =~= all.skip(done + 1));
        }
        while at > 0 && comes_before(&change, &sorted[at - 1])
            invariant
                at <= sorted@.len(),
                change@ == view,
                forall|i: int|
                    at <= i < sorted@.len() ==> change_before(
                        view,
                        #[trigger] changes_view(sorted@)[i],
                    ),
            decreases at,
        {
            at -= 1;
        }
        let ghost before = changes_view(sorted@);
        sorted.insert(at, change);
        proof {
            lemma_placed_at(before, view, at as int);
            assert(changes_view(sorted@) =~= before.insert(at as int, view));
            assert(all.take(done + 1).drop_last() =~= all.take(done));
            assert(all.take(done + 1).last() == view);
            done = done + 1;
        }
    }
    assert(done == all.len()) by {
        assert(changes_view(rest@).len() == all.len() - done);
    }
    assert(all.take(done) =~= all);
    sorted
}

// ---------------------------------------------------------------------------
// Comparison
// ---------------------------------------------------------------------------

/// Every finding, in the order in which the contract is read.
pub open spec fn all_changes(previous: ContractView, current: ContractView) -> Seq<ChangeView> {
    version_changes(previous, current) + identity_changes(previous, current) + input_changes(
        previous,
        current,
    ) + dependency_changes(previous, current) + security_changes(previous, current)
        + response_changes(previous, current) + agent_changes(previous, current) + mcp_changes(
        previous,
        current,
    )
}

/// The findings of a comparison: none for contracts with the same identity.
pub open spec fn compared(previous: ContractView, current: ContractView) -> Seq<ChangeView> {
    if fingerprint_of(previous) == fingerprint_of(current) {
        Seq::empty()
    } else {
        report_order(all_changes(previous, current))
    }
}

/// Entry point for semantic contract comparison.
#[derive(Clone, Copy, Debug)]
pub struct Compatibility;

impl Compatibility {
    /// Compares two operation contracts using transport-neutral compatibility
    /// rules. Findings are returned in deterministic path/code order.
    #[must_use]
    pub fn compare(previous: &OperationContract, current: &OperationContract) -> (report:
        CompatibilityReport)
        ensures
            report.previous@ == fingerprint_of(previous@),
            report.current@ == fingerprint_of(current@),
            changes_view(report.changes@) == compared(previous@, current@),
    {
        let before = previous.fingerprint();
        let after = current.fingerprint();
        let mut changes: Vec<CompatibilityChange> = Vec::new();
        assert(changes_view(changes@) =~= Seq::empty());
        if before.same(&after) {
            return CompatibilityReport { previous: before, current: after, changes };
        }
        compare_versions(previous, current, &mut changes);
        compare_identity(previous, current, &mut changes);
        compare_inputs(previous, current, &mut changes);
        compare_dependencies(previous, current, &mut changes);
        compare_security(previous, current, &mut changes);
        compare_responses(previous, current, &mut changes);
        compare_agent(previous, current, &mut changes);
        compare_mcp(previous, current, &mut changes);
        assert(changes_view(changes@) =~= all_changes(previous@, current@));
        CompatibilityReport { previous: before, current: after, changes: ordered(changes) }
    }
}

/// Contracts that differ only in declaration order, in the ASCII case of header
/// names, or in the deprecated single-body view, compare without findings.
pub proof fn law_reordering_is_no_change(previous: ContractView, current: ContractView)
    requires
        crate::canonical::contract_reordered(previous, current),
    ensures
        compared(previous, current) == Seq::<ChangeView>::empty(),
{
    crate::canonical::law_canonical_form_ignores_declaration_order(previous, current);
}

// ---------------------------------------------------------------------------
// What breaks clients
// ---------------------------------------------------------------------------

/// Some finding breaks clients.
pub open spec fn has_breaking(changes: Seq<ChangeView>) -> bool {
    exists|i: int|
        0 <= i < changes.len() && (#[trigger] changes[i]).impact == CompatibilityImpact::Breaking
}

/// Some field has a name.
pub open spec fn declares(fields: Seq<FieldView>, name: Seq<char>) -> bool {
    exists|i: int| 0 <= i < fields.len() && (#[trigger] fields[i]).name == name
}

/// The first field with a name stands at a position.
pub open spec fn declared_at(fields: Seq<FieldView>, name: Seq<char>, at: int) -> bool {
    &&& 0 <= at < fields.len()
    &&& fields[at].name == name
    &&& forall|i: int| 0 <= i < at ==> (#[trigger] fields[i]).name != name
}

proof fn lemma_breaking_joined(left: Seq<ChangeView>, right: Seq<ChangeView>)
    ensures
        has_breaking(left + right) == (has_breaking(left) || has_breaking(right)),
{
    let both = left + right;
    if has_breaking(left) {
        let i = choose|i: int|
            0 <= i < left.len() && (#[trigger] left[i]).impact == CompatibilityImpact::Breaking;
        assert(both[i] == left[i]);
    }
    if has_breaking(right) {
        let i = choose|i: int|
            0 <= i < right.len() && (#[trigger] right[i]).impact == CompatibilityImpact::Breaking;
        assert(both[left.len() + i] == right[i]);
    }
    if has_breaking(both) {
        let i = choose|i: int|
            0 <= i < both.len() && (#[trigger] both[i]).impact == CompatibilityImpact::Breaking;
        if i < left.len() {
            assert(left[i] == both[i]);
        } else {
            assert(right[i - left.len()] == both[i]);
        }
    }
}

proof fn lemma_breaking_one(
    impact: CompatibilityImpact,
    path: Seq<char>,
    code: Seq<char>,
    message: Seq<char>,
)
    ensures
        has_breaking(one(impact, path, code, message)) == (impact == CompatibilityImpact::Breaking),
        !has_breaking(Seq::<ChangeView>::empty()),
{
    assert(one(impact, path, code, message)[0].impact == impact);
}

proof fn lemma_breaking_each<A>(list: Seq<A>, found: spec_fn(A) -> Seq<ChangeView>)
    ensures
        has_breaking(each(list, found)) <==> exists|i: int|
            0 <= i < list.len() && has_breaking(found(#[trigger] list[i])),
    decreases list.len(),
{
    if list.len() > 0 {
        let head = list.drop_last();
        lemma_breaking_each(head, found);
        lemma_breaking_joined(each(head, found), found(list.last()));
        if has_breaking(each(head, found)) {
            let i = choose|i: int| 0 <= i < head.len() && has_breaking(found(#[trigger] head[i]));
            assert(list[i] == head[i]);
        }
        if has_breaking(found(list.last())) {
            assert(list[list.len() - 1] == list.last());
        }
        if exists|i: int| 0 <= i < list.len() && has_breaking(found(#[trigger] list[i])) {
            let i = choose|i: int| 0 <= i < list.len() && has_breaking(found(#[trigger] list[i]));
            if i < head.len() {
                assert(head[i] == list[i]);
            }
        }
    }
}

proof fn lemma_each_holds<A>(
    list: Seq<A>,
    found: spec_fn(A) -> Seq<ChangeView>,
    at: int,
    change: ChangeView,
)
    requires
        0 <= at < list.len(),
        found(list[at]).contains(change),
    ensures
        each(list, found).contains(change),
    decreases list.len(),
{
    let head = list.drop_last();
    if at < head.len() {
        assert(head[at] == list[at]);
        lemma_each_holds(head, found, at, change);
        lemma_holds_joined(each(head, found), found(list.last()), change);
    } else {
        lemma_holds_joined(each(head, found), found(list.last()), change);
    }
}

proof fn lemma_holds_joined(left: Seq<ChangeView>, right: Seq<ChangeView>, change: ChangeView)
    ensures
        (left + right).contains(change) == (left.contains(change) || right.contains(change)),
{
    let both = left + right;
    if left.contains(change) {
        let i = choose|i: int| 0 <= i < left.len() && left[i] == change;
        assert(both[i] == change);
    }
    if right.contains(change) {
        let i = choose|i: int| 0 <= i < right.len() && right[i] == change;
        assert(both[left.len() + i] == change);
    }
    if both.contains(change) {
        let i = choose|i: int| 0 <= i < both.len() && both[i] == change;
        if i < left.len() {
            assert(left[i] == change);
        } else {
            assert(right[i - left.len()] == change);
        }
    }
}

proof fn lemma_first_found<A>(list: Seq<A>, hit: spec_fn(A) -> bool)
    ensures
        match first(list, hit) {
            Some(item) => exists|at: int|
                0 <= at < list.len() && #[trigger] list[at] == item && hit(item) && forall|i: int|
                    0 <= i < at ==> !hit(#[trigger] list[i]),
            None => forall|i: int| 0 <= i < list.len() ==> !hit(#[trigger] list[i]),
        },
    decreases list.len(),
{
    if list.len() > 0 {
        if hit(list[0]) {
            assert(list[0] == list[0]);
        } else {
            let rest = list.drop_first();
            lemma_first_found(rest, hit);
            match first(rest, hit) {
                Some(item) => {
                    let at = choose|at: int|
                        0 <= at < rest.len() && #[trigger] rest[at] == item && hit(item) && forall|
                            i: int,
                        |
                            0 <= i < at ==> !hit(#[trigger] rest[i]);
                    assert forall|i: int| 0 <= i < at + 1 implies !hit(#[trigger] list[i]) by {
                        if i > 0 {
                            assert(!hit(rest[i - 1]));
                        }
                    }
                    assert(list[at + 1] == item);
                },
                None => {
                    assert forall|i: int| 0 <= i < list.len() implies !hit(#[trigger] list[i]) by {
                        if i > 0 {
                            assert(!hit(rest[i - 1]));
                        }
                    }
                },
            }
        }
    }
}

proof fn lemma_breaking_kept(
    previous: Seq<FieldView>,
    current: Seq<FieldView>,
    path: Seq<char>,
    direction: TypeDirection,
)
    ensures
        has_breaking(kept_fields(previous, current, path, direction)) <==> exists|i: int|
            0 <= i < previous.len() && has_breaking(
                kept_field(#[trigger] previous[i], current, path, direction),
            ),
    decreases previous.len(),
{
    if previous.len() > 0 {
        let head = previous.drop_last();
        lemma_breaking_kept(head, current, path, direction);
        lemma_breaking_joined(
            kept_fields(head, current, path, direction),
            kept_field(previous[previous.len() - 1], current, path, direction),
        );
        if has_breaking(kept_fields(head, current, path, direction)) {
            let i = choose|i: int|
                0 <= i < head.len() && has_breaking(
                    kept_field(#[trigger] head[i], current, path, direction),
                );
            assert(previous[i] == head[i]);
        }
        if exists|i: int|
            0 <= i < previous.len() && has_breaking(
                kept_field(#[trigger] previous[i], current, path, direction),
            ) {
            let i = choose|i: int|
                0 <= i < previous.len() && has_breaking(
                    kept_field(#[trigger] previous[i], current, path, direction),
                );
            if i < head.len() {
                assert(head[i] == previous[i]);
            }
        }
    }
}

/// A field that a model gains is found at its own path. It breaks clients if and
/// only if it is a required field of something that clients send.
pub proof fn law_gained_fields_are_found(
    previous: ModelView,
    current: ModelView,
    path: Seq<char>,
    at: int,
)
    requires
        0 <= at < current.fields.len(),
        !declares(previous.fields, current.fields[at].name),
    ensures
        ({
            let field = current.fields[at];
            let found = |impact: CompatibilityImpact|
                ChangeView {
                    impact,
                    path: path + ".fields."@ + field.name,
                    code: if field.required {
                        "required_model_field_added"@
                    } else {
                        "optional_model_field_added"@
                    },
                    message: "a model field was added"@,
                };
            let sent = model_changes(previous, current, path, TypeDirection::Input);
            let received = model_changes(previous, current, path, TypeDirection::Output);
            &&& field.required ==> sent.contains(found(CompatibilityImpact::Breaking))
            &&& !field.required ==> sent.contains(found(CompatibilityImpact::NonBreaking))
            &&& received.contains(found(CompatibilityImpact::NonBreaking))
        }),
{
    let field = current.fields[at];
    lemma_gained_field(previous, current, path, TypeDirection::Input, at);
    lemma_gained_field(previous, current, path, TypeDirection::Output, at);
    assert(field.required || !field.required);
}

proof fn lemma_gained_field(
    previous: ModelView,
    current: ModelView,
    path: Seq<char>,
    direction: TypeDirection,
    at: int,
)
    requires
        0 <= at < current.fields.len(),
        !declares(previous.fields, current.fields[at].name),
    ensures
        added_field(current.fields[at], previous.fields, path, direction).len() == 1,
        model_changes(previous, current, path, direction).contains(
            added_field(current.fields[at], previous.fields, path, direction)[0],
        ),
{
    let field = current.fields[at];
    let hit = |other: FieldView| other.name == field.name;
    lemma_first_found(previous.fields, hit);
    if first(previous.fields, hit) is Some {
        assert(declares(previous.fields, field.name));
    }
    let added = |field: FieldView| added_field(field, previous.fields, path, direction);
    let change = added_field(field, previous.fields, path, direction)[0];
    assert(added(field)[0] == change);
    assert(added(field).contains(change));
    lemma_each_holds(current.fields, added, at, change);
    let renamed = if previous.name != current.name {
        one(
            CompatibilityImpact::Metadata,
            path + ".model.name"@,
            "model_name_changed"@,
            "model name changed without changing its wire shape"@,
        )
    } else {
        Seq::empty()
    };
    let kept = kept_fields(previous.fields, current.fields, path, direction);
    lemma_holds_joined(renamed + kept, each(current.fields, added), change);
}

/// A new rule that turns away what the old rules let through: a length that was
/// long enough, a length that was short enough, or a text that need not have
/// been an e-mail address.
pub open spec fn rules_tightened(previous: Seq<RuleView>, current: Seq<RuleView>) -> bool {
    ||| exists|i: int|
        0 <= i < current.len() && (#[trigger] current[i] matches RuleView::MinLength(bound) && bound
            > 0 && forall|j: int|
            0 <= j < previous.len() ==> (#[trigger] previous[j] matches RuleView::MinLength(other)
                ==> other < bound))
    ||| exists|i: int|
        0 <= i < current.len() && (#[trigger] current[i] matches RuleView::MaxLength(bound)
            && forall|j: int|
            0 <= j < previous.len() ==> (#[trigger] previous[j] matches RuleView::MaxLength(other)
                ==> other > bound))
    ||| current.contains(RuleView::Email) && !previous.contains(RuleView::Email)
}

proof fn lemma_min_length(rules: Seq<RuleView>)
    ensures
        match min_length(rules) {
            Some(bound) => {
                &&& exists|i: int| 0 <= i < rules.len() && #[trigger] rules[i] == RuleView::MinLength(bound)
                &&& forall|i: int|
                    0 <= i < rules.len() ==> (#[trigger] rules[i] matches RuleView::MinLength(other)
                        ==> other <= bound)
            },
            None => forall|i: int|
                0 <= i < rules.len() ==> !((#[trigger] rules[i]) is MinLength),
        },
    decreases rules.len(),
{
    if rules.len() > 0 {
        let head = rules.drop_last();
        lemma_min_length(head);
        assert forall|i: int| 0 <= i < head.len() implies #[trigger] rules[i] == head[i] by {}
        match min_length(head) {
            Some(bound) => {
                let i = choose|i: int| 0 <= i < head.len() && #[trigger] head[i] == RuleView::MinLength(bound);
                assert(rules[i] == RuleView::MinLength(bound));
            },
            None => {},
        }
        assert(rules[rules.len() - 1] == rules.last());
    }
}

proof fn lemma_max_length(rules: Seq<RuleView>)
    ensures
        match max_length(rules) {
            Some(bound) => {
                &&& exists|i: int| 0 <= i < rules.len() && #[trigger] rules[i] == RuleView::MaxLength(bound)
                &&& forall|i: int|
                    0 <= i < rules.len() ==> (#[trigger] rules[i] matches RuleView::MaxLength(other)
                        ==> other >= bound)
            },
            None => forall|i: int|
                0 <= i < rules.len() ==> !((#[trigger] rules[i]) is MaxLength),
        },
    decreases rules.len(),
{
    if rules.len() > 0 {
        let head = rules.drop_last();
        lemma_max_length(head);
        assert forall|i: int| 0 <= i < head.len() implies #[trigger] rules[i] == head[i] by {}
        match max_length(head) {
            Some(bound) => {
                let i = choose|i: int| 0 <= i < head.len() && #[trigger] head[i] == RuleView::MaxLength(bound);
                assert(rules[i] == RuleView::MaxLength(bound));
            },
            None => {},
        }
        assert(rules[rules.len() - 1] == rules.last());
    }
}

/// New rules break clients if and only if they tighten what clients may send.
pub proof fn law_tightened_rules_break(
    previous: Seq<RuleView>,
    current: Seq<RuleView>,
    path: Seq<char>,
)
    ensures
        has_breaking(rule_changes(previous, current, path, TypeDirection::Input))
            <==> rules_tightened(previous, current),
        !has_breaking(rule_changes(previous, current, path, TypeDirection::Output)),
{
    lemma_min_length(previous);
    lemma_min_length(current);
    lemma_max_length(previous);
    lemma_max_length(current);
    let old_email = previous.contains(RuleView::Email);
    let new_email = current.contains(RuleView::Email);
    let impact_min = breaking_when(or_zero(min_length(current)) > or_zero(min_length(previous)));
    let impact_max = breaking_when(stricter_max(max_length(previous), max_length(current)));
    let low = if min_length(previous) != min_length(current) {
        one(
            impact_min,
            path + ".validation.min_length"@,
            "minimum_length_changed"@,
            "minimum accepted length changed"@,
        )
    } else {
        Seq::empty()
    };
    let high = if max_length(previous) != max_length(current) {
        one(
            impact_max,
            path + ".validation.max_length"@,
            "maximum_length_changed"@,
            "maximum accepted length changed"@,
        )
    } else {
        Seq::empty()
    };
    let email = if old_email != new_email {
        one(
            breaking_when(new_email),
            path + ".validation.email"@,
            "email_validation_changed"@,
            "email validation changed"@,
        )
    } else {
        Seq::empty()
    };
    lemma_breaking_joined(low, high);
    lemma_breaking_joined(low + high, email);
    lemma_breaking_one(
        impact_min,
        path + ".validation.min_length"@,
        "minimum_length_changed"@,
        "minimum accepted length changed"@,
    );
    lemma_breaking_one(
        impact_max,
        path + ".validation.max_length"@,
        "maximum_length_changed"@,
        "maximum accepted length changed"@,
    );
    lemma_breaking_one(
        breaking_when(new_email),
        path + ".validation.email"@,
        "email_validation_changed"@,
        "email validation changed"@,
    );
    lemma_breaking_one(
        CompatibilityImpact::Metadata,
        path + ".validation"@,
        "output_validation_changed"@,
        "output model validation metadata changed"@,
    );
}

/// A model breaks clients if and only if it lost a field, tightened one that it
/// kept, or, where clients send it, gained a required field. A field is tightened
/// where clients must now send it, or may no longer count on receiving it; where
/// its own type breaks; or where its rules turn away what they let through.
pub proof fn law_what_breaks_in_a_model(
    previous: ModelView,
    current: ModelView,
    path: Seq<char>,
    direction: TypeDirection,
)
    ensures
        has_breaking(model_changes(previous, current, path, direction)) <==> {
            ||| exists|i: int|
                0 <= i < previous.fields.len() && !declares(
                    current.fields,
                    (#[trigger] previous.fields[i]).name,
                )
            ||| exists|i: int, j: int|
                0 <= i < previous.fields.len() && declared_at(
                    current.fields,
                    (#[trigger] previous.fields[i]).name,
                    j,
                ) && field_tightened(previous.fields[i], #[trigger] current.fields[j], path, direction)
            ||| direction == TypeDirection::Input && exists|j: int|
                0 <= j < current.fields.len() && (#[trigger] current.fields[j]).required
                    && !declares(previous.fields, current.fields[j].name)
        },
{
    let renamed = if previous.name != current.name {
        one(
            CompatibilityImpact::Metadata,
            path + ".model.name"@,
            "model_name_changed"@,
            "model name changed without changing its wire shape"@,
        )
    } else {
        Seq::empty()
    };
    lemma_breaking_one(
        CompatibilityImpact::Metadata,
        path + ".model.name"@,
        "model_name_changed"@,
        "model name changed without changing its wire shape"@,
    );
    let kept = kept_fields(previous.fields, current.fields, path, direction);
    let added = |field: FieldView| added_field(field, previous.fields, path, direction);
    lemma_breaking_joined(renamed, kept);
    lemma_breaking_joined(renamed + kept, each(current.fields, added));
    lemma_breaking_kept(previous.fields, current.fields, path, direction);
    lemma_breaking_each(current.fields, added);
    assert forall|i: int| 0 <= i < previous.fields.len() implies has_breaking(
        kept_field(#[trigger] previous.fields[i], current.fields, path, direction),
    ) == ({
        ||| !declares(current.fields, previous.fields[i].name)
        ||| exists|j: int|
            declared_at(current.fields, previous.fields[i].name, j) && field_tightened(
                previous.fields[i],
                #[trigger] current.fields[j],
                path,
                direction,
            )
    }) by {
        lemma_breaking_field(previous.fields[i], current.fields, path, direction);
    }
    assert forall|j: int| 0 <= j < current.fields.len() implies has_breaking(
        added(#[trigger] current.fields[j]),
    ) == (direction == TypeDirection::Input && current.fields[j].required && !declares(
        previous.fields,
        current.fields[j].name,
    )) by {
        let field = current.fields[j];
        let hit = |other: FieldView| other.name == field.name;
        lemma_first_found(previous.fields, hit);
        if first(previous.fields, hit) is None && declares(previous.fields, field.name) {
            let k = choose|k: int|
                0 <= k < previous.fields.len() && (#[trigger] previous.fields[k]).name
                    == field.name;
            assert(!hit(previous.fields[k]));
        }
        let sent = direction == TypeDirection::Input;
        lemma_breaking_one(
            breaking_when(sent && field.required),
            path + ".fields."@ + field.name,
            if field.required {
                "required_model_field_added"@
            } else {
                "optional_model_field_added"@
            },
            "a model field was added"@,
        );
    }
}

/// A field that a model kept asks more of clients that send it, or promises less
/// to clients that receive it.
pub open spec fn field_tightened(
    previous: FieldView,
    current: FieldView,
    path: Seq<char>,
    direction: TypeDirection,
) -> bool {
    ||| direction == TypeDirection::Input && !previous.required && current.required
    ||| direction == TypeDirection::Output && previous.required && !current.required
    ||| has_breaking(
        type_changes(
            previous.ty,
            current.ty,
            path + ".fields."@ + previous.name + ".type"@,
            direction,
        ),
    )
    ||| direction == TypeDirection::Input && rules_tightened(
        previous.validation,
        current.validation,
    )
}

proof fn lemma_breaking_field(
    previous: FieldView,
    current: Seq<FieldView>,
    path: Seq<char>,
    direction: TypeDirection,
)
    ensures
        has_breaking(kept_field(previous, current, path, direction)) == ({
            ||| !declares(current, previous.name)
            ||| exists|j: int|
                declared_at(current, previous.name, j) && field_tightened(
                    previous,
                    #[trigger] current[j],
                    path,
                    direction,
                )
        }),
{
    let field_path = path + ".fields."@ + previous.name;
    let hit = |field: FieldView| field.name == previous.name;
    lemma_first_found(current, hit);
    match first(current, hit) {
        None => {
            if declares(current, previous.name) {
                let k = choose|k: int|
                    0 <= k < current.len() && (#[trigger] current[k]).name == previous.name;
                assert(!hit(current[k]));
            }
            lemma_breaking_one(
                CompatibilityImpact::Breaking,
                field_path,
                "model_field_removed"@,
                "a model field was removed"@,
            );
        },
        Some(field) => {
            let at = choose|at: int|
                0 <= at < current.len() && #[trigger] current[at] == field && hit(field) && forall|
                    i: int,
                |
                    0 <= i < at ==> !hit(#[trigger] current[i]);
            assert forall|i: int| 0 <= i < at implies (#[trigger] current[i]).name
                != previous.name by {
                assert(!hit(current[i]));
            }
            assert(declares(current, previous.name)) by {
                assert(current[at].name == previous.name);
            }
            assert(declared_at(current, previous.name, at));
            assert forall|j: int| #[trigger] declared_at(current, previous.name, j) implies j == at by {
                if j < at {
                    assert(current[j].name != previous.name);
                } else if j > at {
                    assert(current[at].name != previous.name);
                }
            }
            let impact = breaking_when((direction == TypeDirection::Input) == field.required);
            let demanded = if previous.required != field.required {
                one(
                    impact,
                    field_path + ".required"@,
                    "model_field_requiredness_changed"@,
                    "model field requiredness changed"@,
                )
            } else {
                Seq::empty()
            };
            lemma_breaking_one(
                impact,
                field_path + ".required"@,
                "model_field_requiredness_changed"@,
                "model field requiredness changed"@,
            );
            let shape = type_changes(previous.ty, field.ty, field_path + ".type"@, direction);
            let rules = rule_changes(previous.validation, field.validation, field_path, direction);
            lemma_breaking_joined(demanded, shape);
            lemma_breaking_joined(demanded + shape, rules);
            law_tightened_rules_break(previous.validation, field.validation, field_path);
            assert(field_tightened(previous, current[at], path, direction) == has_breaking(
                kept_field(previous, current, path, direction),
            ));
        },
    }
}

/// A type breaks clients if and only if its wire shape changed, it lost what was
/// known of its items or its model, gained such knowledge where clients send it,
/// or its items or its model break.
pub proof fn law_what_breaks_in_a_type(
    previous: TypeView,
    current: TypeView,
    path: Seq<char>,
    direction: TypeDirection,
)
    ensures
        has_breaking(type_changes(previous, current, path, direction)) <==> {
            ||| previous.schema != current.schema
            ||| match (previous.items, current.items) {
                (Some(a), Some(b)) => has_breaking(
                    type_changes(*a, *b, path + ".items"@, direction),
                ),
                (Some(_), None) => true,
                (None, Some(_)) => direction == TypeDirection::Input,
                (None, None) => false,
            }
            ||| match (previous.model, current.model) {
                (Some(a), Some(b)) => has_breaking(model_changes(*a, *b, path, direction)),
                (Some(_), None) => true,
                (None, Some(_)) => direction == TypeDirection::Input,
                (None, None) => false,
            }
        },
{
    lemma_breaking_one(
        CompatibilityImpact::Breaking,
        path + ".schema"@,
        "schema_changed"@,
        "wire schema changed"@,
    );
    if previous.schema == current.schema {
        let renamed = if previous.rust_name != current.rust_name {
            one(
                CompatibilityImpact::Metadata,
                path + ".rust_name"@,
                "rust_type_name_changed"@,
                "Rust type name changed without changing the wire shape"@,
            )
        } else {
            Seq::empty()
        };
        lemma_breaking_one(
            CompatibilityImpact::Metadata,
            path + ".rust_name"@,
            "rust_type_name_changed"@,
            "Rust type name changed without changing the wire shape"@,
        );
        let items = item_changes(previous, current, path, direction);
        let model = nested_changes(previous, current, path, direction);
        lemma_breaking_joined(renamed, items);
        lemma_breaking_joined(renamed + items, model);
        lemma_breaking_one(
            CompatibilityImpact::Breaking,
            path + ".items"@,
            "collection_item_contract_removed"@,
            "collection item contract precision was removed"@,
        );
        lemma_breaking_one(
            breaking_when(direction == TypeDirection::Input),
            path + ".items"@,
            "collection_item_contract_added"@,
            "collection item contract precision was added"@,
        );
        lemma_breaking_one(
            CompatibilityImpact::Breaking,
            path + ".model"@,
            "model_contract_removed"@,
            "model contract precision was removed"@,
        );
        lemma_breaking_one(
            breaking_when(direction == TypeDirection::Input),
            path + ".model"@,
            "model_contract_added"@,
            "model contract precision was added"@,
        );
        assert(type_changes(previous, current, path, direction) == renamed + items + model);
    }
}

/// Two inputs that clients address in the same way: from the same source, under
/// the same name, where the ASCII case of a header name does not matter.
pub open spec fn addressed_alike(left: InputView, right: InputView) -> bool {
    left.source == right.source && (left.name == right.name || left.source == InputSource::Header
        && lower_all(left.name) == lower_all(right.name))
}

/// Some input is addressed as another one is.
pub open spec fn takes_input(inputs: Seq<InputView>, input: InputView) -> bool {
    exists|i: int| 0 <= i < inputs.len() && addressed_alike(input, #[trigger] inputs[i])
}

/// The first input addressed as another one stands at a position.
pub open spec fn input_taken_at(inputs: Seq<InputView>, input: InputView, at: int) -> bool {
    &&& 0 <= at < inputs.len()
    &&& addressed_alike(input, inputs[at])
    &&& forall|i: int| 0 <= i < at ==> !addressed_alike(input, #[trigger] inputs[i])
}

proof fn lemma_taken_inputs(inputs: Seq<InputView>, input: InputView)
    ensures
        match first(inputs, |other: InputView| same_input(input, other)) {
            Some(other) => takes_input(inputs, input) && exists|at: int|
                input_taken_at(inputs, input, at) && #[trigger] inputs[at] == other && forall|j: int|
                    #[trigger] input_taken_at(inputs, input, j) ==> j == at,
            None => !takes_input(inputs, input) && forall|j: int|
                !#[trigger] input_taken_at(inputs, input, j),
        },
{
    let hit = |other: InputView| same_input(input, other);
    assert forall|other: InputView| #[trigger] hit(other) == addressed_alike(input, other) by {}
    lemma_first_found(inputs, hit);
    match first(inputs, hit) {
        Some(other) => {
            let at = choose|at: int|
                0 <= at < inputs.len() && #[trigger] inputs[at] == other && hit(other) && forall|
                    i: int,
                |
                    0 <= i < at ==> !hit(#[trigger] inputs[i]);
            assert(addressed_alike(input, inputs[at]));
            assert forall|i: int| 0 <= i < at implies !addressed_alike(
                input,
                #[trigger] inputs[i],
            ) by {
                assert(!hit(inputs[i]));
            }
            assert(input_taken_at(inputs, input, at));
            assert forall|j: int| #[trigger] input_taken_at(inputs, input, j) implies j == at by {
                if j < at {
                    assert(!addressed_alike(input, inputs[j]));
                } else if j > at {
                    assert(!addressed_alike(input, inputs[at]));
                }
            }
        },
        None => {
            assert forall|i: int| 0 <= i < inputs.len() implies !addressed_alike(
                input,
                #[trigger] inputs[i],
            ) by {
                assert(!hit(inputs[i]));
            }
        },
    }
}

/// Inputs break clients if and only if one was removed, an optional one became
/// required, the type of one breaks for those who send it, or a required one was
/// added.
pub proof fn law_what_breaks_in_inputs(previous: ContractView, current: ContractView)
    ensures
        has_breaking(input_changes(previous, current)) <==> {
            ||| exists|i: int|
                0 <= i < previous.inputs.len() && !takes_input(
                    current.inputs,
                    #[trigger] previous.inputs[i],
                )
            ||| exists|i: int, j: int|
                0 <= i < previous.inputs.len() && input_taken_at(
                    current.inputs,
                    #[trigger] previous.inputs[i],
                    j,
                ) && input_tightened(previous.inputs[i], #[trigger] current.inputs[j])
            ||| exists|j: int|
                0 <= j < current.inputs.len() && (#[trigger] current.inputs[j]).required
                    && !takes_input(previous.inputs, current.inputs[j])
        },
{
    let kept = |input: InputView| kept_input(input, current.inputs);
    let added = |input: InputView| added_input(input, previous.inputs);
    lemma_breaking_joined(each(previous.inputs, kept), each(current.inputs, added));
    lemma_breaking_each(previous.inputs, kept);
    lemma_breaking_each(current.inputs, added);
    assert forall|i: int| 0 <= i < previous.inputs.len() implies has_breaking(
        kept(#[trigger] previous.inputs[i]),
    ) == ({
        ||| !takes_input(current.inputs, previous.inputs[i])
        ||| exists|j: int|
            input_taken_at(current.inputs, previous.inputs[i], j) && input_tightened(
                previous.inputs[i],
                #[trigger] current.inputs[j],
            )
    }) by {
        lemma_breaking_input(previous.inputs[i], current.inputs);
    }
    assert forall|j: int| 0 <= j < current.inputs.len() implies has_breaking(
        added(#[trigger] current.inputs[j]),
    ) == (current.inputs[j].required && !takes_input(previous.inputs, current.inputs[j])) by {
        let input = current.inputs[j];
        lemma_taken_inputs(previous.inputs, input);
        lemma_breaking_one(
            CompatibilityImpact::Breaking,
            input_path_spec(input),
            "required_input_added"@,
            "a new required operation input was added"@,
        );
        lemma_breaking_one(
            CompatibilityImpact::NonBreaking,
            input_path_spec(input),
            "optional_input_added"@,
            "a new optional operation input was added"@,
        );
    }
}

/// An input asks more of clients: it became required, or its type breaks for
/// those who send it.
pub open spec fn input_tightened(previous: InputView, current: InputView) -> bool {
    ||| !previous.required && current.required
    ||| has_breaking(
        type_changes(
            previous.ty,
            current.ty,
            input_path_spec(previous) + ".type"@,
            TypeDirection::Input,
        ),
    )
}

proof fn lemma_breaking_input(input: InputView, current: Seq<InputView>)
    ensures
        has_breaking(kept_input(input, current)) == ({
            ||| !takes_input(current, input)
            ||| exists|j: int|
                input_taken_at(current, input, j) && input_tightened(input, #[trigger] current[j])
        }),
{
    let path = input_path_spec(input);
    lemma_taken_inputs(current, input);
    lemma_breaking_one(
        CompatibilityImpact::Breaking,
        path,
        "input_removed"@,
        "an accepted operation input was removed"@,
    );
    match first(current, |other: InputView| same_input(input, other)) {
        None => {},
        Some(other) => {
            let at = choose|at: int|
                input_taken_at(current, input, at) && #[trigger] current[at] == other && forall|
                    j: int,
                | #[trigger]
                    input_taken_at(current, input, j) ==> j == at;
            lemma_breaking_one(
                CompatibilityImpact::Breaking,
                path + ".required"@,
                "input_became_required"@,
                "an optional input became required"@,
            );
            lemma_breaking_one(
                CompatibilityImpact::NonBreaking,
                path + ".required"@,
                "input_became_optional"@,
                "a required input became optional"@,
            );
            let demanded = if !input.required && other.required {
                one(
                    CompatibilityImpact::Breaking,
                    path + ".required"@,
                    "input_became_required"@,
                    "an optional input became required"@,
                )
            } else if input.required && !other.required {
                one(
                    CompatibilityImpact::NonBreaking,
                    path + ".required"@,
                    "input_became_optional"@,
                    "a required input became optional"@,
                )
            } else {
                Seq::empty()
            };
            let shape = type_changes(input.ty, other.ty, path + ".type"@, TypeDirection::Input);
            lemma_breaking_joined(demanded, shape);
            assert(input_tightened(input, current[at]) == has_breaking(kept_input(input, current)));
        },
    }
}

/// Dependencies break if and only if one was added.
pub proof fn law_what_breaks_in_dependencies(previous: ContractView, current: ContractView)
    ensures
        has_breaking(dependency_changes(previous, current)) <==> exists|i: int|
            0 <= i < current.dependencies.len() && !previous.dependencies.contains(
                #[trigger] current.dependencies[i],
            ),
{
    let lost = |name: Seq<char>|
        if current.dependencies.contains(name) {
            Seq::empty()
        } else {
            one(
                CompatibilityImpact::NonBreaking,
                "dependencies."@ + name,
                "dependency_removed"@,
                "an operation dependency was removed"@,
            )
        };
    let gained = |name: Seq<char>|
        if previous.dependencies.contains(name) {
            Seq::empty()
        } else {
            one(
                CompatibilityImpact::Breaking,
                "dependencies."@ + name,
                "dependency_added"@,
                "a new operation dependency must be provided"@,
            )
        };
    assert(dependency_changes(previous, current) == each(previous.dependencies, lost) + each(
        current.dependencies,
        gained,
    ));
    lemma_breaking_joined(each(previous.dependencies, lost), each(current.dependencies, gained));
    lemma_breaking_each(previous.dependencies, lost);
    lemma_breaking_each(current.dependencies, gained);
    assert forall|i: int| 0 <= i < previous.dependencies.len() implies !has_breaking(
        lost(#[trigger] previous.dependencies[i]),
    ) by {
        lemma_breaking_one(
            CompatibilityImpact::NonBreaking,
            "dependencies."@ + previous.dependencies[i],
            "dependency_removed"@,
            "an operation dependency was removed"@,
        );
    }
    assert forall|i: int| 0 <= i < current.dependencies.len() implies has_breaking(
        gained(#[trigger] current.dependencies[i]),
    ) == !previous.dependencies.contains(current.dependencies[i]) by {
        lemma_breaking_one(
            CompatibilityImpact::Breaking,
            "dependencies."@ + current.dependencies[i],
            "dependency_added"@,
            "a new operation dependency must be provided"@,
        );
    }
}

/// Scopes break if and only if one was added.
pub proof fn law_what_breaks_in_scopes(
    previous: Seq<Seq<char>>,
    current: Seq<Seq<char>>,
    path: Seq<char>,
)
    ensures
        has_breaking(scope_changes(previous, current, path)) <==> exists|i: int|
            0 <= i < current.len() && !previous.contains(#[trigger] current[i]),
{
    let lost = |scope: Seq<char>|
        if current.contains(scope) {
            Seq::empty()
        } else {
            one(
                CompatibilityImpact::NonBreaking,
                path + "."@ + scope,
                "security_scope_removed"@,
                "a declared value was removed"@,
            )
        };
    let gained = |scope: Seq<char>|
        if previous.contains(scope) {
            Seq::empty()
        } else {
            one(
                CompatibilityImpact::Breaking,
                path + "."@ + scope,
                "security_scope_added"@,
                "a declared value was added"@,
            )
        };
    assert(scope_changes(previous, current, path) == each(previous, lost) + each(current, gained));
    lemma_breaking_joined(each(previous, lost), each(current, gained));
    lemma_breaking_each(previous, lost);
    lemma_breaking_each(current, gained);
    assert forall|i: int| 0 <= i < previous.len() implies !has_breaking(
        lost(#[trigger] previous[i]),
    ) by {
        lemma_breaking_one(
            CompatibilityImpact::NonBreaking,
            path + "."@ + previous[i],
            "security_scope_removed"@,
            "a declared value was removed"@,
        );
    }
    assert forall|i: int| 0 <= i < current.len() implies has_breaking(gained(#[trigger] current[i]))
        == !previous.contains(current[i]) by {
        lemma_breaking_one(
            CompatibilityImpact::Breaking,
            path + "."@ + current[i],
            "security_scope_added"@,
            "a declared value was added"@,
        );
    }
}

/// The first requirement of a scheme stands at a position.
pub open spec fn scheme_at(list: Seq<SecurityView>, scheme: Seq<char>, at: int) -> bool {
    &&& 0 <= at < list.len()
    &&& list[at].scheme == scheme
    &&& forall|i: int| 0 <= i < at ==> (#[trigger] list[i]).scheme != scheme
}

/// Some requirement is of a scheme.
pub open spec fn has_scheme(list: Seq<SecurityView>, scheme: Seq<char>) -> bool {
    exists|i: int| 0 <= i < list.len() && (#[trigger] list[i]).scheme == scheme
}

proof fn lemma_schemes(list: Seq<SecurityView>, scheme: Seq<char>)
    ensures
        match first(list, |other: SecurityView| other.scheme == scheme) {
            Some(other) => has_scheme(list, scheme) && exists|at: int|
                scheme_at(list, scheme, at) && #[trigger] list[at] == other && forall|j: int|
                    #[trigger] scheme_at(list, scheme, j) ==> j == at,
            None => !has_scheme(list, scheme),
        },
{
    let hit = |other: SecurityView| other.scheme == scheme;
    lemma_first_found(list, hit);
    match first(list, hit) {
        Some(other) => {
            let at = choose|at: int|
                0 <= at < list.len() && #[trigger] list[at] == other && hit(other) && forall|
                    i: int,
                |
                    0 <= i < at ==> !hit(#[trigger] list[i]);
            assert forall|i: int| 0 <= i < at implies (#[trigger] list[i]).scheme != scheme by {
                assert(!hit(list[i]));
            }
            assert(scheme_at(list, scheme, at));
            assert forall|j: int| #[trigger] scheme_at(list, scheme, j) implies j == at by {
                if j < at {
                    assert(list[j].scheme != scheme);
                } else if j > at {
                    assert(list[at].scheme != scheme);
                }
            }
        },
        None => {
            assert forall|i: int| 0 <= i < list.len() implies (#[trigger] list[i]).scheme
                != scheme by {
                assert(!hit(list[i]));
            }
        },
    }
}

/// Security breaks clients if and only if a requirement was added, or one that
/// was kept asks for a further scope.
pub proof fn law_what_breaks_in_security(previous: ContractView, current: ContractView)
    ensures
        has_breaking(security_changes(previous, current)) <==> {
            ||| exists|j: int|
                0 <= j < current.security.len() && !has_scheme(
                    previous.security,
                    (#[trigger] current.security[j]).scheme,
                )
            ||| exists|i: int, j: int|
                0 <= i < previous.security.len() && scheme_at(
                    current.security,
                    (#[trigger] previous.security[i]).scheme,
                    j,
                ) && more_scopes(previous.security[i], #[trigger] current.security[j])
        },
{
    let kept = |requirement: SecurityView| kept_requirement(requirement, current.security);
    let added = |requirement: SecurityView| added_requirement(requirement, previous.security);
    lemma_breaking_joined(each(previous.security, kept), each(current.security, added));
    lemma_breaking_each(previous.security, kept);
    lemma_breaking_each(current.security, added);
    assert forall|i: int| 0 <= i < previous.security.len() implies has_breaking(
        kept(#[trigger] previous.security[i]),
    ) == (exists|j: int|
        scheme_at(current.security, previous.security[i].scheme, j) && more_scopes(
            previous.security[i],
            #[trigger] current.security[j],
        )) by {
        let requirement = previous.security[i];
        lemma_schemes(current.security, requirement.scheme);
        lemma_breaking_one(
            CompatibilityImpact::NonBreaking,
            "security."@ + requirement.scheme,
            "security_requirement_removed"@,
            "a security requirement was removed"@,
        );
        match first(
            current.security,
            |other: SecurityView| other.scheme == requirement.scheme,
        ) {
            Some(other) => {
                let at = choose|at: int|
                    scheme_at(current.security, requirement.scheme, at)
                        && #[trigger] current.security[at] == other && forall|j: int|
                        #[trigger] scheme_at(current.security, requirement.scheme, j) ==> j == at;
                law_what_breaks_in_scopes(
                    requirement.scopes,
                    other.scopes,
                    "security."@ + requirement.scheme + ".scopes"@,
                );
                assert(more_scopes(requirement, current.security[at]) == has_breaking(
                    kept(requirement),
                ));
            },
            None => {},
        }
    }
    assert forall|j: int| 0 <= j < current.security.len() implies has_breaking(
        added(#[trigger] current.security[j]),
    ) == !has_scheme(previous.security, current.security[j].scheme) by {
        let requirement = current.security[j];
        lemma_schemes(previous.security, requirement.scheme);
        lemma_breaking_one(
            CompatibilityImpact::Breaking,
            "security."@ + requirement.scheme,
            "security_requirement_added"@,
            "a new security requirement was added"@,
        );
    }
}

/// A requirement asks for a scope that another one did not.
pub open spec fn more_scopes(previous: SecurityView, current: SecurityView) -> bool {
    exists|k: int|
        0 <= k < current.scopes.len() && !previous.scopes.contains(#[trigger] current.scopes[k])
}

/// Two responses that clients tell apart from all others in the same way: by the
/// status and the error code.
pub open spec fn answered_alike(left: ResponseView, right: ResponseView) -> bool {
    left.status == right.status && left.error_code == right.error_code
}

/// The first response that clients take for another one stands at a position.
pub open spec fn response_at(list: Seq<ResponseView>, response: ResponseView, at: int) -> bool {
    &&& 0 <= at < list.len()
    &&& answered_alike(response, list[at])
    &&& forall|i: int| 0 <= i < at ==> !answered_alike(response, #[trigger] list[i])
}

/// Some response is one that clients take for another one.
pub open spec fn has_response(list: Seq<ResponseView>, response: ResponseView) -> bool {
    exists|i: int| 0 <= i < list.len() && answered_alike(response, #[trigger] list[i])
}

/// The first header of a name, in any ASCII case, stands at a position.
pub open spec fn header_at(list: Seq<HeaderView>, name: Seq<char>, at: int) -> bool {
    &&& 0 <= at < list.len()
    &&& lower_all(list[at].name) == lower_all(name)
    &&& forall|i: int| 0 <= i < at ==> lower_all((#[trigger] list[i]).name) != lower_all(name)
}

/// Some header has a name, in any ASCII case.
pub open spec fn has_header(list: Seq<HeaderView>, name: Seq<char>) -> bool {
    exists|i: int| 0 <= i < list.len() && lower_all((#[trigger] list[i]).name) == lower_all(name)
}

/// The headers of a response break clients if and only if one was removed or
/// says something else.
pub proof fn law_what_breaks_in_headers(
    previous: Seq<HeaderView>,
    current: Seq<HeaderView>,
    path: Seq<char>,
)
    ensures
        has_breaking(header_changes(previous, current, path)) <==> {
            ||| exists|i: int|
                0 <= i < previous.len() && !has_header(current, (#[trigger] previous[i]).name)
            ||| exists|i: int, j: int|
                0 <= i < previous.len() && header_at(current, (#[trigger] previous[i]).name, j)
                    && (#[trigger] current[j]).value != previous[i].value
        },
{
    let kept = |header: HeaderView| kept_header(header, current, path);
    let added = |header: HeaderView| added_header(header, previous, path);
    lemma_breaking_joined(each(previous, kept), each(current, added));
    lemma_breaking_each(previous, kept);
    lemma_breaking_each(current, added);
    assert forall|i: int| 0 <= i < previous.len() implies has_breaking(kept(#[trigger] previous[i]))
        == ({
        ||| !has_header(current, previous[i].name)
        ||| exists|j: int|
            header_at(current, previous[i].name, j) && (#[trigger] current[j]).value
                != previous[i].value
    }) by {
        let header = previous[i];
        let full = path + ".headers."@ + lower_all(header.name);
        let hit = |other: HeaderView| lower_all(other.name) == lower_all(header.name);
        lemma_first_found(current, hit);
        lemma_breaking_one(
            CompatibilityImpact::Breaking,
            full,
            "response_header_removed"@,
            "a declared response header was removed"@,
        );
        lemma_breaking_one(
            CompatibilityImpact::Breaking,
            full,
            "response_header_value_changed"@,
            "a declared response header value changed"@,
        );
        match first(current, hit) {
            None => {
                assert forall|j: int| 0 <= j < current.len() implies lower_all(
                    (#[trigger] current[j]).name,
                ) != lower_all(header.name) by {
                    assert(!hit(current[j]));
                }
            },
            Some(other) => {
                let at = choose|at: int|
                    0 <= at < current.len() && #[trigger] current[at] == other && hit(other)
                        && forall|i: int| 0 <= i < at ==> !hit(#[trigger] current[i]);
                assert forall|j: int| 0 <= j < at implies lower_all((#[trigger] current[j]).name)
                    != lower_all(header.name) by {
                    assert(!hit(current[j]));
                }
                assert(header_at(current, header.name, at));
                assert forall|j: int| #[trigger] header_at(current, header.name, j) implies j
                    == at by {
                    if j < at {
                        assert(lower_all(current[j].name) != lower_all(header.name));
                    } else if j > at {
                        assert(lower_all(current[at].name) != lower_all(header.name));
                    }
                }
                assert(has_header(current, header.name)) by {
                    assert(lower_all(current[at].name) == lower_all(header.name));
                }
                assert(current[at].value == other.value);
            },
        }
    }
    assert forall|j: int| 0 <= j < current.len() implies !has_breaking(
        added(#[trigger] current[j]),
    ) by {
        lemma_breaking_one(
            CompatibilityImpact::NonBreaking,
            path + ".headers."@ + lower_all(current[j].name),
            "response_header_added"@,
            "a new response header was declared"@,
        );
    }
}

/// A response promises less to clients: its body was removed or breaks for those
/// who receive it, or its headers break.
pub open spec fn response_weakened(previous: ResponseView, current: ResponseView) -> bool {
    ||| match (previous.body, current.body) {
        (Some(a), Some(b)) => has_breaking(
            type_changes(a, b, response_path_spec(previous) + ".body"@, TypeDirection::Output),
        ),
        (Some(_), None) => true,
        (None, _) => false,
    }
    ||| has_breaking(
        header_changes(previous.headers, current.headers, response_path_spec(previous)),
    )
}

/// Responses break clients if and only if one was removed or promises less.
pub proof fn law_what_breaks_in_responses(previous: ContractView, current: ContractView)
    ensures
        has_breaking(response_changes(previous, current)) <==> {
            ||| exists|i: int|
                0 <= i < previous.responses.len() && !has_response(
                    current.responses,
                    #[trigger] previous.responses[i],
                )
            ||| exists|i: int, j: int|
                0 <= i < previous.responses.len() && response_at(
                    current.responses,
                    #[trigger] previous.responses[i],
                    j,
                ) && response_weakened(previous.responses[i], #[trigger] current.responses[j])
        },
{
    let kept = |response: ResponseView| kept_response(response, current.responses);
    let added = |response: ResponseView| added_response(response, previous.responses);
    lemma_breaking_joined(each(previous.responses, kept), each(current.responses, added));
    lemma_breaking_each(previous.responses, kept);
    lemma_breaking_each(current.responses, added);
    assert forall|i: int| 0 <= i < previous.responses.len() implies has_breaking(
        kept(#[trigger] previous.responses[i]),
    ) == ({
        ||| !has_response(current.responses, previous.responses[i])
        ||| exists|j: int|
            response_at(current.responses, previous.responses[i], j) && response_weakened(
                previous.responses[i],
                #[trigger] current.responses[j],
            )
    }) by {
        lemma_breaking_response(previous.responses[i], current.responses);
    }
    assert forall|j: int| 0 <= j < current.responses.len() implies !has_breaking(
        added(#[trigger] current.responses[j]),
    ) by {
        lemma_breaking_one(
            CompatibilityImpact::NonBreaking,
            response_path_spec(current.responses[j]),
            "response_added"@,
            "a new operation response was declared"@,
        );
    }
}

proof fn lemma_breaking_response(response: ResponseView, current: Seq<ResponseView>)
    ensures
        has_breaking(kept_response(response, current)) == ({
            ||| !has_response(current, response)
            ||| exists|j: int|
                response_at(current, response, j) && response_weakened(
                    response,
                    #[trigger] current[j],
                )
        }),
{
    let path = response_path_spec(response);
    let hit = |other: ResponseView| same_response(response, other);
    assert forall|other: ResponseView| #[trigger] hit(other) == answered_alike(response, other) by {}
    lemma_first_found(current, hit);
    match first(current, hit) {
        None => {
            assert forall|j: int| 0 <= j < current.len() implies !answered_alike(
                response,
                #[trigger] current[j],
            ) by {
                assert(!hit(current[j]));
            }
            lemma_breaking_one(
                CompatibilityImpact::Breaking,
                path,
                "response_removed"@,
                "a declared operation response was removed"@,
            );
        },
        Some(other) => {
            let at = choose|at: int|
                0 <= at < current.len() && #[trigger] current[at] == other && hit(other) && forall|
                    i: int,
                |
                    0 <= i < at ==> !hit(#[trigger] current[i]);
            assert forall|j: int| 0 <= j < at implies !answered_alike(
                response,
                #[trigger] current[j],
            ) by {
                assert(!hit(current[j]));
            }
            assert(answered_alike(response, current[at]));
            assert(response_at(current, response, at));
            assert forall|j: int| #[trigger] response_at(current, response, j) implies j == at by {
                if j < at {
                    assert(!answered_alike(response, current[j]));
                } else if j > at {
                    assert(!answered_alike(response, current[at]));
                }
            }
            let body = body_changes(response.body, other.body, path);
            let told = if response.error_message != other.error_message {
                one(
                    CompatibilityImpact::Metadata,
                    path + ".error_message"@,
                    "error_message_changed"@,
                    "a declared error message changed"@,
                )
            } else {
                Seq::empty()
            };
            let headers = header_changes(response.headers, other.headers, path);
            lemma_breaking_joined(body, told);
            lemma_breaking_joined(body + told, headers);
            lemma_breaking_one(
                CompatibilityImpact::Metadata,
                path + ".error_message"@,
                "error_message_changed"@,
                "a declared error message changed"@,
            );
            lemma_breaking_one(
                CompatibilityImpact::Breaking,
                path + ".body"@,
                "response_body_removed"@,
                "a declared response body was removed"@,
            );
            lemma_breaking_one(
                CompatibilityImpact::NonBreaking,
                path + ".body"@,
                "response_body_added"@,
                "a response body was added"@,
            );
            assert(response_weakened(response, current[at]) == has_breaking(
                kept_response(response, current),
            ));
        },
    }
}

/// An operation became riskier: from reading to writing, or from either to
/// destroying.
pub open spec fn riskier(previous: OperationRisk, current: OperationRisk) -> bool {
    ||| previous == OperationRisk::Read && current != OperationRisk::Read
    ||| previous == OperationRisk::Write && current == OperationRisk::Destructive
}

/// Less of the output is shown: what was shown in full no longer is, or what was
/// summarised is hidden.
pub open spec fn less_shown(previous: OutputExposure, current: OutputExposure) -> bool {
    ||| previous == OutputExposure::Full && current != OutputExposure::Full
    ||| previous == OutputExposure::SummaryOnly && current == OutputExposure::Hidden
}

/// The agent policy breaks callers if and only if the operation became riskier,
/// now asks for a confirmation, or is no longer idempotent.
pub proof fn law_what_breaks_in_the_agent_policy(previous: ContractView, current: ContractView)
    ensures
        has_breaking(agent_changes(previous, current)) <==> {
            ||| riskier(previous.agent.risk, current.agent.risk)
            ||| previous.agent.confirmation != Confirmation::Required && current.agent.confirmation
                == Confirmation::Required
            ||| previous.agent.idempotent && !current.agent.idempotent
        },
{
    let risk = breaking_when(
        risk_tag_spec(current.agent.risk) > risk_tag_spec(previous.agent.risk),
    );
    let asked = breaking_when(current.agent.confirmation == Confirmation::Required);
    let repeat = breaking_when(previous.agent.idempotent);
    let a = if risk_tag_spec(previous.agent.risk) != risk_tag_spec(current.agent.risk) {
        one(risk, "agent.risk"@, "agent_risk_changed"@, "agent invocation risk changed"@)
    } else {
        Seq::empty()
    };
    let b = if previous.agent.confirmation != current.agent.confirmation {
        one(
            asked,
            "agent.confirmation"@,
            "agent_confirmation_changed"@,
            "agent confirmation policy changed"@,
        )
    } else {
        Seq::empty()
    };
    let c = if previous.agent.idempotent != current.agent.idempotent {
        one(
            repeat,
            "agent.idempotent"@,
            "agent_idempotency_changed"@,
            "agent idempotency guarantee changed"@,
        )
    } else {
        Seq::empty()
    };
    lemma_breaking_joined(a, b);
    lemma_breaking_joined(a + b, c);
    lemma_breaking_one(risk, "agent.risk"@, "agent_risk_changed"@, "agent invocation risk changed"@);
    lemma_breaking_one(
        asked,
        "agent.confirmation"@,
        "agent_confirmation_changed"@,
        "agent confirmation policy changed"@,
    );
    lemma_breaking_one(
        repeat,
        "agent.idempotent"@,
        "agent_idempotency_changed"@,
        "agent idempotency guarantee changed"@,
    );
    assert(agent_changes(previous, current) == a + b + c);
}

/// The MCP projection breaks callers if and only if the tool was removed or
/// renamed, or shows less of its output.
pub proof fn law_what_breaks_in_the_mcp_tool(previous: ContractView, current: ContractView)
    ensures
        has_breaking(mcp_changes(previous, current)) <==> match (previous.mcp, current.mcp) {
            (Some(a), Some(b)) => a.name != b.name || less_shown(a.expose_output, b.expose_output),
            (Some(_), None) => true,
            (None, _) => false,
        },
{
    lemma_breaking_one(
        CompatibilityImpact::Breaking,
        "mcp"@,
        "mcp_tool_removed"@,
        "MCP tool projection was removed"@,
    );
    lemma_breaking_one(
        CompatibilityImpact::NonBreaking,
        "mcp"@,
        "mcp_tool_added"@,
        "MCP tool projection was added"@,
    );
    match (previous.mcp, current.mcp) {
        (Some(a), Some(b)) => {
            let shown = breaking_when(
                exposure_tag_spec(b.expose_output) > exposure_tag_spec(a.expose_output),
            );
            let x = if a.name != b.name {
                one(
                    CompatibilityImpact::Breaking,
                    "mcp.name"@,
                    "mcp_tool_name_changed"@,
                    "MCP tool name changed"@,
                )
            } else {
                Seq::empty()
            };
            let y = if a.description != b.description {
                one(
                    CompatibilityImpact::Metadata,
                    "mcp.description"@,
                    "mcp_description_changed"@,
                    "MCP tool description changed"@,
                )
            } else {
                Seq::empty()
            };
            let z = if exposure_tag_spec(a.expose_output) != exposure_tag_spec(b.expose_output) {
                one(
                    shown,
                    "mcp.expose_output"@,
                    "mcp_output_exposure_changed"@,
                    "MCP output exposure policy changed"@,
                )
            } else {
                Seq::empty()
            };
            lemma_breaking_joined(x, y);
            lemma_breaking_joined(x + y, z);
            lemma_breaking_one(
                CompatibilityImpact::Breaking,
                "mcp.name"@,
                "mcp_tool_name_changed"@,
                "MCP tool name changed"@,
            );
            lemma_breaking_one(
                CompatibilityImpact::Metadata,
                "mcp.description"@,
                "mcp_description_changed"@,
                "MCP tool description changed"@,
            );
            lemma_breaking_one(
                shown,
                "mcp.expose_output"@,
                "mcp_output_exposure_changed"@,
                "MCP output exposure policy changed"@,
            );
            assert(mcp_changes(previous, current) == x + y + z);
        },
        _ => {},
    }
}

/// The format and the identity break clients if and only if the major format
/// version or the operation id changed.
pub proof fn law_what_breaks_in_the_identity(previous: ContractView, current: ContractView)
    ensures
        has_breaking(version_changes(previous, current)) <==> previous.format_version.major
            != current.format_version.major,
        has_breaking(identity_changes(previous, current)) <==> previous.id != current.id,
{
    let message = "canonical contract format changed from "@ + version_text(previous.format_version)
        + " to "@ + version_text(current.format_version);
    lemma_breaking_one(
        CompatibilityImpact::Breaking,
        "format_version"@,
        "format_major_changed"@,
        message,
    );
    lemma_breaking_one(
        CompatibilityImpact::Metadata,
        "format_version"@,
        "format_minor_changed"@,
        message,
    );
    let renamed = "operation id changed from "@ + previous.id + " to "@ + current.id;
    lemma_breaking_one(CompatibilityImpact::Breaking, "id"@, "operation_id_changed"@, renamed);
    lemma_breaking_one(
        CompatibilityImpact::Metadata,
        "summary"@,
        "summary_changed"@,
        "operation summary changed"@,
    );
    let a = if previous.id != current.id {
        one(CompatibilityImpact::Breaking, "id"@, "operation_id_changed"@, renamed)
    } else {
        Seq::empty()
    };
    let b = if previous.summary != current.summary {
        one(
            CompatibilityImpact::Metadata,
            "summary"@,
            "summary_changed"@,
            "operation summary changed"@,
        )
    } else {
        Seq::empty()
    };
    lemma_breaking_joined(a, b);
    assert(identity_changes(previous, current) == a + b);
}

proof fn lemma_report_holds(changes: Seq<ChangeView>, change: ChangeView)
    ensures
        report_order(changes).contains(change) == changes.contains(change),
{
    law_reports_are_ordered(changes);
    changes.to_multiset_ensures();
    report_order(changes).to_multiset_ensures();
    assert(changes.contains(change) <==> changes.to_multiset().count(change) > 0);
    assert(report_order(changes).contains(change) <==> report_order(changes).to_multiset().count(
        change,
    ) > 0);
}

proof fn lemma_breaking_report(changes: Seq<ChangeView>)
    ensures
        has_breaking(report_order(changes)) == has_breaking(changes),
{
    let report = report_order(changes);
    if has_breaking(changes) {
        let i = choose|i: int|
            0 <= i < changes.len() && (#[trigger] changes[i]).impact
                == CompatibilityImpact::Breaking;
        lemma_report_holds(changes, changes[i]);
        assert(changes.contains(changes[i]));
        let j = choose|j: int| 0 <= j < report.len() && report[j] == changes[i];
        assert(report[j].impact == CompatibilityImpact::Breaking);
    }
    if has_breaking(report) {
        let i = choose|i: int|
            0 <= i < report.len() && (#[trigger] report[i]).impact == CompatibilityImpact::Breaking;
        lemma_report_holds(changes, report[i]);
        assert(report.contains(report[i]));
        let j = choose|j: int| 0 <= j < changes.len() && changes[j] == report[i];
        assert(changes[j].impact == CompatibilityImpact::Breaking);
    }
}

/// A comparison of contracts with different identities breaks clients if and
/// only if the format, the identity, the inputs, the dependencies, the security,
/// the responses, the agent policy or the MCP tool does; contracts with the same
/// identity never break.
pub proof fn law_what_breaks_clients(previous: ContractView, current: ContractView)
    ensures
        fingerprint_of(previous) != fingerprint_of(current) ==> (has_breaking(
            compared(previous, current),
        ) <==> {
            ||| previous.format_version.major != current.format_version.major
            ||| previous.id != current.id
            ||| has_breaking(input_changes(previous, current))
            ||| exists|i: int|
                0 <= i < current.dependencies.len() && !previous.dependencies.contains(
                    #[trigger] current.dependencies[i],
                )
            ||| has_breaking(security_changes(previous, current))
            ||| has_breaking(response_changes(previous, current))
            ||| riskier(previous.agent.risk, current.agent.risk)
            ||| previous.agent.confirmation != Confirmation::Required && current.agent.confirmation
                == Confirmation::Required
            ||| previous.agent.idempotent && !current.agent.idempotent
            ||| match (previous.mcp, current.mcp) {
                (Some(a), Some(b)) => a.name != b.name || less_shown(
                    a.expose_output,
                    b.expose_output,
                ),
                (Some(_), None) => true,
                (None, _) => false,
            }
        }),
        fingerprint_of(previous) == fingerprint_of(current) ==> compared(previous, current)
            == Seq::<ChangeView>::empty(),
{
    let all = all_changes(previous, current);
    lemma_breaking_report(all);
    law_what_breaks_in_the_identity(previous, current);
    law_what_breaks_in_dependencies(previous, current);
    law_what_breaks_in_the_agent_policy(previous, current);
    law_what_breaks_in_the_mcp_tool(previous, current);
    let a = version_changes(previous, current);
    let b = a + identity_changes(previous, current);
    let c = b + input_changes(previous, current);
    let d = c + dependency_changes(previous, current);
    let e = d + security_changes(previous, current);
    let f = e + response_changes(previous, current);
    let g = f + agent_changes(previous, current);
    lemma_breaking_joined(a, identity_changes(previous, current));
    lemma_breaking_joined(b, input_changes(previous, current));
    lemma_breaking_joined(c, dependency_changes(previous, current));
    lemma_breaking_joined(d, security_changes(previous, current));
    lemma_breaking_joined(e, response_changes(previous, current));
    lemma_breaking_joined(f, agent_changes(previous, current));
    lemma_breaking_joined(g, mcp_changes(previous, current));
    assert(all == g + mcp_changes(previous, current));
}

/// A request body that gains a required field breaks clients: the comparison of
/// two contracts, whose identities differ, is not backward compatible where the
/// model of an input has a required field that its model did not have before.
pub proof fn law_required_body_fields_break_clients(
    previous: ContractView,
    current: ContractView,
    i: int,
    j: int,
    at: int,
)
    requires
        fingerprint_of(previous) != fingerprint_of(current),
        0 <= i < previous.inputs.len(),
        input_taken_at(current.inputs, previous.inputs[i], j),
        previous.inputs[i].ty.model is Some,
        current.inputs[j].ty.model is Some,
        0 <= at < current.inputs[j].ty.model->Some_0.fields.len(),
        current.inputs[j].ty.model->Some_0.fields[at].required,
        !declares(
            previous.inputs[i].ty.model->Some_0.fields,
            current.inputs[j].ty.model->Some_0.fields[at].name,
        ),
    ensures
        has_breaking(compared(previous, current)),
{
    let input = previous.inputs[i];
    let other = current.inputs[j];
    let path = input_path_spec(input) + ".type"@;
    let before = *input.ty.model->Some_0;
    let after = *other.ty.model->Some_0;
    law_what_breaks_in_a_model(before, after, path, TypeDirection::Input);
    assert(after.fields[at].required);
    law_what_breaks_in_a_type(input.ty, other.ty, path, TypeDirection::Input);
    assert(input_tightened(input, current.inputs[j]));
    law_what_breaks_in_inputs(previous, current);
    law_what_breaks_clients(previous, current);
}

/// No model says two things of one field, at any depth.
pub open spec fn fields_apart(ty: TypeView) -> bool
    decreases ty,
{
    &&& match ty.items {
        Some(items) => fields_apart(*items),
        None => true,
    }
    &&& match ty.model {
        Some(model) => model_apart(*model),
        None => true,
    }
}

/// No model says two things of one field, at any depth below a model.
pub open spec fn model_apart(model: ModelView) -> bool
    decreases model,
{
    forall|i: int|
        0 <= i < model.fields.len() ==> {
            &&& fields_apart((#[trigger] model.fields[i]).ty)
            &&& declared_at(model.fields, model.fields[i].name, i)
        }
}

proof fn lemma_same_type(ty: TypeView, path: Seq<char>, direction: TypeDirection)
    requires
        fields_apart(ty),
    ensures
        !has_breaking(type_changes(ty, ty, path, direction)),
    decreases ty,
{
    law_what_breaks_in_a_type(ty, ty, path, direction);
    match ty.items {
        Some(items) => lemma_same_type(*items, path + ".items"@, direction),
        None => {},
    }
    match ty.model {
        Some(model) => lemma_same_model(*model, *model, path, direction),
        None => {},
    }
}

proof fn lemma_same_model(
    previous: ModelView,
    current: ModelView,
    path: Seq<char>,
    direction: TypeDirection,
)
    requires
        model_apart(previous),
        previous.fields.len() <= current.fields.len(),
        forall|i: int|
            0 <= i < previous.fields.len() ==> #[trigger] current.fields[i] == previous.fields[i],
        direction == TypeDirection::Input ==> forall|j: int|
            previous.fields.len() <= j < current.fields.len()
                ==> !(#[trigger] current.fields[j]).required,
    ensures
        !has_breaking(model_changes(previous, current, path, direction)),
    decreases previous,
{
    law_what_breaks_in_a_model(previous, current, path, direction);
    assert forall|i: int| 0 <= i < previous.fields.len() implies declares(
        current.fields,
        (#[trigger] previous.fields[i]).name,
    ) by {
        assert(current.fields[i] == previous.fields[i]);
    }
    assert forall|i: int, j: int|
        0 <= i < previous.fields.len() && declared_at(
            current.fields,
            (#[trigger] previous.fields[i]).name,
            j,
        ) implies !field_tightened(
        previous.fields[i],
        #[trigger] current.fields[j],
        path,
        direction,
    ) by {
        let field = previous.fields[i];
        assert(current.fields[i] == field);
        assert(declared_at(previous.fields, field.name, i));
        if j < i {
            assert(current.fields[j] == previous.fields[j]);
        } else if j > i {
            assert(current.fields[i].name != field.name);
        }
        lemma_same_type(field.ty, path + ".fields."@ + field.name + ".type"@, direction);
        law_tightened_rules_break(field.validation, field.validation, path);
        lemma_own_rules(field.validation);
    }
    assert forall|j: int|
        0 <= j < current.fields.len() && direction == TypeDirection::Input && (
        #[trigger] current.fields[j]).required implies declares(
        previous.fields,
        current.fields[j].name,
    ) by {
        if j < previous.fields.len() {
            assert(previous.fields[j].name == current.fields[j].name);
        }
    }
}

proof fn lemma_own_rules(rules: Seq<RuleView>)
    ensures
        !rules_tightened(rules, rules),
{
    if exists|i: int|
        0 <= i < rules.len() && (#[trigger] rules[i] matches RuleView::MinLength(bound) && bound > 0
            && forall|j: int|
            0 <= j < rules.len() ==> (#[trigger] rules[j] matches RuleView::MinLength(other)
                ==> other < bound)) {
        let i = choose|i: int|
            0 <= i < rules.len() && (#[trigger] rules[i] matches RuleView::MinLength(bound) && bound
                > 0 && forall|j: int|
                0 <= j < rules.len() ==> (#[trigger] rules[j] matches RuleView::MinLength(other)
                    ==> other < bound));
        assert(rules[i] is MinLength);
    }
}

/// A model may gain fields without breaking those who receive it, and optional
/// fields without breaking those who send it.
pub proof fn law_models_may_gain_fields(
    previous: ModelView,
    gained: Seq<FieldView>,
    name: Seq<char>,
    path: Seq<char>,
)
    requires
        model_apart(previous),
    ensures
        ({
            let current = ModelView { name, fields: previous.fields + gained };
            &&& !has_breaking(model_changes(previous, current, path, TypeDirection::Output))
            &&& (forall|k: int| 0 <= k < gained.len() ==> !(#[trigger] gained[k]).required)
                ==> !has_breaking(model_changes(previous, current, path, TypeDirection::Input))
        }),
{
    let current = ModelView { name, fields: previous.fields + gained };
    lemma_same_model(previous, current, path, TypeDirection::Output);
    if forall|k: int| 0 <= k < gained.len() ==> !(#[trigger] gained[k]).required {
        assert forall|j: int| previous.fields.len() <= j < current.fields.len() implies !(
        #[trigger] current.fields[j]).required by {
            assert(current.fields[j] == gained[j - previous.fields.len()]);
        }
        lemma_same_model(previous, current, path, TypeDirection::Input);
    }
}

/// A response body that only gains fields gives no breaking finding.
pub proof fn law_response_bodies_may_gain_fields(
    previous: TypeView,
    current: TypeView,
    path: Seq<char>,
)
    requires
        fields_apart(previous),
        previous.model is Some,
        current == (TypeView { model: current.model, ..previous }),
        current.model matches Some(model) && previous.model->Some_0.fields.is_prefix_of(
            model.fields,
        ),
    ensures
        !has_breaking(body_changes(Some(previous), Some(current), path)),
{
    let full = path + ".body"@;
    let before = *previous.model->Some_0;
    let after = *current.model->Some_0;
    assert forall|i: int| 0 <= i < before.fields.len() implies #[trigger] after.fields[i]
        == before.fields[i] by {
        assert(before.fields[i] == after.fields.subrange(0, before.fields.len() as int)[i]);
    }
    lemma_same_model(before, after, full, TypeDirection::Output);
    law_what_breaks_in_a_type(previous, current, full, TypeDirection::Output);
    match previous.items {
        Some(items) => lemma_same_type(*items, full + ".items"@, TypeDirection::Output),
        None => {},
    }
}

/// Every source goes by the word that requests know it by.
pub proof fn law_sources_go_by_the_same_words(source: InputSource)
    ensures
        source_name_spec(source) == crate::arguments::source_word(source),
{
}

/// Where an input stands in a report: under its source and its name, the name of a
/// header in small letters.
pub open spec fn input_place(input: InputView) -> Seq<char> {
    "inputs."@ + crate::arguments::source_word(input.source) + "."@ + if input.source is Header {
        lower_all(input.name)
    } else {
        input.name
    }
}

/// Inputs that are lost or gained are reported under their own place, each once
/// for what it is.
pub proof fn law_lost_and_gained_inputs_are_named(
    previous: ContractView,
    current: ContractView,
    at: int,
)
    ensures
        0 <= at < previous.inputs.len() && !takes_input(current.inputs, previous.inputs[at])
            ==> input_changes(previous, current).contains(
            ChangeView {
                impact: CompatibilityImpact::Breaking,
                path: input_place(previous.inputs[at]),
                code: "input_removed"@,
                message: "an accepted operation input was removed"@,
            },
        ),
        0 <= at < current.inputs.len() && !takes_input(previous.inputs, current.inputs[at])
            ==> input_changes(previous, current).contains(
            if current.inputs[at].required {
                ChangeView {
                    impact: CompatibilityImpact::Breaking,
                    path: input_place(current.inputs[at]),
                    code: "required_input_added"@,
                    message: "a new required operation input was added"@,
                }
            } else {
                ChangeView {
                    impact: CompatibilityImpact::NonBreaking,
                    path: input_place(current.inputs[at]),
                    code: "optional_input_added"@,
                    message: "a new optional operation input was added"@,
                }
            },
        ),
{
    let kept = |input: InputView| kept_input(input, current.inputs);
    let added = |input: InputView| added_input(input, previous.inputs);
    let left = each(previous.inputs, kept);
    let right = each(current.inputs, added);
    if 0 <= at < previous.inputs.len() && !takes_input(current.inputs, previous.inputs[at]) {
        let input = previous.inputs[at];
        law_sources_go_by_the_same_words(input.source);
        lemma_taken_inputs(current.inputs, input);
        let change = kept(input)[0];
        assert(kept(input).contains(change));
        lemma_each_holds(previous.inputs, kept, at, change);
        lemma_holds_joined(left, right, change);
    }
    if 0 <= at < current.inputs.len() && !takes_input(previous.inputs, current.inputs[at]) {
        let input = current.inputs[at];
        law_sources_go_by_the_same_words(input.source);
        lemma_taken_inputs(previous.inputs, input);
        let change = added(input)[0];
        assert(added(input).contains(change));
        lemma_each_holds(current.inputs, added, at, change);
        lemma_holds_joined(left, right, change);
    }
}

/// An input that changes its demand is reported for what it became.
pub proof fn law_changed_demands_are_named(
    previous: ContractView,
    current: ContractView,
    at: int,
    to: int,
)
    requires
        0 <= at < previous.inputs.len(),
        input_taken_at(current.inputs, previous.inputs[at], to),
    ensures
        previous.inputs[at].required && !current.inputs[to].required ==> input_changes(
            previous,
            current,
        ).contains(
            ChangeView {
                impact: CompatibilityImpact::NonBreaking,
                path: input_place(previous.inputs[at]) + ".required"@,
                code: "input_became_optional"@,
                message: "a required input became optional"@,
            },
        ),
        !previous.inputs[at].required && current.inputs[to].required ==> input_changes(
            previous,
            current,
        ).contains(
            ChangeView {
                impact: CompatibilityImpact::Breaking,
                path: input_place(previous.inputs[at]) + ".required"@,
                code: "input_became_required"@,
                message: "an optional input became required"@,
            },
        ),
{
    let kept = |input: InputView| kept_input(input, current.inputs);
    let added = |input: InputView| added_input(input, previous.inputs);
    let left = each(previous.inputs, kept);
    let right = each(current.inputs, added);
    let input = previous.inputs[at];
    law_sources_go_by_the_same_words(input.source);
    lemma_taken_inputs(current.inputs, input);
    if input.required != current.inputs[to].required {
        let change = kept(input)[0];
        assert(kept(input).contains(change));
        lemma_each_holds(previous.inputs, kept, at, change);
        lemma_holds_joined(left, right, change);
    }
}

/// Where a response stands in a report: under its status, and the code of its error
/// or as a success.
pub open spec fn response_place(response: ResponseView) -> Seq<char> {
    "responses."@ + decimal(response.status as nat) + "."@ + match response.error_code {
        Some(code) => code,
        None => "success"@,
    }
}

/// Responses that are lost or gained are reported under their own place.
pub proof fn law_lost_and_gained_responses_are_named(
    previous: ContractView,
    current: ContractView,
    at: int,
)
    ensures
        0 <= at < previous.responses.len() && (forall|j: int|
            0 <= j < current.responses.len() ==> (#[trigger] current.responses[j]).status
                != previous.responses[at].status || current.responses[j].error_code
                != previous.responses[at].error_code) ==> response_changes(
            previous,
            current,
        ).contains(
            ChangeView {
                impact: CompatibilityImpact::Breaking,
                path: response_place(previous.responses[at]),
                code: "response_removed"@,
                message: "a declared operation response was removed"@,
            },
        ),
        0 <= at < current.responses.len() && (forall|j: int|
            0 <= j < previous.responses.len() ==> (#[trigger] previous.responses[j]).status
                != current.responses[at].status || previous.responses[j].error_code
                != current.responses[at].error_code) ==> response_changes(
            previous,
            current,
        ).contains(
            ChangeView {
                impact: CompatibilityImpact::NonBreaking,
                path: response_place(current.responses[at]),
                code: "response_added"@,
                message: "a new operation response was declared"@,
            },
        ),
{
    let kept = |response: ResponseView| kept_response(response, current.responses);
    let added = |response: ResponseView| added_response(response, previous.responses);
    let left = each(previous.responses, kept);
    let right = each(current.responses, added);
    if 0 <= at < previous.responses.len() && (forall|j: int|
        0 <= j < current.responses.len() ==> (#[trigger] current.responses[j]).status
            != previous.responses[at].status || current.responses[j].error_code
            != previous.responses[at].error_code) {
        let response = previous.responses[at];
        let hit = |other: ResponseView| same_response(response, other);
        lemma_first_none(current.responses, hit);
        let change = kept(response)[0];
        assert(kept(response).contains(change));
        lemma_each_holds(previous.responses, kept, at, change);
        lemma_holds_joined(left, right, change);
    }
    if 0 <= at < current.responses.len() && (forall|j: int|
        0 <= j < previous.responses.len() ==> (#[trigger] previous.responses[j]).status
            != current.responses[at].status || previous.responses[j].error_code
            != current.responses[at].error_code) {
        let response = current.responses[at];
        let hit = |other: ResponseView| same_response(response, other);
        lemma_first_none(previous.responses, hit);
        let change = added(response)[0];
        assert(added(response).contains(change));
        lemma_each_holds(current.responses, added, at, change);
        lemma_holds_joined(left, right, change);
    }
}

/// Security requirements that are lost or gained are reported under their scheme,
/// and dependencies under their name.
pub proof fn law_lost_and_gained_requirements_are_named(
    previous: ContractView,
    current: ContractView,
    at: int,
)
    ensures
        0 <= at < previous.security.len() && !has_scheme(
            current.security,
            previous.security[at].scheme,
        ) ==> security_changes(previous, current).contains(
            ChangeView {
                impact: CompatibilityImpact::NonBreaking,
                path: "security."@ + previous.security[at].scheme,
                code: "security_requirement_removed"@,
                message: "a security requirement was removed"@,
            },
        ),
        0 <= at < current.security.len() && !has_scheme(
            previous.security,
            current.security[at].scheme,
        ) ==> security_changes(previous, current).contains(
            ChangeView {
                impact: CompatibilityImpact::Breaking,
                path: "security."@ + current.security[at].scheme,
                code: "security_requirement_added"@,
                message: "a new security requirement was added"@,
            },
        ),
        0 <= at < previous.dependencies.len() && !current.dependencies.contains(
            previous.dependencies[at],
        ) ==> dependency_changes(previous, current).contains(
            ChangeView {
                impact: CompatibilityImpact::NonBreaking,
                path: "dependencies."@ + previous.dependencies[at],
                code: "dependency_removed"@,
                message: "an operation dependency was removed"@,
            },
        ),
        0 <= at < current.dependencies.len() && !previous.dependencies.contains(
            current.dependencies[at],
        ) ==> dependency_changes(previous, current).contains(
            ChangeView {
                impact: CompatibilityImpact::Breaking,
                path: "dependencies."@ + current.dependencies[at],
                code: "dependency_added"@,
                message: "a new operation dependency must be provided"@,
            },
        ),
{
    let kept = |requirement: SecurityView| kept_requirement(requirement, current.security);
    let added = |requirement: SecurityView| added_requirement(requirement, previous.security);
    let left = each(previous.security, kept);
    let right = each(current.security, added);
    if 0 <= at < previous.security.len() && !has_scheme(
        current.security,
        previous.security[at].scheme,
    ) {
        let own = previous.security[at];
        lemma_schemes(current.security, own.scheme);
        let change = kept(own)[0];
        assert(kept(own).contains(change));
        lemma_each_holds(previous.security, kept, at, change);
        lemma_holds_joined(left, right, change);
    }
    if 0 <= at < current.security.len() && !has_scheme(
        previous.security,
        current.security[at].scheme,
    ) {
        let own = current.security[at];
        lemma_schemes(previous.security, own.scheme);
        let change = added(own)[0];
        assert(added(own).contains(change));
        lemma_each_holds(current.security, added, at, change);
        lemma_holds_joined(left, right, change);
    }
    let lost = |name: Seq<char>|
        if current.dependencies.contains(name) {
            Seq::empty()
        } else {
            one(
                CompatibilityImpact::NonBreaking,
                "dependencies."@ + name,
                "dependency_removed"@,
                "an operation dependency was removed"@,
            )
        };
    let gained = |name: Seq<char>|
        if previous.dependencies.contains(name) {
            Seq::empty()
        } else {
            one(
                CompatibilityImpact::Breaking,
                "dependencies."@ + name,
                "dependency_added"@,
                "a new operation dependency must be provided"@,
            )
        };
    let before = each(previous.dependencies, lost);
    let after = each(current.dependencies, gained);
    if 0 <= at < previous.dependencies.len() && !current.dependencies.contains(
        previous.dependencies[at],
    ) {
        let change = lost(previous.dependencies[at])[0];
        assert(lost(previous.dependencies[at]).contains(change));
        lemma_each_holds(previous.dependencies, lost, at, change);
        lemma_holds_joined(before, after, change);
    }
    if 0 <= at < current.dependencies.len() && !previous.dependencies.contains(
        current.dependencies[at],
    ) {
        let change = gained(current.dependencies[at])[0];
        assert(gained(current.dependencies[at]).contains(change));
        lemma_each_holds(current.dependencies, gained, at, change);
        lemma_holds_joined(before, after, change);
    }
}

} // verus!
