//! The deterministic binary form of an operation contract and its identity.
//!
//! Semantically unordered collections are encoded as their sorted item
//! encodings, so the bytes do not depend on declaration order.
use crate::contract::{
    field_view, ContractFormatVersion, FieldDescriptor, FieldView, ModelDescriptor, ModelView,
    RuleView, SchemaKind, TypeDescriptor, TypeView, ValidationRule,
};
use crate::operation::{
    AgentPolicy, Confirmation, ContractView, HeaderView, InputDescriptor, InputSource, InputView,
    McpToolDescriptor, McpView, OperationContract, OperationRisk, OutputExposure,
    ResponseDescriptor, ResponseHeader, ResponseView, SecurityRequirement, SecurityView,
};
use crate::text::{decimal, decimal_text, lower_all, lower_text};
use vstd::prelude::*;
use vstd::relations::*;
use vstd::seq_lib::*;
use vstd::string::*;
use vstd::utf8::encode_utf8;

verus! {

// ---------------------------------------------------------------------------
// Byte strings and their order
// ---------------------------------------------------------------------------

/// Lexicographic order of byte strings.
pub open spec fn bytes_le(left: Seq<u8>, right: Seq<u8>) -> bool
    decreases left.len(),
{
    if left.len() == 0 {
        true
    } else if right.len() == 0 {
        false
    } else if left[0] != right[0] {
        left[0] < right[0]
    } else {
        bytes_le(left.drop_first(), right.drop_first())
    }
}

/// The order as a relation.
pub open spec fn byte_order() -> spec_fn(Seq<u8>, Seq<u8>) -> bool {
    |left: Seq<u8>, right: Seq<u8>| bytes_le(left, right)
}

proof fn lemma_bytes_reflexive(a: Seq<u8>)
    ensures
        bytes_le(a, a),
    decreases a.len(),
{
    if a.len() > 0 {
        lemma_bytes_reflexive(a.drop_first());
    }
}

proof fn lemma_bytes_antisymmetric(a: Seq<u8>, b: Seq<u8>)
    requires
        bytes_le(a, b),
        bytes_le(b, a),
    ensures
        a == b,
    decreases a.len(),
{
    if a.len() > 0 && b.len() > 0 {
        lemma_bytes_antisymmetric(a.drop_first(), b.drop_first());
        assert(a =~= seq![a[0]] + a.drop_first());
        assert(b =~= seq![b[0]] + b.drop_first());
    } else {
        assert(a =~= b);
    }
}

proof fn lemma_bytes_transitive(a: Seq<u8>, b: Seq<u8>, c: Seq<u8>)
    requires
        bytes_le(a, b),
        bytes_le(b, c),
    ensures
        bytes_le(a, c),
    decreases a.len(),
{
    if a.len() > 0 && b.len() > 0 && c.len() > 0 && a[0] == b[0] && b[0] == c[0] {
        lemma_bytes_transitive(a.drop_first(), b.drop_first(), c.drop_first());
    }
}

proof fn lemma_bytes_total(a: Seq<u8>, b: Seq<u8>)
    ensures
        bytes_le(a, b) || bytes_le(b, a),
    decreases a.len(),
{
    if a.len() > 0 && b.len() > 0 && a[0] == b[0] {
        lemma_bytes_total(a.drop_first(), b.drop_first());
    }
}

/// Byte strings are totally ordered.
pub proof fn lemma_byte_order_total()
    ensures
        total_ordering(byte_order()),
{
    let order = byte_order();
    assert forall|a: Seq<u8>| #[trigger] order(a, a) by {
        lemma_bytes_reflexive(a);
    }
    assert forall|a: Seq<u8>, b: Seq<u8>| #[trigger] order(a, b) && #[trigger] order(b, a) implies a
        == b by {
        lemma_bytes_antisymmetric(a, b);
    }
    assert forall|a: Seq<u8>, b: Seq<u8>, c: Seq<u8>| #[trigger]
        order(a, b) && #[trigger] order(b, c) implies order(a, c) by {
        lemma_bytes_transitive(a, b, c);
    }
    assert forall|a: Seq<u8>, b: Seq<u8>| #[trigger] order(a, b) || #[trigger] order(b, a) by {
        lemma_bytes_total(a, b);
    }
}

fn bytes_ordered(left: &Vec<u8>, right: &Vec<u8>) -> (ordered: bool)
    ensures
        ordered == bytes_le(left@, right@),
{
    let mut index: usize = 0;
    proof {
        assert(left@.skip(0) =~= left@);
        assert(right@.skip(0) =~= right@);
    }
    while index < left.len() && index < right.len()
        invariant
            index <= left@.len(),
            index <= right@.len(),
            bytes_le(left@.skip(index as int), right@.skip(index as int)) == bytes_le(
                left@,
                right@,
            ),
        decreases left@.len() - index,
    {
        if left[index] != right[index] {
            return left[index] < right[index];
        }
        proof {
            assert(left@.skip(index as int).drop_first() =~= left@.skip(index + 1));
            assert(right@.skip(index as int).drop_first() =~= right@.skip(index + 1));
        }
        index += 1;
    }
    index == left.len()
}

/// The byte strings held by a list.
pub open spec fn blobs(list: Seq<Vec<u8>>) -> Seq<Seq<u8>> {
    list.map_values(|item: Vec<u8>| item@)
}

proof fn lemma_multiset_insert(list: Seq<Seq<u8>>, at: int, item: Seq<u8>)
    requires
        0 <= at <= list.len(),
    ensures
        list.insert(at, item).to_multiset() == list.to_multiset().insert(item),
{
    let grown = list.insert(at, item);
    assert(grown.remove(at) =~= list);
    to_multiset_remove(grown, at);
    assert(grown[at] == item);
    assert(grown.contains(item));
    assert(grown.to_multiset().count(item) > 0) by {
        grown.to_multiset_ensures();
    }
    assert(list.to_multiset().insert(item) =~= grown.to_multiset());
}

fn sort_blobs(items: Vec<Vec<u8>>) -> (sorted: Vec<Vec<u8>>)
    ensures
        blobs(sorted@) == blobs(items@).sort_by(byte_order()),
{
    let ghost original = blobs(items@);
    let mut items = items;
    let mut sorted: Vec<Vec<u8>> = Vec::new();
    proof {
        assert(blobs(sorted@) =~= Seq::empty());
        Seq::<Seq<u8>>::empty().to_multiset_ensures();
        assert(blobs(sorted@).to_multiset() =~= vstd::multiset::Multiset::empty());
        assert(blobs(sorted@).to_multiset().add(original.to_multiset()) =~= original.to_multiset());
    }
    while items.len() > 0
        invariant
            sorted_by(blobs(sorted@), byte_order()),
            blobs(sorted@).to_multiset().add(blobs(items@).to_multiset())
                == original.to_multiset(),
        decreases items@.len(),
    {
        let ghost before = blobs(items@);
        let ghost placed = blobs(sorted@);
        let item = items.pop().unwrap();
        let mut at: usize = 0;
        while at < sorted.len() && bytes_ordered(&sorted[at], &item)
            invariant
                at <= sorted@.len(),
                forall|i: int| 0 <= i < at ==> bytes_le(#[trigger] blobs(sorted@)[i], item@),
            decreases sorted@.len() - at,
        {
            at += 1;
        }
        let ghost next = item@;
        sorted.insert(at, item);
        proof {
            let grown = blobs(sorted@);
            assert(grown =~= placed.insert(at as int, next));
            assert(before =~= blobs(items@).push(next));
            to_multiset_build(blobs(items@), next);
            lemma_multiset_insert(placed, at as int, next);
            assert(grown.to_multiset().add(blobs(items@).to_multiset())
                =~= placed.to_multiset().add(before.to_multiset()));
            assert forall|i: int, j: int| 0 <= i < j < grown.len() implies #[trigger] byte_order()(
                grown[i],
                grown[j],
            ) by {
                lemma_byte_order_total();
                if i < at && j < at {
                    assert(byte_order()(placed[i], placed[j]));
                } else if i < at && j == at {
                    assert(bytes_le(placed[i], next));
                } else if i < at && j > at {
                    assert(byte_order()(placed[i], placed[j - 1]));
                } else if i == at {
                    lemma_bytes_total(placed[at as int], next);
                    if j - 1 > at {
                        assert(byte_order()(placed[at as int], placed[j - 1]));
                        lemma_bytes_transitive(next, placed[at as int], placed[j - 1]);
                    }
                } else {
                    assert(byte_order()(placed[i - 1], placed[j - 1]));
                }
            }
        }
    }
    proof {
        let done = blobs(sorted@);
        assert(blobs(items@) =~= Seq::empty());
        Seq::<Seq<u8>>::empty().to_multiset_ensures();
        assert(blobs(items@).to_multiset() =~= vstd::multiset::Multiset::empty());
        assert(done.to_multiset() =~= original.to_multiset());
        lemma_byte_order_total();
        original.lemma_sort_by_ensures(byte_order());
        lemma_sorted_unique(done, original.sort_by(byte_order()), byte_order());
    }
    sorted
}

// ---------------------------------------------------------------------------
// Primitive encodings
// ---------------------------------------------------------------------------

/// Two big-endian bytes.
pub open spec fn enc_u16(value: nat) -> Seq<u8> {
    seq![(value / 256 % 256) as u8, (value % 256) as u8]
}

/// Eight big-endian bytes.
pub open spec fn enc_u64(value: nat) -> Seq<u8> {
    seq![
        (value / 0x100_0000_0000_0000 % 256) as u8,
        (value / 0x1_0000_0000_0000 % 256) as u8,
        (value / 0x100_0000_0000 % 256) as u8,
        (value / 0x1_0000_0000 % 256) as u8,
        (value / 0x100_0000 % 256) as u8,
        (value / 0x1_0000 % 256) as u8,
        (value / 0x100 % 256) as u8,
        (value % 256) as u8,
    ]
}

/// A flag as one byte.
pub open spec fn enc_bool(value: bool) -> Seq<u8> {
    seq![if value { 1u8 } else { 0u8 }]
}

/// A byte string preceded by its length.
pub open spec fn enc_bytes(value: Seq<u8>) -> Seq<u8> {
    enc_u64(value.len()) + value
}

/// A text as its length-prefixed UTF-8 bytes.
pub open spec fn enc_text(value: Seq<char>) -> Seq<u8> {
    enc_bytes(encode_utf8(value))
}

/// An optional text, marked by its presence.
pub open spec fn enc_opt_text(value: Option<Seq<char>>) -> Seq<u8> {
    match value {
        Some(text) => seq![1u8] + enc_text(text),
        None => seq![0u8],
    }
}

/// Consecutive length-prefixed byte strings.
pub open spec fn enc_run(items: Seq<Seq<u8>>) -> Seq<u8>
    decreases items.len(),
{
    if items.len() == 0 {
        Seq::empty()
    } else {
        enc_run(items.drop_last()) + enc_bytes(items.last())
    }
}

/// An unordered collection, as its sorted item encodings.
pub open spec fn enc_sorted(items: Seq<Seq<u8>>) -> Seq<u8> {
    enc_u64(items.len()) + enc_run(items.sort_by(byte_order()))
}

fn put_u16(out: &mut Vec<u8>, value: u16)
    ensures
        final(out)@ == old(out)@ + enc_u16(value as nat),
{
    out.push((value / 256 % 256) as u8);
    out.push((value % 256) as u8);
    assert(out@ =~= old(out)@ + enc_u16(value as nat));
}

fn put_u64(out: &mut Vec<u8>, value: u64)
    ensures
        final(out)@ == old(out)@ + enc_u64(value as nat),
{
    out.push((value / 0x100_0000_0000_0000 % 256) as u8);
    out.push((value / 0x1_0000_0000_0000 % 256) as u8);
    out.push((value / 0x100_0000_0000 % 256) as u8);
    out.push((value / 0x1_0000_0000 % 256) as u8);
    out.push((value / 0x100_0000 % 256) as u8);
    out.push((value / 0x1_0000 % 256) as u8);
    out.push((value / 0x100 % 256) as u8);
    out.push((value % 256) as u8);
    assert(out@ =~= old(out)@ + enc_u64(value as nat));
}

fn put_u8(out: &mut Vec<u8>, value: u8)
    ensures
        final(out)@ == old(out)@ + seq![value],
{
    out.push(value);
    assert(out@ =~= old(out)@ + seq![value]);
}

fn put_bool(out: &mut Vec<u8>, value: bool)
    ensures
        final(out)@ == old(out)@ + enc_bool(value),
{
    put_u8(out, if value { 1 } else { 0 });
}

fn put_bytes(out: &mut Vec<u8>, value: &[u8])
    ensures
        final(out)@ == old(out)@ + enc_bytes(value@),
{
    put_u64(out, value.len() as u64);
    let ghost prefix = out@;
    let mut index: usize = 0;
    while index < value.len()
        invariant
            index <= value@.len(),
            out@ =~= prefix + value@.take(index as int),
        decreases value@.len() - index,
    {
        out.push(value[index]);
        index += 1;
    }
    assert(value@.take(value@.len() as int) =~= value@);
    assert(out@ =~= old(out)@ + enc_bytes(value@));
}

fn put_text(out: &mut Vec<u8>, value: &str)
    ensures
        final(out)@ == old(out)@ + enc_text(value@),
{
    put_bytes(out, value.as_bytes());
}

fn put_opt_text(out: &mut Vec<u8>, value: &Option<String>)
    ensures
        final(out)@ == old(out)@ + enc_opt_text(crate::operation::opt_text(*value)),
{
    match value {
        Some(text) => {
            put_u8(out, 1);
            put_text(out, text.as_str());
            assert(out@ =~= old(out)@ + (seq![1u8] + enc_text(text@)));
        },
        None => {
            put_u8(out, 0);
        },
    }
}

fn put_sorted(out: &mut Vec<u8>, items: Vec<Vec<u8>>)
    ensures
        final(out)@ == old(out)@ + enc_sorted(blobs(items@)),
{
    let ghost original = blobs(items@);
    let sorted = sort_blobs(items);
    proof {
        lemma_byte_order_total();
        original.lemma_sort_by_ensures(byte_order());
        original.to_multiset_ensures();
        blobs(sorted@).to_multiset_ensures();
    }
    put_u64(out, sorted.len() as u64);
    let ghost prefix = out@;
    let ghost order = blobs(sorted@);
    let mut index: usize = 0;
    proof {
        assert(order.take(0) =~= Seq::empty());
    }
    while index < sorted.len()
        invariant
            index <= sorted@.len(),
            order == blobs(sorted@),
            out@ =~= prefix + enc_run(order.take(index as int)),
        decreases sorted@.len() - index,
    {
        put_bytes(out, sorted[index].as_slice());
        proof {
            assert(order.take(index + 1).drop_last() =~= order.take(index as int));
            assert(order.take(index + 1).last() == order[index as int]);
        }
        index += 1;
    }
    assert(order.take(order.len() as int) =~= order);
    assert(out@ =~= old(out)@ + enc_sorted(original));
}

// ---------------------------------------------------------------------------
// Descriptor encodings
// ---------------------------------------------------------------------------

/// The number of an input source.
pub open spec fn source_tag(source: InputSource) -> u8 {
    match source {
        InputSource::Path => 0,
        InputSource::Query => 1,
        InputSource::Header => 2,
        InputSource::Cookie => 3,
        InputSource::Json => 4,
        InputSource::Form => 5,
        InputSource::Multipart => 6,
        InputSource::File => 7,
        InputSource::Stream => 8,
    }
}

/// The number of a risk, ordered by severity.
pub open spec fn risk_tag_spec(risk: OperationRisk) -> u8 {
    match risk {
        OperationRisk::Read => 0,
        OperationRisk::Write => 1,
        OperationRisk::Destructive => 2,
    }
}

/// The number of a confirmation policy.
pub open spec fn confirmation_tag_spec(confirmation: Confirmation) -> u8 {
    match confirmation {
        Confirmation::Never => 0,
        Confirmation::Required => 1,
    }
}

/// The number of an output exposure, ordered by how much is withheld.
pub open spec fn exposure_tag_spec(exposure: OutputExposure) -> u8 {
    match exposure {
        OutputExposure::Full => 0,
        OutputExposure::SummaryOnly => 1,
        OutputExposure::Hidden => 2,
    }
}

fn input_source_tag(source: InputSource) -> (tag: u8)
    ensures
        tag == source_tag(source),
{
    match source {
        InputSource::Path => 0,
        InputSource::Query => 1,
        InputSource::Header => 2,
        InputSource::Cookie => 3,
        InputSource::Json => 4,
        InputSource::Form => 5,
        InputSource::Multipart => 6,
        InputSource::File => 7,
        InputSource::Stream => 8,
    }
}

pub(crate) fn risk_tag(risk: OperationRisk) -> (tag: u8)
    ensures
        tag == risk_tag_spec(risk),
{
    match risk {
        OperationRisk::Read => 0,
        OperationRisk::Write => 1,
        OperationRisk::Destructive => 2,
    }
}

fn confirmation_tag(confirmation: Confirmation) -> (tag: u8)
    ensures
        tag == confirmation_tag_spec(confirmation),
{
    match confirmation {
        Confirmation::Never => 0,
        Confirmation::Required => 1,
    }
}

pub(crate) fn exposure_tag(exposure: OutputExposure) -> (tag: u8)
    ensures
        tag == exposure_tag_spec(exposure),
{
    match exposure {
        OutputExposure::Full => 0,
        OutputExposure::SummaryOnly => 1,
        OutputExposure::Hidden => 2,
    }
}

/// A shape is a number, followed by the item shape for collections.
pub open spec fn enc_schema(schema: SchemaKind) -> Seq<u8>
    decreases schema,
{
    match schema {
        SchemaKind::String => seq![0u8],
        SchemaKind::Binary => seq![1u8],
        SchemaKind::Integer => seq![2u8],
        SchemaKind::Number => seq![3u8],
        SchemaKind::Boolean => seq![4u8],
        SchemaKind::Array(item) => seq![5u8] + enc_schema(*item),
        SchemaKind::Object => seq![6u8],
        SchemaKind::Any => seq![7u8],
    }
}

/// A rule is a number followed by its argument.
pub open spec fn enc_rule(rule: RuleView) -> Seq<u8> {
    match rule {
        RuleView::MinLength(value) => seq![0u8] + enc_u64(value as nat),
        RuleView::MaxLength(value) => seq![1u8] + enc_u64(value as nat),
        RuleView::Email => seq![2u8],
        RuleView::Alias(name) => seq![3u8] + enc_text(name),
        RuleView::Custom(text) => seq![4u8] + enc_text(text),
        RuleView::Nested => seq![5u8],
    }
}

/// The encodings of a list of rules.
pub open spec fn enc_rules(rules: Seq<RuleView>) -> Seq<Seq<u8>> {
    rules.map_values(|rule: RuleView| enc_rule(rule))
}

/// The encoding of a field.
pub open spec fn enc_field(field: FieldView) -> Seq<u8>
    decreases field,
{
    enc_text(field.name) + enc_bool(field.required) + enc_type(field.ty) + enc_sorted(
        enc_rules(field.validation),
    )
}

/// The encodings of the fields of a model.
pub open spec fn enc_fields(model: ModelView) -> Seq<Seq<u8>>
    decreases model, 0nat,
{
    Seq::new(
        model.fields.len(),
        |i: int|
            if 0 <= i < model.fields.len() {
                enc_field(model.fields[i])
            } else {
                arbitrary()
            },
    )
}

/// The encoding of a model.
pub open spec fn enc_model(model: ModelView) -> Seq<u8>
    decreases model, 1nat,
{
    enc_text(model.name) + enc_sorted(enc_fields(model))
}

/// The encoding of a type.
pub open spec fn enc_type(ty: TypeView) -> Seq<u8>
    decreases ty,
{
    let model = match ty.model {
        Some(model) => seq![1u8] + enc_model(*model),
        None => seq![0u8],
    };
    let items = match ty.items {
        Some(items) => seq![1u8] + enc_type(*items),
        None => seq![0u8],
    };
    enc_text(ty.rust_name) + enc_schema(ty.schema) + model + items
}

fn put_schema(out: &mut Vec<u8>, schema: &SchemaKind)
    ensures
        final(out)@ == old(out)@ + enc_schema(*schema),
    decreases schema,
{
    match schema {
        SchemaKind::String => put_u8(out, 0),
        SchemaKind::Binary => put_u8(out, 1),
        SchemaKind::Integer => put_u8(out, 2),
        SchemaKind::Number => put_u8(out, 3),
        SchemaKind::Boolean => put_u8(out, 4),
        SchemaKind::Array(item) => {
            put_u8(out, 5);
            put_schema(out, item);
            assert(out@ =~= old(out)@ + (seq![5u8] + enc_schema(**item)));
        },
        SchemaKind::Object => put_u8(out, 6),
        SchemaKind::Any => put_u8(out, 7),
    }
}

fn put_rule(out: &mut Vec<u8>, rule: &ValidationRule)
    ensures
        final(out)@ == old(out)@ + enc_rule(rule@),
{
    match rule {
        ValidationRule::MinLength(value) => {
            put_u8(out, 0);
            put_u64(out, *value as u64);
        },
        ValidationRule::MaxLength(value) => {
            put_u8(out, 1);
            put_u64(out, *value as u64);
        },
        ValidationRule::Email => put_u8(out, 2),
        ValidationRule::Alias(name) => {
            put_u8(out, 3);
            put_text(out, name.as_str());
        },
        ValidationRule::Custom(text) => {
            put_u8(out, 4);
            put_text(out, text.as_str());
        },
        ValidationRule::Nested => put_u8(out, 5),
    }
    assert(out@ =~= old(out)@ + enc_rule(rule@));
}

fn put_rules(out: &mut Vec<u8>, rules: &Vec<ValidationRule>)
    ensures
        final(out)@ == old(out)@ + enc_sorted(enc_rules(crate::contract::rules_view(rules@))),
{
    let mut encoded: Vec<Vec<u8>> = Vec::new();
    let mut index: usize = 0;
    while index < rules.len()
        invariant
            index <= rules@.len(),
            encoded@.len() == index,
            forall|i: int| 0 <= i < index ==> (#[trigger] encoded@[i])@ == enc_rule(rules@[i]@),
        decreases rules@.len() - index,
    {
        let mut item: Vec<u8> = Vec::new();
        put_rule(&mut item, &rules[index]);
        assert(item@ =~= enc_rule(rules@[index as int]@));
        encoded.push(item);
        index += 1;
    }
    assert(blobs(encoded@) =~= enc_rules(crate::contract::rules_view(rules@)));
    put_sorted(out, encoded);
}

fn put_field(out: &mut Vec<u8>, field: &FieldDescriptor)
    ensures
        final(out)@ == old(out)@ + enc_field(field@),
    decreases field,
{
    put_text(out, field.name.as_str());
    put_bool(out, field.required);
    put_type(out, &field.ty);
    put_rules(out, &field.validation);
    assert(out@ =~= old(out)@ + enc_field(field@));
}

fn put_model(out: &mut Vec<u8>, model: &ModelDescriptor)
    ensures
        final(out)@ == old(out)@ + enc_model(model@),
    decreases model,
{
    put_text(out, model.name.as_str());
    let mut encoded: Vec<Vec<u8>> = Vec::new();
    let mut index: usize = 0;
    while index < model.fields.len()
        invariant
            index <= model.fields@.len(),
            encoded@.len() == index,
            forall|i: int|
                0 <= i < index ==> (#[trigger] encoded@[i])@ == enc_field(
                    field_view(model.fields@[i]),
                ),
        decreases model.fields@.len() - index,
    {
        let mut item: Vec<u8> = Vec::new();
        put_field(&mut item, &model.fields[index]);
        assert(item@ =~= enc_field(field_view(model.fields@[index as int])));
        encoded.push(item);
        index += 1;
    }
    proof {
        let expected = enc_fields(model@);
        assert forall|i: int| 0 <= i < expected.len() implies blobs(encoded@)[i] == expected[i] by {
            assert(encoded@[i]@ == enc_field(field_view(model.fields@[i])));
        }
        assert(blobs(encoded@) =~= expected);
    }
    put_sorted(out, encoded);
    assert(out@ =~= old(out)@ + enc_model(model@));
}

fn put_type(out: &mut Vec<u8>, ty: &TypeDescriptor)
    ensures
        final(out)@ == old(out)@ + enc_type(ty@),
    decreases ty,
{
    put_text(out, ty.rust_name.as_str());
    put_schema(out, &ty.schema);
    match &ty.model {
        Some(model) => {
            put_u8(out, 1);
            put_model(out, model);
        },
        None => put_u8(out, 0),
    }
    match &ty.items {
        Some(items) => {
            put_u8(out, 1);
            put_type(out, items);
        },
        None => put_u8(out, 0),
    }
    assert(out@ =~= old(out)@ + enc_type(ty@));
}

/// The encoding of an input; header names are case-insensitive.
pub open spec fn enc_input(input: InputView) -> Seq<u8> {
    seq![source_tag(input.source)] + enc_text(
        if input.source == InputSource::Header {
            lower_all(input.name)
        } else {
            input.name
        },
    ) + enc_bool(input.required) + enc_type(input.ty)
}

/// The encoding of a response header; its name is case-insensitive.
pub open spec fn enc_header(header: HeaderView) -> Seq<u8> {
    enc_text(lower_all(header.name)) + enc_text(header.value)
}

/// The encoding of a response.
pub open spec fn enc_response(response: ResponseView) -> Seq<u8> {
    let body = match response.body {
        Some(ty) => seq![1u8] + enc_type(ty),
        None => seq![0u8],
    };
    enc_u16(response.status as nat) + body + enc_opt_text(response.error_code) + enc_opt_text(
        response.error_message,
    ) + enc_sorted(enc_headers(response.headers))
}

/// The encoding of a security requirement.
pub open spec fn enc_requirement(requirement: SecurityView) -> Seq<u8> {
    enc_text(requirement.scheme) + enc_sorted(enc_texts(requirement.scopes))
}

/// The encodings of a list of texts.
pub open spec fn enc_texts(list: Seq<Seq<char>>) -> Seq<Seq<u8>> {
    list.map_values(|text: Seq<char>| enc_text(text))
}

/// The encodings of a list of headers.
pub open spec fn enc_headers(list: Seq<HeaderView>) -> Seq<Seq<u8>> {
    list.map_values(|header: HeaderView| enc_header(header))
}

/// The encodings of a list of inputs.
pub open spec fn enc_inputs(list: Seq<InputView>) -> Seq<Seq<u8>> {
    list.map_values(|input: InputView| enc_input(input))
}

/// The encodings of a list of security requirements.
pub open spec fn enc_requirements(list: Seq<SecurityView>) -> Seq<Seq<u8>> {
    list.map_values(|requirement: SecurityView| enc_requirement(requirement))
}

/// The encodings of a list of responses.
pub open spec fn enc_responses(list: Seq<ResponseView>) -> Seq<Seq<u8>> {
    list.map_values(|response: ResponseView| enc_response(response))
}

/// The encoding of an agent policy.
pub open spec fn enc_policy(policy: AgentPolicy) -> Seq<u8> {
    seq![risk_tag_spec(policy.risk), confirmation_tag_spec(policy.confirmation)] + enc_bool(
        policy.idempotent,
    )
}

/// The encoding of an optional MCP tool.
pub open spec fn enc_mcp(tool: Option<McpView>) -> Seq<u8> {
    match tool {
        Some(tool) => seq![1u8] + enc_text(tool.name) + enc_text(tool.description) + seq![
            exposure_tag_spec(tool.expose_output),
        ],
        None => seq![0u8],
    }
}

/// The canonical bytes of a contract. The deprecated single-body view takes no
/// part in them.
pub open spec fn canonical_form(contract: ContractView) -> Seq<u8> {
    enc_text("blazingly.operation-contract"@) + enc_u16(contract.format_version.major as nat)
        + enc_u16(contract.format_version.minor as nat) + enc_text(contract.id) + enc_text(
        contract.summary,
    ) + enc_sorted(enc_inputs(contract.inputs)) + enc_sorted(enc_texts(contract.dependencies))
        + enc_sorted(enc_requirements(contract.security)) + enc_sorted(
        enc_responses(contract.responses),
    ) + enc_policy(contract.agent) + enc_mcp(contract.mcp)
}

fn put_input(out: &mut Vec<u8>, input: &InputDescriptor)
    ensures
        final(out)@ == old(out)@ + enc_input(input@),
{
    put_u8(out, input_source_tag(input.source));
    if input.source == InputSource::Header {
        put_text(out, lower_text(input.name.as_str()).as_str());
    } else {
        put_text(out, input.name.as_str());
    }
    put_bool(out, input.required);
    put_type(out, &input.ty);
    assert(out@ =~= old(out)@ + enc_input(input@));
}

fn put_header(out: &mut Vec<u8>, header: &ResponseHeader)
    ensures
        final(out)@ == old(out)@ + enc_header(header@),
{
    put_text(out, lower_text(header.name.as_str()).as_str());
    put_text(out, header.value.as_str());
    assert(out@ =~= old(out)@ + enc_header(header@));
}

fn put_response(out: &mut Vec<u8>, response: &ResponseDescriptor)
    ensures
        final(out)@ == old(out)@ + enc_response(response@),
{
    put_u16(out, response.status);
    match &response.body {
        Some(body) => {
            put_u8(out, 1);
            put_type(out, body);
        },
        None => put_u8(out, 0),
    }
    put_opt_text(out, &response.error_code);
    put_opt_text(out, &response.error_message);
    put_headers(out, &response.headers);
    assert(out@ =~= old(out)@ + enc_response(response@));
}

fn put_requirement(out: &mut Vec<u8>, requirement: &SecurityRequirement)
    ensures
        final(out)@ == old(out)@ + enc_requirement(requirement@),
{
    put_text(out, requirement.scheme.as_str());
    put_texts(out, &requirement.scopes);
    assert(out@ =~= old(out)@ + enc_requirement(requirement@));
}

fn put_policy(out: &mut Vec<u8>, policy: &AgentPolicy)
    ensures
        final(out)@ == old(out)@ + enc_policy(*policy),
{
    put_u8(out, risk_tag(policy.risk));
    put_u8(out, confirmation_tag(policy.confirmation));
    put_bool(out, policy.idempotent);
    assert(out@ =~= old(out)@ + enc_policy(*policy));
}

fn put_mcp(out: &mut Vec<u8>, tool: &Option<McpToolDescriptor>)
    ensures
        final(out)@ == old(out)@ + enc_mcp(crate::operation::opt_mcp(*tool)),
{
    match tool {
        Some(tool) => {
            put_u8(out, 1);
            put_text(out, tool.name.as_str());
            put_text(out, tool.description.as_str());
            put_u8(out, exposure_tag(tool.expose_output));
        },
        None => put_u8(out, 0),
    }
    assert(out@ =~= old(out)@ + enc_mcp(crate::operation::opt_mcp(*tool)));
}

fn put_texts(out: &mut Vec<u8>, list: &Vec<String>)
    ensures
        final(out)@ == old(out)@ + enc_sorted(enc_texts(crate::operation::texts(list@))),
{
    let mut encoded: Vec<Vec<u8>> = Vec::new();
    let mut index: usize = 0;
    while index < list.len()
        invariant
            index <= list@.len(),
            encoded@.len() == index,
            forall|i: int| 0 <= i < index ==> (#[trigger] encoded@[i])@ == enc_text(list@[i]@),
        decreases list@.len() - index,
    {
        let mut item: Vec<u8> = Vec::new();
        put_text(&mut item, list[index].as_str());
        assert(item@ =~= enc_text(list@[index as int]@));
        encoded.push(item);
        index += 1;
    }
    assert(blobs(encoded@) =~= enc_texts(crate::operation::texts(list@)));
    put_sorted(out, encoded);
}

fn put_dependencies(out: &mut Vec<u8>, list: &Vec<crate::operation::DependencyDescriptor>)
    ensures
        final(out)@ == old(out)@ + enc_sorted(enc_texts(crate::operation::dependencies_view(list@))),
{
    let mut encoded: Vec<Vec<u8>> = Vec::new();
    let mut index: usize = 0;
    while index < list.len()
        invariant
            index <= list@.len(),
            encoded@.len() == index,
            forall|i: int| 0 <= i < index ==> (#[trigger] encoded@[i])@ == enc_text(list@[i]@),
        decreases list@.len() - index,
    {
        let mut item: Vec<u8> = Vec::new();
        put_text(&mut item, list[index].rust_name.as_str());
        assert(item@ =~= enc_text(list@[index as int]@));
        encoded.push(item);
        index += 1;
    }
    assert(blobs(encoded@) =~= enc_texts(crate::operation::dependencies_view(list@)));
    put_sorted(out, encoded);
}

fn put_headers(out: &mut Vec<u8>, list: &Vec<ResponseHeader>)
    ensures
        final(out)@ == old(out)@ + enc_sorted(enc_headers(crate::operation::headers_view(list@))),
{
    let mut encoded: Vec<Vec<u8>> = Vec::new();
    let mut index: usize = 0;
    while index < list.len()
        invariant
            index <= list@.len(),
            encoded@.len() == index,
            forall|i: int| 0 <= i < index ==> (#[trigger] encoded@[i])@ == enc_header(list@[i]@),
        decreases list@.len() - index,
    {
        let mut item: Vec<u8> = Vec::new();
        put_header(&mut item, &list[index]);
        assert(item@ =~= enc_header(list@[index as int]@));
        encoded.push(item);
        index += 1;
    }
    assert(blobs(encoded@) =~= enc_headers(crate::operation::headers_view(list@)));
    put_sorted(out, encoded);
}

fn put_inputs(out: &mut Vec<u8>, list: &Vec<InputDescriptor>)
    ensures
        final(out)@ == old(out)@ + enc_sorted(enc_inputs(crate::operation::inputs_view(list@))),
{
    let mut encoded: Vec<Vec<u8>> = Vec::new();
    let mut index: usize = 0;
    while index < list.len()
        invariant
            index <= list@.len(),
            encoded@.len() == index,
            forall|i: int| 0 <= i < index ==> (#[trigger] encoded@[i])@ == enc_input(list@[i]@),
        decreases list@.len() - index,
    {
        let mut item: Vec<u8> = Vec::new();
        put_input(&mut item, &list[index]);
        assert(item@ =~= enc_input(list@[index as int]@));
        encoded.push(item);
        index += 1;
    }
    assert(blobs(encoded@) =~= enc_inputs(crate::operation::inputs_view(list@)));
    put_sorted(out, encoded);
}

fn put_requirements(out: &mut Vec<u8>, list: &Vec<SecurityRequirement>)
    ensures
        final(out)@ == old(out)@ + enc_sorted(enc_requirements(crate::operation::security_view(list@))),
{
    let mut encoded: Vec<Vec<u8>> = Vec::new();
    let mut index: usize = 0;
    while index < list.len()
        invariant
            index <= list@.len(),
            encoded@.len() == index,
            forall|i: int| 0 <= i < index ==> (#[trigger] encoded@[i])@ == enc_requirement(list@[i]@),
        decreases list@.len() - index,
    {
        let mut item: Vec<u8> = Vec::new();
        put_requirement(&mut item, &list[index]);
        assert(item@ =~= enc_requirement(list@[index as int]@));
        encoded.push(item);
        index += 1;
    }
    assert(blobs(encoded@) =~= enc_requirements(crate::operation::security_view(list@)));
    put_sorted(out, encoded);
}

fn put_responses(out: &mut Vec<u8>, list: &Vec<ResponseDescriptor>)
    ensures
        final(out)@ == old(out)@ + enc_sorted(enc_responses(crate::operation::responses_view(list@))),
{
    let mut encoded: Vec<Vec<u8>> = Vec::new();
    let mut index: usize = 0;
    while index < list.len()
        invariant
            index <= list@.len(),
            encoded@.len() == index,
            forall|i: int| 0 <= i < index ==> (#[trigger] encoded@[i])@ == enc_response(list@[i]@),
        decreases list@.len() - index,
    {
        let mut item: Vec<u8> = Vec::new();
        put_response(&mut item, &list[index]);
        assert(item@ =~= enc_response(list@[index as int]@));
        encoded.push(item);
        index += 1;
    }
    assert(blobs(encoded@) =~= enc_responses(crate::operation::responses_view(list@)));
    put_sorted(out, encoded);
}

// ---------------------------------------------------------------------------
// Identity
// ---------------------------------------------------------------------------

/// The SHA-256 digest of a byte string.
pub uninterp spec fn sha256_of(bytes: Seq<u8>) -> Seq<u8>;

/// `sha2::Sha256::digest` computes the SHA-256 digest, 32 bytes that depend on
/// the input alone.
#[verifier::external_body]
fn sha256(bytes: &[u8]) -> (digest: [u8; 32])
    ensures
        digest@ == sha256_of(bytes@),
{
    <sha2::Sha256 as sha2::Digest>::digest(bytes).into()
}

/// Stable SHA-256 identity of one canonical operation contract.
#[derive(Clone, Copy, Debug, PartialEq, Eq, PartialOrd, Ord, Hash)]
pub struct ContractFingerprint {
    pub format_version: ContractFormatVersion,
    digest: [u8; 32],
}

/// What a fingerprint says.
#[verifier::ext_equal]
pub struct FingerprintView {
    pub format_version: ContractFormatVersion,
    pub digest: Seq<u8>,
}

impl View for ContractFingerprint {
    type V = FingerprintView;

    closed spec fn view(&self) -> FingerprintView {
        FingerprintView { format_version: self.format_version, digest: self.digest@ }
    }
}

/// The identity of a contract.
pub open spec fn fingerprint_of(contract: ContractView) -> FingerprintView {
    FingerprintView {
        format_version: contract.format_version,
        digest: sha256_of(canonical_form(contract)),
    }
}

/// One hexadecimal digit.
pub open spec fn hex_char(digit: int) -> char {
    if digit < 10 {
        (48 + digit) as char
    } else {
        (87 + digit) as char
    }
}

/// A byte string in lower-case hexadecimal notation.
pub open spec fn hex_of(bytes: Seq<u8>) -> Seq<char>
    decreases bytes.len(),
{
    if bytes.len() == 0 {
        Seq::empty()
    } else {
        hex_of(bytes.drop_last()).push(hex_char(bytes.last() as int / 16)).push(
            hex_char(bytes.last() as int % 16),
        )
    }
}

/// The notation of a format version.
pub open spec fn version_text(version: ContractFormatVersion) -> Seq<char> {
    decimal(version.major as nat) + "."@ + decimal(version.minor as nat)
}

fn hex_digit(digit: u8) -> (character: char)
    requires
        digit < 16,
    ensures
        character == hex_char(digit as int),
{
    if digit < 10 {
        (48 + digit) as char
    } else {
        (87 + digit) as char
    }
}

impl ContractFormatVersion {
    /// Writes the version as `major.minor`.
    #[must_use]
    pub fn to_string(&self) -> (text: String)
        ensures
            text@ == version_text(*self),
    {
        let mut text = decimal_text(self.major as u64);
        text.append(".");
        text.append(decimal_text(self.minor as u64).as_str());
        text
    }
}

impl ContractFingerprint {
    #[must_use]
    pub fn new(format_version: ContractFormatVersion, digest: [u8; 32]) -> (fingerprint: Self)
        ensures
            fingerprint@ == (FingerprintView { format_version, digest: digest@ }),
    {
        ContractFingerprint { format_version, digest }
    }

    #[must_use]
    pub fn as_bytes(&self) -> (digest: &[u8; 32])
        ensures
            digest@ == self@.digest,
    {
        &self.digest
    }

    /// Reports whether two fingerprints are the same identity.
    pub fn same(&self, other: &ContractFingerprint) -> (same: bool)
        ensures
            same == (self@ == other@),
    {
        if self.format_version != other.format_version {
            return false;
        }
        let mut index: usize = 0;
        while index < 32
            invariant
                index <= 32,
                forall|i: int| 0 <= i < index ==> self.digest@[i] == other.digest@[i],
            decreases 32 - index,
        {
            if self.digest[index] != other.digest[index] {
                return false;
            }
            index += 1;
        }
        assert(self.digest@ =~= other.digest@);
        true
    }

    /// Writes the identity with its format version and hexadecimal digest.
    #[must_use]
    pub fn to_string(&self) -> (text: String)
        ensures
            text@ == "blazingly-contract-v"@ + version_text(self@.format_version) + "-sha256:"@
                + hex_of(self@.digest),
    {
        let mut text = "blazingly-contract-v".to_owned();
        text.append(self.format_version.to_string().as_str());
        text.append("-sha256:");
        let ghost prefix = text@;
        let ghost bytes = self.digest@;
        let mut index: usize = 0;
        proof {
            assert(bytes.take(0) =~= Seq::empty());
        }
        while index < 32
            invariant
                index <= 32,
                bytes == self.digest@,
                text@ =~= prefix + hex_of(bytes.take(index as int)),
            decreases 32 - index,
        {
            let byte = self.digest[index];
            text.push(hex_digit(byte / 16));
            text.push(hex_digit(byte % 16));
            proof {
                assert(bytes.take(index + 1).drop_last() =~= bytes.take(index as int));
                assert(bytes.take(index + 1).last() == byte);
            }
            index += 1;
        }
        assert(bytes.take(32) =~= bytes);
        text
    }
}

impl OperationContract {
    /// Returns the deterministic, versioned canonical binary representation.
    ///
    /// The encoding deliberately excludes the deprecated `input` mirror and
    /// uses `inputs` as its only source of truth.
    #[must_use]
    pub fn canonical_bytes(&self) -> (bytes: Vec<u8>)
        ensures
            bytes@ == canonical_form(self@),
    {
        let mut out: Vec<u8> = Vec::new();
        put_text(&mut out, "blazingly.operation-contract");
        put_u16(&mut out, self.format_version.major);
        put_u16(&mut out, self.format_version.minor);
        put_text(&mut out, self.id.as_str());
        put_text(&mut out, self.summary.as_str());
        put_inputs(&mut out, &self.inputs);
        put_dependencies(&mut out, &self.dependencies);
        put_requirements(&mut out, &self.security);
        put_responses(&mut out, &self.responses);
        put_policy(&mut out, &self.agent);
        put_mcp(&mut out, &self.mcp);
        assert(out@ =~= canonical_form(self@));
        out
    }

    /// Returns the SHA-256 identity of the canonical representation.
    #[must_use]
    pub fn fingerprint(&self) -> (fingerprint: ContractFingerprint)
        ensures
            fingerprint@ == fingerprint_of(self@),
    {
        let bytes = self.canonical_bytes();
        ContractFingerprint::new(self.format_version, sha256(bytes.as_slice()))
    }
}

// ---------------------------------------------------------------------------
// Independence of declaration order
// ---------------------------------------------------------------------------

/// A rearrangement of the first `count` positions.
pub open spec fn permutes(order: Seq<int>, count: nat) -> bool {
    &&& order.len() == count
    &&& forall|i: int| 0 <= i < count ==> 0 <= #[trigger] order[i] < count
    &&& order.no_duplicates()
}

/// Two types that differ at most in the declaration order of their fields and
/// rules.
pub open spec fn type_reordered(left: TypeView, right: TypeView) -> bool
    decreases left,
{
    &&& left.rust_name == right.rust_name
    &&& left.schema == right.schema
    &&& match (left.model, right.model) {
        (Some(a), Some(b)) => model_reordered(*a, *b),
        (None, None) => true,
        _ => false,
    }
    &&& match (left.items, right.items) {
        (Some(a), Some(b)) => type_reordered(*a, *b),
        (None, None) => true,
        _ => false,
    }
}

/// Two models that differ at most in declaration order.
pub open spec fn model_reordered(left: ModelView, right: ModelView) -> bool
    decreases left,
{
    &&& left.name == right.name
    &&& left.fields.len() == right.fields.len()
    &&& exists|order: Seq<int>| #[trigger]
        permutes(order, left.fields.len()) && forall|i: int|
            0 <= i < left.fields.len() ==> field_reordered(
                #[trigger] left.fields[i],
                right.fields[order[i]],
            )
}

/// Two fields that differ at most in declaration order.
pub open spec fn field_reordered(left: FieldView, right: FieldView) -> bool
    decreases left,
{
    &&& left.name == right.name
    &&& left.required == right.required
    &&& type_reordered(left.ty, right.ty)
    &&& left.validation.to_multiset() == right.validation.to_multiset()
}

/// Two inputs that differ at most in declaration order and, for a header, in
/// the ASCII case of the name.
pub open spec fn input_reordered(left: InputView, right: InputView) -> bool {
    &&& left.source == right.source
    &&& left.name == right.name || (left.source == InputSource::Header && lower_all(left.name)
        == lower_all(right.name))
    &&& left.required == right.required
    &&& type_reordered(left.ty, right.ty)
}

/// Two requirements that differ at most in the order of their scopes.
pub open spec fn requirement_reordered(left: SecurityView, right: SecurityView) -> bool {
    &&& left.scheme == right.scheme
    &&& left.scopes.to_multiset() == right.scopes.to_multiset()
}

/// Headers with their names in lower case.
pub open spec fn lowered(headers: Seq<HeaderView>) -> Seq<HeaderView> {
    headers.map_values(
        |header: HeaderView| HeaderView { name: lower_all(header.name), value: header.value },
    )
}

/// Two responses that differ at most in declaration order and in the ASCII case
/// of header names.
pub open spec fn response_reordered(left: ResponseView, right: ResponseView) -> bool {
    &&& left.status == right.status
    &&& left.error_code == right.error_code
    &&& left.error_message == right.error_message
    &&& match (left.body, right.body) {
        (Some(a), Some(b)) => type_reordered(a, b),
        (None, None) => true,
        _ => false,
    }
    &&& lowered(left.headers).to_multiset() == lowered(right.headers).to_multiset()
}

/// Two lists whose items match up, in some order, under a relation.
pub open spec fn list_reordered<A>(
    left: Seq<A>,
    right: Seq<A>,
    same: spec_fn(A, A) -> bool,
) -> bool {
    &&& left.len() == right.len()
    &&& exists|order: Seq<int>| #[trigger]
        permutes(order, left.len()) && forall|i: int|
            0 <= i < left.len() ==> same(#[trigger] left[i], right[order[i]])
}

/// Two contracts that differ at most in the declaration order of inputs,
/// dependencies, security requirements, scopes, responses, headers, model
/// fields and rules, in the ASCII case of header names, and in the deprecated
/// single-body view.
pub open spec fn contract_reordered(left: ContractView, right: ContractView) -> bool {
    &&& left.format_version == right.format_version
    &&& left.id == right.id
    &&& left.summary == right.summary
    &&& left.agent == right.agent
    &&& left.mcp == right.mcp
    &&& list_reordered(left.inputs, right.inputs, |a: InputView, b: InputView| input_reordered(a, b))
    &&& left.dependencies.to_multiset() == right.dependencies.to_multiset()
    &&& list_reordered(
        left.security,
        right.security,
        |a: SecurityView, b: SecurityView| requirement_reordered(a, b),
    )
    &&& list_reordered(
        left.responses,
        right.responses,
        |a: ResponseView, b: ResponseView| response_reordered(a, b),
    )
}

proof fn lemma_permuted_multiset<A>(left: Seq<A>, right: Seq<A>, order: Seq<int>)
    requires
        left.len() == right.len(),
        permutes(order, left.len()),
        forall|i: int| 0 <= i < left.len() ==> #[trigger] left[i] == right[order[i]],
    ensures
        left.to_multiset() == right.to_multiset(),
    decreases left.len(),
{
    left.to_multiset_ensures();
    right.to_multiset_ensures();
    if left.len() == 0 {
        assert(left =~= right);
    } else {
        let last = left.len() - 1;
        let hole = order[last];
        let fewer = right.remove(hole);
        let rest = order.drop_last().map_values(|at: int| if at > hole { at - 1 } else { at });
        let head = left.drop_last();
        assert forall|i: int| 0 <= i < head.len() implies 0 <= #[trigger] rest[i] < head.len() by {
            assert(order[i] != hole);
        }
        assert forall|i: int, j: int| 0 <= i < j < rest.len() implies rest[i] != rest[j] by {
            assert(order[i] != order[j]);
            assert(order[i] != hole && order[j] != hole);
        }
        assert forall|i: int| 0 <= i < head.len() implies #[trigger] head[i] == fewer[rest[i]] by {
            assert(left[i] == right[order[i]]);
            assert(order[i] != hole);
        }
        lemma_permuted_multiset(head, fewer, rest);
        to_multiset_remove(right, hole);
        assert(left =~= head.push(left[last]));
        to_multiset_build(head, left[last]);
        assert(right.contains(right[hole]));
        assert(right.to_multiset().remove(right[hole]).insert(right[hole]) =~= right.to_multiset());
    }
}

proof fn lemma_mapped_multiset<A, B>(left: Seq<A>, right: Seq<A>, map: spec_fn(A) -> B)
    requires
        left.to_multiset() == right.to_multiset(),
    ensures
        left.map_values(map).to_multiset() == right.map_values(map).to_multiset(),
    decreases left.len(),
{
    left.to_multiset_ensures();
    right.to_multiset_ensures();
    if left.len() == 0 {
        assert(left =~= right);
    } else {
        let item = left.last();
        let head = left.drop_last();
        assert(left =~= head.push(item));
        to_multiset_build(head, item);
        assert(left[left.len() - 1] == item);
        assert(left.contains(item));
        assert(left.to_multiset().count(item) > 0);
        assert(right.to_multiset().count(item) > 0);
        assert(right.contains(item));
        let at = choose|at: int| 0 <= at < right.len() && right[at] == item;
        let fewer = right.remove(at);
        to_multiset_remove(right, at);
        assert(head.to_multiset() =~= fewer.to_multiset());
        lemma_mapped_multiset(head, fewer, map);
        assert(left.map_values(map) =~= head.map_values(map).push(map(item)));
        to_multiset_build(head.map_values(map), map(item));
        let mapped = right.map_values(map);
        assert(mapped.remove(at) =~= fewer.map_values(map));
        to_multiset_remove(mapped, at);
        mapped.to_multiset_ensures();
        assert(mapped.contains(mapped[at]));
        assert(mapped.to_multiset().remove(map(item)).insert(map(item)) =~= mapped.to_multiset());
    }
}

/// The encoding of an unordered collection depends only on which item
/// encodings it holds, and how often.
pub proof fn law_sorted_encoding_ignores_order(left: Seq<Seq<u8>>, right: Seq<Seq<u8>>)
    requires
        left.to_multiset() == right.to_multiset(),
    ensures
        enc_sorted(left) == enc_sorted(right),
{
    lemma_byte_order_total();
    left.lemma_sort_by_ensures(byte_order());
    right.lemma_sort_by_ensures(byte_order());
    lemma_sorted_unique(left.sort_by(byte_order()), right.sort_by(byte_order()), byte_order());
    left.to_multiset_ensures();
    right.to_multiset_ensures();
}

proof fn lemma_list_encoding<A>(
    left: Seq<A>,
    right: Seq<A>,
    same: spec_fn(A, A) -> bool,
    encode: spec_fn(A) -> Seq<u8>,
)
    requires
        list_reordered(left, right, same),
        forall|a: A, b: A| same(a, b) ==> #[trigger] encode(a) == #[trigger] encode(b),
    ensures
        enc_sorted(left.map_values(encode)) == enc_sorted(right.map_values(encode)),
{
    let order = choose|order: Seq<int>| #[trigger]
        permutes(order, left.len()) && forall|i: int|
            0 <= i < left.len() ==> same(#[trigger] left[i], right[order[i]]);
    let a = left.map_values(encode);
    let b = right.map_values(encode);
    assert forall|i: int| 0 <= i < a.len() implies #[trigger] a[i] == b[order[i]] by {
        assert(same(left[i], right[order[i]]));
        assert(encode(left[i]) == encode(right[order[i]]));
    }
    lemma_permuted_multiset(a, b, order);
    law_sorted_encoding_ignores_order(a, b);
}

proof fn lemma_field_encoding(left: FieldView, right: FieldView)
    requires
        field_reordered(left, right),
    ensures
        enc_field(left) == enc_field(right),
    decreases left,
{
    lemma_type_encoding(left.ty, right.ty);
    lemma_mapped_multiset(left.validation, right.validation, |rule: RuleView| enc_rule(rule));
    law_sorted_encoding_ignores_order(enc_rules(left.validation), enc_rules(right.validation));
}

proof fn lemma_model_encoding(left: ModelView, right: ModelView)
    requires
        model_reordered(left, right),
    ensures
        enc_model(left) == enc_model(right),
    decreases left,
{
    let order = choose|order: Seq<int>| #[trigger]
        permutes(order, left.fields.len()) && forall|i: int|
            0 <= i < left.fields.len() ==> field_reordered(
                #[trigger] left.fields[i],
                right.fields[order[i]],
            );
    let a = enc_fields(left);
    let b = enc_fields(right);
    assert forall|i: int| 0 <= i < a.len() implies #[trigger] a[i] == b[order[i]] by {
        assert(field_reordered(left.fields[i], right.fields[order[i]]));
        lemma_field_encoding(left.fields[i], right.fields[order[i]]);
    }
    lemma_permuted_multiset(a, b, order);
    law_sorted_encoding_ignores_order(a, b);
}

proof fn lemma_type_encoding(left: TypeView, right: TypeView)
    requires
        type_reordered(left, right),
    ensures
        enc_type(left) == enc_type(right),
    decreases left,
{
    match (left.model, right.model) {
        (Some(a), Some(b)) => lemma_model_encoding(*a, *b),
        _ => {},
    }
    match (left.items, right.items) {
        (Some(a), Some(b)) => lemma_type_encoding(*a, *b),
        _ => {},
    }
}

/// The canonical bytes, and so the fingerprint, are independent of declaration
/// order, of the ASCII case of header names, and of the deprecated single-body
/// view.
pub proof fn law_canonical_form_ignores_declaration_order(left: ContractView, right: ContractView)
    requires
        contract_reordered(left, right),
    ensures
        canonical_form(left) == canonical_form(right),
        fingerprint_of(left) == fingerprint_of(right),
{
    let same_input = |a: InputView, b: InputView| input_reordered(a, b);
    let encode_input = |input: InputView| enc_input(input);
    assert forall|a: InputView, b: InputView| same_input(a, b) implies #[trigger] encode_input(a)
        == #[trigger] encode_input(b) by {
        lemma_type_encoding(a.ty, b.ty);
    }
    lemma_list_encoding(left.inputs, right.inputs, same_input, encode_input);
    lemma_mapped_multiset(
        left.dependencies,
        right.dependencies,
        |text: Seq<char>| enc_text(text),
    );
    law_sorted_encoding_ignores_order(
        enc_texts(left.dependencies),
        enc_texts(right.dependencies),
    );
    let same_requirement = |a: SecurityView, b: SecurityView| requirement_reordered(a, b);
    let encode_requirement = |requirement: SecurityView| enc_requirement(requirement);
    assert forall|a: SecurityView, b: SecurityView| same_requirement(a, b) implies #[trigger]
        encode_requirement(a) == #[trigger] encode_requirement(b) by {
        lemma_mapped_multiset(a.scopes, b.scopes, |text: Seq<char>| enc_text(text));
        law_sorted_encoding_ignores_order(enc_texts(a.scopes), enc_texts(b.scopes));
    }
    lemma_list_encoding(left.security, right.security, same_requirement, encode_requirement);
    let same_response = |a: ResponseView, b: ResponseView| response_reordered(a, b);
    let encode_response = |response: ResponseView| enc_response(response);
    assert forall|a: ResponseView, b: ResponseView| same_response(a, b) implies #[trigger]
        encode_response(a) == #[trigger] encode_response(b) by {
        match (a.body, b.body) {
            (Some(x), Some(y)) => lemma_type_encoding(x, y),
            _ => {},
        }
        let encode = |header: HeaderView| enc_text(header.name) + enc_text(header.value);
        lemma_mapped_multiset(lowered(a.headers), lowered(b.headers), encode);
        assert(lowered(a.headers).map_values(encode) =~= enc_headers(a.headers));
        assert(lowered(b.headers).map_values(encode) =~= enc_headers(b.headers));
        law_sorted_encoding_ignores_order(enc_headers(a.headers), enc_headers(b.headers));
    }
    lemma_list_encoding(left.responses, right.responses, same_response, encode_response);
}

// ---------------------------------------------------------------------------
// The canonical form tells contracts apart
// ---------------------------------------------------------------------------

proof fn lemma_u64_apart(left: nat, right: nat)
    requires
        left <= u64::MAX,
        right <= u64::MAX,
        enc_u64(left) == enc_u64(right),
    ensures
        left == right,
{
    lemma_u64_value(left);
    lemma_u64_value(right);
    let a = enc_u64(left);
    let b = enc_u64(right);
    assert(a[0] == b[0] && a[1] == b[1] && a[2] == b[2] && a[3] == b[3] && a[4] == b[4] && a[5]
        == b[5] && a[6] == b[6] && a[7] == b[7]);
}

proof fn lemma_u64_value(value: nat)
    requires
        value <= u64::MAX,
    ensures
        enc_u64(value).len() == 8,
        value == enc_u64(value)[0] * 0x100_0000_0000_0000 + enc_u64(value)[1] * 0x1_0000_0000_0000
            + enc_u64(value)[2] * 0x100_0000_0000 + enc_u64(value)[3] * 0x1_0000_0000 + enc_u64(
            value,
        )[4] * 0x100_0000 + enc_u64(value)[5] * 0x1_0000 + enc_u64(value)[6] * 0x100 + enc_u64(
            value,
        )[7],
{
    let a1 = value / 0x100;
    let a2 = value / 0x1_0000;
    let a3 = value / 0x100_0000;
    let a4 = value / 0x1_0000_0000;
    let a5 = value / 0x100_0000_0000;
    let a6 = value / 0x1_0000_0000_0000;
    let a7 = value / 0x100_0000_0000_0000;
    assert(a2 == a1 / 256);
    assert(a3 == a2 / 256);
    assert(a4 == a3 / 256);
    assert(a5 == a4 / 256);
    assert(a6 == a5 / 256);
    assert(a7 == a6 / 256);
    assert(a7 < 256);
}

proof fn lemma_split_alike(a: Seq<u8>, r: Seq<u8>, b: Seq<u8>, s: Seq<u8>)
    requires
        a + r == b + s,
        a.len() == b.len(),
    ensures
        a == b,
        r == s,
{
    assert(a =~= (a + r).take(a.len() as int));
    assert(b =~= (b + s).take(b.len() as int));
    assert(r =~= (a + r).skip(a.len() as int));
    assert(s =~= (b + s).skip(b.len() as int));
}

proof fn lemma_join(a: Seq<u8>, b: Seq<u8>, c: Seq<u8>)
    ensures
        a + b + c == a + (b + c),
{
    assert(a + b + c =~= a + (b + c));
}

/// A part that may be absent, marked by its presence.
pub open spec fn enc_option(part: Option<Seq<u8>>) -> Seq<u8> {
    match part {
        Some(part) => seq![1u8] + part,
        None => seq![0u8],
    }
}

proof fn lemma_option_apart(
    left: Option<Seq<u8>>,
    r: Seq<u8>,
    right: Option<Seq<u8>>,
    s: Seq<u8>,
)
    requires
        enc_option(left) + r == enc_option(right) + s,
    ensures
        match (left, right) {
            (Some(a), Some(b)) => a + r == b + s,
            (None, None) => r == s,
            _ => false,
        },
        left matches Some(a) ==> (a + r).len() < (enc_option(left) + r).len(),
        r.len() <= (enc_option(left) + r).len(),
{
    assert((enc_option(left) + r)[0] == enc_option(left)[0]);
    assert((enc_option(right) + s)[0] == enc_option(right)[0]);
    match (left, right) {
        (Some(a), Some(b)) => {
            lemma_join(seq![1u8], a, r);
            lemma_join(seq![1u8], b, s);
            lemma_split_alike(seq![1u8], a + r, seq![1u8], b + s);
        },
        (None, None) => {
            lemma_split_alike(seq![0u8], r, seq![0u8], s);
        },
        (Some(a), None) => {
            assert(enc_option(left)[0] == 1u8);
            assert(enc_option(right)[0] == 0u8);
        },
        (None, Some(b)) => {
            assert(enc_option(left)[0] == 0u8);
            assert(enc_option(right)[0] == 1u8);
        },
    }
}

proof fn lemma_bytes_apart(left: Seq<u8>, r: Seq<u8>, right: Seq<u8>, s: Seq<u8>)
    requires
        enc_bytes(left) + r == enc_bytes(right) + s,
        (enc_bytes(left) + r).len() <= u64::MAX,
    ensures
        left == right,
        r == s,
{
    assert(enc_bytes(left) + r =~= enc_u64(left.len()) + (left + r));
    assert(enc_bytes(right) + s =~= enc_u64(right.len()) + (right + s));
    lemma_split_alike(enc_u64(left.len()), left + r, enc_u64(right.len()), right + s);
    assert((enc_bytes(left) + r).len() == 8 + left.len() + r.len());
    assert((enc_bytes(right) + s).len() == 8 + right.len() + s.len());
    lemma_u64_apart(left.len(), right.len());
    lemma_split_alike(left, r, right, s);
}

proof fn lemma_text_apart(left: Seq<char>, r: Seq<u8>, right: Seq<char>, s: Seq<u8>)
    requires
        enc_text(left) + r == enc_text(right) + s,
        (enc_text(left) + r).len() <= u64::MAX,
    ensures
        left == right,
        r == s,
{
    lemma_bytes_apart(encode_utf8(left), r, encode_utf8(right), s);
    vstd::utf8::encode_utf8_decode_utf8(left);
    vstd::utf8::encode_utf8_decode_utf8(right);
}

proof fn lemma_opt_text_apart(
    left: Option<Seq<char>>,
    r: Seq<u8>,
    right: Option<Seq<char>>,
    s: Seq<u8>,
)
    requires
        enc_opt_text(left) + r == enc_opt_text(right) + s,
        (enc_opt_text(left) + r).len() <= u64::MAX,
    ensures
        left == right,
        r == s,
{
    assert((enc_opt_text(left) + r)[0] == enc_opt_text(left)[0]);
    assert((enc_opt_text(right) + s)[0] == enc_opt_text(right)[0]);
    match (left, right) {
        (Some(a), Some(b)) => {
            assert(enc_opt_text(left) + r =~= seq![1u8] + (enc_text(a) + r));
            assert(enc_opt_text(right) + s =~= seq![1u8] + (enc_text(b) + s));
            lemma_split_alike(seq![1u8], enc_text(a) + r, seq![1u8], enc_text(b) + s);
            lemma_text_apart(a, r, b, s);
        },
        (None, None) => {
            lemma_split_alike(seq![0u8], r, seq![0u8], s);
        },
        _ => {},
    }
}

proof fn lemma_run_front(items: Seq<Seq<u8>>)
    requires
        items.len() > 0,
    ensures
        enc_run(items) == enc_bytes(items[0]) + enc_run(items.drop_first()),
    decreases items.len(),
{
    if items.len() == 1 {
        assert(items.drop_last() =~= Seq::empty());
        assert(items.drop_first() =~= Seq::empty());
        assert(enc_run(items.drop_last()) =~= Seq::empty());
        assert(enc_run(items.drop_first()) =~= Seq::empty());
        assert(enc_run(items) =~= enc_bytes(items[0]) + enc_run(items.drop_first()));
    } else {
        lemma_run_front(items.drop_last());
        assert(items.drop_last().drop_first() =~= items.drop_first().drop_last());
        assert(enc_run(items) =~= enc_bytes(items[0]) + enc_run(items.drop_first()));
    }
}

proof fn lemma_run_length(items: Seq<Seq<u8>>)
    ensures
        items.len() <= enc_run(items).len(),
        forall|i: int| 0 <= i < items.len() ==> (#[trigger] items[i]).len() <= enc_run(items).len(),
    decreases items.len(),
{
    if items.len() > 0 {
        let head = items.drop_last();
        lemma_run_length(head);
        assert forall|i: int| 0 <= i < items.len() implies (#[trigger] items[i]).len() <= enc_run(
            items,
        ).len() by {
            if i < head.len() {
                assert(head[i] == items[i]);
            }
        }
    }
}

proof fn lemma_run_apart(left: Seq<Seq<u8>>, r: Seq<u8>, right: Seq<Seq<u8>>, s: Seq<u8>)
    requires
        left.len() == right.len(),
        enc_run(left) + r == enc_run(right) + s,
        (enc_run(left) + r).len() <= u64::MAX,
    ensures
        left == right,
        r == s,
    decreases left.len(),
{
    if left.len() == 0 {
        assert(left =~= right);
        assert(enc_run(left) + r =~= r);
        assert(enc_run(right) + s =~= s);
    } else {
        lemma_run_front(left);
        lemma_run_front(right);
        let a = enc_run(left.drop_first());
        let b = enc_run(right.drop_first());
        assert(enc_run(left) + r =~= enc_bytes(left[0]) + (a + r));
        assert(enc_run(right) + s =~= enc_bytes(right[0]) + (b + s));
        lemma_bytes_apart(left[0], a + r, right[0], b + s);
        lemma_run_apart(left.drop_first(), r, right.drop_first(), s);
        assert(left =~= seq![left[0]] + left.drop_first());
        assert(right =~= seq![right[0]] + right.drop_first());
    }
}

proof fn lemma_sorted_length(items: Seq<Seq<u8>>)
    ensures
        enc_sorted(items).len() == 8 + enc_run(items.sort_by(byte_order())).len(),
        items.sort_by(byte_order()).len() == items.len(),
        items.sort_by(byte_order()).to_multiset() == items.to_multiset(),
        items.len() <= enc_sorted(items).len(),
        forall|i: int|
            0 <= i < items.len() ==> (#[trigger] items[i]).len() <= enc_sorted(items).len(),
{
    let sorted = items.sort_by(byte_order());
    lemma_byte_order_total();
    items.lemma_sort_by_ensures(byte_order());
    items.to_multiset_ensures();
    sorted.to_multiset_ensures();
    lemma_run_length(sorted);
    assert forall|i: int| 0 <= i < items.len() implies (#[trigger] items[i]).len() <= enc_sorted(
        items,
    ).len() by {
        assert(items.contains(items[i]));
        assert(items.to_multiset().count(items[i]) > 0);
        assert(sorted.contains(items[i]));
        let k = choose|k: int| 0 <= k < sorted.len() && sorted[k] == items[i];
        assert(sorted[k].len() <= enc_run(sorted).len());
    }
}

/// The encoding of an unordered collection can be read back: it ends where the
/// collection does, and tells which item encodings it holds, and how often. This
/// is the converse of [`law_sorted_encoding_ignores_order`].
pub proof fn law_sorted_encoding_is_read_back(
    left: Seq<Seq<u8>>,
    r: Seq<u8>,
    right: Seq<Seq<u8>>,
    s: Seq<u8>,
)
    requires
        enc_sorted(left) + r == enc_sorted(right) + s,
        (enc_sorted(left) + r).len() <= u64::MAX,
    ensures
        left.to_multiset() == right.to_multiset(),
        left.len() == right.len(),
        r == s,
{
    let a = left.sort_by(byte_order());
    let b = right.sort_by(byte_order());
    lemma_sorted_length(left);
    lemma_sorted_length(right);
    assert(enc_sorted(left) + r =~= enc_u64(left.len()) + (enc_run(a) + r));
    assert(enc_sorted(right) + s =~= enc_u64(right.len()) + (enc_run(b) + s));
    lemma_split_alike(enc_u64(left.len()), enc_run(a) + r, enc_u64(right.len()), enc_run(b) + s);
    lemma_u64_apart(left.len(), right.len());
    lemma_run_apart(a, r, b, s);
}

proof fn lemma_permutation<A>(left: Seq<A>, right: Seq<A>) -> (order: Seq<int>)
    requires
        left.to_multiset() == right.to_multiset(),
    ensures
        left.len() == right.len(),
        permutes(order, left.len()),
        forall|i: int| 0 <= i < left.len() ==> #[trigger] left[i] == right[order[i]],
    decreases left.len(),
{
    left.to_multiset_ensures();
    right.to_multiset_ensures();
    if left.len() == 0 {
        Seq::empty()
    } else {
        let item = left.last();
        let head = left.drop_last();
        assert(left =~= head.push(item));
        to_multiset_build(head, item);
        assert(left[left.len() - 1] == item);
        assert(left.contains(item));
        assert(left.to_multiset().count(item) > 0);
        assert(right.contains(item));
        let at = choose|at: int| 0 <= at < right.len() && right[at] == item;
        let fewer = right.remove(at);
        to_multiset_remove(right, at);
        assert(head.to_multiset() =~= fewer.to_multiset());
        let rest = lemma_permutation(head, fewer);
        let order = rest.map_values(|k: int| if k >= at { k + 1 } else { k }).push(at);
        assert forall|i: int| 0 <= i < left.len() implies 0 <= #[trigger] order[i] < left.len() by {
            if i < head.len() {
                assert(0 <= rest[i] < head.len());
            }
        }
        assert forall|i: int, j: int| 0 <= i < j < order.len() implies order[i] != order[j] by {
            if j < head.len() {
                assert(rest[i] != rest[j]);
            }
        }
        assert(order.no_duplicates());
        assert forall|i: int| 0 <= i < left.len() implies #[trigger] left[i] == right[order[i]] by {
            if i < head.len() {
                assert(head[i] == fewer[rest[i]]);
            }
        }
        order
    }
}

proof fn lemma_unmapped_multiset<A>(left: Seq<A>, right: Seq<A>, map: spec_fn(A) -> Seq<u8>)
    requires
        left.map_values(map).to_multiset() == right.map_values(map).to_multiset(),
        forall|i: int, j: int|
            0 <= i < left.len() && 0 <= j < right.len() && #[trigger] map(left[i])
                == #[trigger] map(right[j]) ==> left[i] == right[j],
    ensures
        left.to_multiset() == right.to_multiset(),
{
    let a = left.map_values(map);
    let b = right.map_values(map);
    let order = lemma_permutation(a, b);
    assert forall|i: int| 0 <= i < left.len() implies #[trigger] left[i] == right[order[i]] by {
        assert(a[i] == b[order[i]]);
        assert(map(left[i]) == map(right[order[i]]));
    }
    lemma_permuted_multiset(left, right, order);
}

proof fn lemma_schema_apart(left: SchemaKind, r: Seq<u8>, right: SchemaKind, s: Seq<u8>)
    requires
        enc_schema(left) + r == enc_schema(right) + s,
    ensures
        left == right,
        r == s,
    decreases left,
{
    assert((enc_schema(left) + r)[0] == enc_schema(left)[0]);
    assert((enc_schema(right) + s)[0] == enc_schema(right)[0]);
    match (left, right) {
        (SchemaKind::Array(a), SchemaKind::Array(b)) => {
            assert(enc_schema(left) + r =~= seq![5u8] + (enc_schema(*a) + r));
            assert(enc_schema(right) + s =~= seq![5u8] + (enc_schema(*b) + s));
            lemma_split_alike(seq![5u8], enc_schema(*a) + r, seq![5u8], enc_schema(*b) + s);
            lemma_schema_apart(*a, r, *b, s);
        },
        _ => {
            lemma_split_alike(enc_schema(left), r, enc_schema(right), s);
        },
    }
}

proof fn lemma_rule_number(rule: RuleView)
    ensures
        enc_rule(rule).len() > 0,
        enc_rule(rule)[0] == match rule {
            RuleView::MinLength(_) => 0u8,
            RuleView::MaxLength(_) => 1u8,
            RuleView::Email => 2u8,
            RuleView::Alias(_) => 3u8,
            RuleView::Custom(_) => 4u8,
            RuleView::Nested => 5u8,
        },
{
    match rule {
        RuleView::MinLength(value) => {
            assert((seq![0u8] + enc_u64(value as nat))[0] == 0u8);
        },
        RuleView::MaxLength(value) => {
            assert((seq![1u8] + enc_u64(value as nat))[0] == 1u8);
        },
        RuleView::Alias(name) => {
            assert((seq![3u8] + enc_text(name))[0] == 3u8);
        },
        RuleView::Custom(text) => {
            assert((seq![4u8] + enc_text(text))[0] == 4u8);
        },
        _ => {},
    }
}

/// Rules with the same encoding are the same.
pub proof fn law_rule_encodings_tell_apart(left: RuleView, right: RuleView)
    requires
        enc_rule(left) == enc_rule(right),
        enc_rule(left).len() <= u64::MAX,
    ensures
        left == right,
{
    lemma_rule_number(left);
    lemma_rule_number(right);
    let none = Seq::<u8>::empty();
    match (left, right) {
        (RuleView::MinLength(a), RuleView::MinLength(b)) => {
            lemma_split_alike(seq![0u8], enc_u64(a as nat), seq![0u8], enc_u64(b as nat));
            lemma_u64_apart(a as nat, b as nat);
        },
        (RuleView::MaxLength(a), RuleView::MaxLength(b)) => {
            lemma_split_alike(seq![1u8], enc_u64(a as nat), seq![1u8], enc_u64(b as nat));
            lemma_u64_apart(a as nat, b as nat);
        },
        (RuleView::Alias(a), RuleView::Alias(b)) => {
            lemma_split_alike(seq![3u8], enc_text(a), seq![3u8], enc_text(b));
            assert(enc_text(a) + none =~= enc_text(a));
            assert(enc_text(b) + none =~= enc_text(b));
            lemma_text_apart(a, none, b, none);
        },
        (RuleView::Custom(a), RuleView::Custom(b)) => {
            lemma_split_alike(seq![4u8], enc_text(a), seq![4u8], enc_text(b));
            assert(enc_text(a) + none =~= enc_text(a));
            assert(enc_text(b) + none =~= enc_text(b));
            lemma_text_apart(a, none, b, none);
        },
        _ => {},
    }
}

proof fn lemma_rules_apart(left: Seq<RuleView>, r: Seq<u8>, right: Seq<RuleView>, s: Seq<u8>)
    requires
        enc_sorted(enc_rules(left)) + r == enc_sorted(enc_rules(right)) + s,
        (enc_sorted(enc_rules(left)) + r).len() <= u64::MAX,
    ensures
        left.to_multiset() == right.to_multiset(),
        r == s,
{
    let encode = |rule: RuleView| enc_rule(rule);
    law_sorted_encoding_is_read_back(enc_rules(left), r, enc_rules(right), s);
    lemma_sorted_length(enc_rules(left));
    assert forall|i: int, j: int|
        0 <= i < left.len() && 0 <= j < right.len() && #[trigger] encode(left[i])
            == #[trigger] encode(right[j]) implies left[i] == right[j] by {
        assert(enc_rules(left)[i].len() <= enc_sorted(enc_rules(left)).len());
        law_rule_encodings_tell_apart(left[i], right[j]);
    }
    lemma_unmapped_multiset(left, right, encode);
}

spec fn after_name(field: FieldView) -> Seq<u8> {
    enc_bool(field.required) + after_required(field)
}

spec fn after_required(field: FieldView) -> Seq<u8> {
    enc_type(field.ty) + enc_sorted(enc_rules(field.validation))
}

proof fn lemma_field_parts(field: FieldView)
    ensures
        enc_field(field) == enc_text(field.name) + after_name(field),
{
    let a = enc_text(field.name);
    let b = enc_bool(field.required);
    let c = enc_type(field.ty);
    let d = enc_sorted(enc_rules(field.validation));
    assert(enc_field(field) == a + b + c + d);
    lemma_join(a + b, c, d);
    lemma_join(a, b, c + d);
}

#[verifier::spinoff_prover]
proof fn lemma_field_heads(left: FieldView, right: FieldView)
    requires
        enc_field(left) == enc_field(right),
        enc_field(left).len() <= u64::MAX,
    ensures
        left.name == right.name,
        left.required == right.required,
        after_required(left) == after_required(right),
        after_required(left).len() <= u64::MAX,
{
    lemma_field_parts(left);
    lemma_field_parts(right);
    lemma_text_apart(left.name, after_name(left), right.name, after_name(right));
    lemma_split_alike(
        enc_bool(left.required),
        after_required(left),
        enc_bool(right.required),
        after_required(right),
    );
    assert(enc_bool(left.required)[0] == enc_bool(right.required)[0]);
}

#[verifier::spinoff_prover]
proof fn lemma_field_apart(left: FieldView, right: FieldView)
    requires
        enc_field(left) == enc_field(right),
        enc_field(left).len() <= u64::MAX,
    ensures
        field_reordered(left, right),
    decreases left,
{
    let a = enc_sorted(enc_rules(left.validation));
    let b = enc_sorted(enc_rules(right.validation));
    let none = Seq::<u8>::empty();
    lemma_field_heads(left, right);
    lemma_type_apart(left.ty, a, right.ty, b);
    assert(a + none =~= a);
    assert(b + none =~= b);
    lemma_rules_apart(left.validation, none, right.validation, none);
}

#[verifier::spinoff_prover]
proof fn lemma_model_fields(left: ModelView, r: Seq<u8>, right: ModelView, s: Seq<u8>) -> (order:
    Seq<int>)
    requires
        enc_model(left) + r == enc_model(right) + s,
        (enc_model(left) + r).len() <= u64::MAX,
    ensures
        left.name == right.name,
        left.fields.len() == right.fields.len(),
        permutes(order, left.fields.len()),
        forall|i: int|
            0 <= i < left.fields.len() ==> 0 <= #[trigger] order[i] < right.fields.len()
                && enc_field(left.fields[i]) == enc_field(right.fields[order[i]]) && enc_field(
                left.fields[i],
            ).len() <= u64::MAX,
        r == s,
{
    let a = enc_fields(left);
    let b = enc_fields(right);
    assert(enc_model(left) + r =~= enc_text(left.name) + (enc_sorted(a) + r));
    assert(enc_model(right) + s =~= enc_text(right.name) + (enc_sorted(b) + s));
    lemma_text_apart(left.name, enc_sorted(a) + r, right.name, enc_sorted(b) + s);
    law_sorted_encoding_is_read_back(a, r, b, s);
    lemma_sorted_length(a);
    let order = lemma_permutation(a, b);
    assert forall|i: int| 0 <= i < left.fields.len() implies 0 <= #[trigger] order[i]
        < right.fields.len() && enc_field(left.fields[i]) == enc_field(right.fields[order[i]])
        && enc_field(left.fields[i]).len() <= u64::MAX by {
        assert(a[i] == b[order[i]]);
        assert(a[i] == enc_field(left.fields[i]));
        assert(b[order[i]] == enc_field(right.fields[order[i]]));
    }
    order
}

#[verifier::spinoff_prover]
proof fn lemma_model_apart(left: ModelView, r: Seq<u8>, right: ModelView, s: Seq<u8>)
    requires
        enc_model(left) + r == enc_model(right) + s,
        (enc_model(left) + r).len() <= u64::MAX,
    ensures
        model_reordered(left, right),
        r == s,
    decreases left,
{
    let order = lemma_model_fields(left, r, right, s);
    assert forall|i: int| 0 <= i < left.fields.len() implies field_reordered(
        #[trigger] left.fields[i],
        right.fields[order[i]],
    ) by {
        assert(0 <= order[i] < right.fields.len());
        lemma_field_apart(left.fields[i], right.fields[order[i]]);
    }
    assert(permutes(order, left.fields.len()));
}

#[verifier::spinoff_prover]
proof fn lemma_type_apart(left: TypeView, r: Seq<u8>, right: TypeView, s: Seq<u8>)
    requires
        enc_type(left) + r == enc_type(right) + s,
        (enc_type(left) + r).len() <= u64::MAX,
    ensures
        type_reordered(left, right),
        r == s,
    decreases left,
{
    let (m, n) = (model_part(left), model_part(right));
    let (x, y) = (item_part(left), item_part(right));
    let a = enc_option(m) + (enc_option(x) + r);
    let b = enc_option(n) + (enc_option(y) + s);
    lemma_type_parts(left, r);
    lemma_type_parts(right, s);
    lemma_text_apart(
        left.rust_name,
        enc_schema(left.schema) + a,
        right.rust_name,
        enc_schema(right.schema) + b,
    );
    lemma_schema_apart(left.schema, a, right.schema, b);
    lemma_option_apart(m, enc_option(x) + r, n, enc_option(y) + s);
    match (left.model, right.model) {
        (Some(one), Some(other)) => {
            lemma_model_apart(*one, enc_option(x) + r, *other, enc_option(y) + s);
        },
        _ => {},
    }
    lemma_option_apart(x, r, y, s);
    match (left.items, right.items) {
        (Some(one), Some(other)) => {
            lemma_type_apart(*one, r, *other, s);
        },
        _ => {},
    }
}

spec fn model_part(ty: TypeView) -> Option<Seq<u8>> {
    match ty.model {
        Some(model) => Some(enc_model(*model)),
        None => None,
    }
}

spec fn item_part(ty: TypeView) -> Option<Seq<u8>> {
    match ty.items {
        Some(items) => Some(enc_type(*items)),
        None => None,
    }
}

proof fn lemma_type_parts(ty: TypeView, r: Seq<u8>)
    ensures
        enc_type(ty) + r == enc_text(ty.rust_name) + (enc_schema(ty.schema) + (enc_option(
            model_part(ty),
        ) + (enc_option(item_part(ty)) + r))),
{
    let a = enc_text(ty.rust_name);
    let b = enc_schema(ty.schema);
    let c = enc_option(model_part(ty));
    let d = enc_option(item_part(ty));
    assert(enc_type(ty) == a + b + c + d);
    lemma_join(a + b + c, d, r);
    lemma_join(a + b, c, d + r);
    lemma_join(a, b, c + (d + r));
}

/// Types with the same encoding differ at most in declaration order.
pub proof fn law_type_encodings_tell_apart(left: TypeView, right: TypeView)
    requires
        enc_type(left) == enc_type(right),
        enc_type(left).len() <= u64::MAX,
    ensures
        type_reordered(left, right),
{
    let none = Seq::<u8>::empty();
    assert(enc_type(left) + none =~= enc_type(left));
    assert(enc_type(right) + none =~= enc_type(right));
    lemma_type_apart(left, none, right, none);
}

/// Inputs with the same encoding come from the same source under the same name,
/// up to the ASCII case of a header name, are both required or both optional, and
/// have types that differ at most in declaration order.
#[verifier::spinoff_prover]
pub proof fn law_input_encodings_tell_apart(left: InputView, right: InputView)
    requires
        enc_input(left) == enc_input(right),
        enc_input(left).len() <= u64::MAX,
    ensures
        left.source == right.source,
        left.required == right.required,
        left.name == right.name || left.source == InputSource::Header && lower_all(left.name)
            == lower_all(right.name),
        type_reordered(left.ty, right.ty),
        input_reordered(left, right),
{
    let a = enc_bool(left.required) + enc_type(left.ty);
    let b = enc_bool(right.required) + enc_type(right.ty);
    lemma_input_parts(left);
    lemma_input_parts(right);
    lemma_split_alike(
        seq![source_tag(left.source)],
        enc_text(encoded_name(left)) + a,
        seq![source_tag(right.source)],
        enc_text(encoded_name(right)) + b,
    );
    assert(seq![source_tag(left.source)][0] == seq![source_tag(right.source)][0]);
    lemma_text_apart(encoded_name(left), a, encoded_name(right), b);
    lemma_split_alike(
        enc_bool(left.required),
        enc_type(left.ty),
        enc_bool(right.required),
        enc_type(right.ty),
    );
    assert(enc_bool(left.required)[0] == enc_bool(right.required)[0]);
    law_type_encodings_tell_apart(left.ty, right.ty);
}

spec fn encoded_name(input: InputView) -> Seq<char> {
    if input.source == InputSource::Header {
        lower_all(input.name)
    } else {
        input.name
    }
}

proof fn lemma_input_parts(input: InputView)
    ensures
        enc_input(input) == seq![source_tag(input.source)] + (enc_text(encoded_name(input)) + (
        enc_bool(input.required) + enc_type(input.ty))),
{
    let a = seq![source_tag(input.source)];
    let b = enc_text(encoded_name(input));
    let c = enc_bool(input.required);
    let d = enc_type(input.ty);
    lemma_join(a + b, c, d);
    lemma_join(a, b, c + d);
}

proof fn lemma_texts_apart(left: Seq<Seq<char>>, r: Seq<u8>, right: Seq<Seq<char>>, s: Seq<u8>)
    requires
        enc_sorted(enc_texts(left)) + r == enc_sorted(enc_texts(right)) + s,
        (enc_sorted(enc_texts(left)) + r).len() <= u64::MAX,
    ensures
        left.to_multiset() == right.to_multiset(),
        r == s,
{
    let encode = |text: Seq<char>| enc_text(text);
    let none = Seq::<u8>::empty();
    law_sorted_encoding_is_read_back(enc_texts(left), r, enc_texts(right), s);
    lemma_sorted_length(enc_texts(left));
    assert forall|i: int, j: int|
        0 <= i < left.len() && 0 <= j < right.len() && #[trigger] encode(left[i])
            == #[trigger] encode(right[j]) implies left[i] == right[j] by {
        assert(enc_texts(left)[i].len() <= enc_sorted(enc_texts(left)).len());
        assert(enc_text(left[i]) + none =~= enc_text(left[i]));
        assert(enc_text(right[j]) + none =~= enc_text(right[j]));
        lemma_text_apart(left[i], none, right[j], none);
    }
    lemma_unmapped_multiset(left, right, encode);
}

proof fn lemma_headers_apart(
    left: Seq<HeaderView>,
    r: Seq<u8>,
    right: Seq<HeaderView>,
    s: Seq<u8>,
)
    requires
        enc_sorted(enc_headers(left)) + r == enc_sorted(enc_headers(right)) + s,
        (enc_sorted(enc_headers(left)) + r).len() <= u64::MAX,
    ensures
        lowered(left).to_multiset() == lowered(right).to_multiset(),
        r == s,
{
    let encode = |header: HeaderView| enc_text(header.name) + enc_text(header.value);
    let none = Seq::<u8>::empty();
    let a = lowered(left);
    let b = lowered(right);
    assert(a.map_values(encode) =~= enc_headers(left));
    assert(b.map_values(encode) =~= enc_headers(right));
    law_sorted_encoding_is_read_back(enc_headers(left), r, enc_headers(right), s);
    lemma_sorted_length(enc_headers(left));
    assert forall|i: int, j: int|
        0 <= i < a.len() && 0 <= j < b.len() && #[trigger] encode(a[i])
            == #[trigger] encode(b[j]) implies a[i] == b[j] by {
        assert(enc_headers(left)[i] == encode(a[i]));
        assert(enc_headers(left)[i].len() <= enc_sorted(enc_headers(left)).len());
        lemma_text_apart(a[i].name, enc_text(a[i].value), b[j].name, enc_text(b[j].value));
        assert(enc_text(a[i].value) + none =~= enc_text(a[i].value));
        assert(enc_text(b[j].value) + none =~= enc_text(b[j].value));
        lemma_text_apart(a[i].value, none, b[j].value, none);
    }
    lemma_unmapped_multiset(a, b, encode);
}

/// Responses with the same encoding have the same status, error code and error
/// message, and bodies and headers that differ at most in declaration order and
/// in the ASCII case of header names.
#[verifier::spinoff_prover]
pub proof fn law_response_encodings_tell_apart(left: ResponseView, right: ResponseView)
    requires
        enc_response(left) == enc_response(right),
        enc_response(left).len() <= u64::MAX,
    ensures
        left.status == right.status,
        left.error_code == right.error_code,
        left.error_message == right.error_message,
        left.body is Some == right.body is Some,
        response_reordered(left, right),
{
    let none = Seq::<u8>::empty();
    let (m, n) = (body_part(left), body_part(right));
    let (x, y) = (response_tail(left), response_tail(right));
    lemma_response_parts(left);
    lemma_response_parts(right);
    lemma_split_alike(
        enc_u16(left.status as nat),
        enc_option(m) + x,
        enc_u16(right.status as nat),
        enc_option(n) + y,
    );
    lemma_u16_apart(left.status, right.status);
    lemma_option_apart(m, x, n, y);
    match (left.body, right.body) {
        (Some(one), Some(other)) => {
            lemma_type_apart(one, x, other, y);
        },
        _ => {},
    }
    let a = enc_sorted(enc_headers(left.headers));
    let b = enc_sorted(enc_headers(right.headers));
    lemma_opt_text_apart(
        left.error_code,
        enc_opt_text(left.error_message) + a,
        right.error_code,
        enc_opt_text(right.error_message) + b,
    );
    lemma_opt_text_apart(left.error_message, a, right.error_message, b);
    assert(a + none =~= a);
    assert(b + none =~= b);
    lemma_headers_apart(left.headers, none, right.headers, none);
}

spec fn body_part(response: ResponseView) -> Option<Seq<u8>> {
    match response.body {
        Some(ty) => Some(enc_type(ty)),
        None => None,
    }
}

spec fn response_tail(response: ResponseView) -> Seq<u8> {
    enc_opt_text(response.error_code) + (enc_opt_text(response.error_message) + enc_sorted(
        enc_headers(response.headers),
    ))
}

proof fn lemma_response_parts(response: ResponseView)
    ensures
        enc_response(response) == enc_u16(response.status as nat) + (enc_option(
            body_part(response),
        ) + response_tail(response)),
{
    let a = enc_u16(response.status as nat);
    let b = enc_option(body_part(response));
    let c = enc_opt_text(response.error_code);
    let d = enc_opt_text(response.error_message);
    let e = enc_sorted(enc_headers(response.headers));
    assert(enc_response(response) == a + b + c + d + e);
    lemma_join(a + b + c, d, e);
    lemma_join(a + b, c, d + e);
    lemma_join(a, b, c + (d + e));
}

proof fn lemma_u16_apart(left: u16, right: u16)
    requires
        enc_u16(left as nat) == enc_u16(right as nat),
    ensures
        left == right,
{
    let a = enc_u16(left as nat);
    let b = enc_u16(right as nat);
    assert(a[0] == b[0] && a[1] == b[1]);
    assert(left as nat == (left as nat / 256 % 256) * 256 + left as nat % 256);
    assert(right as nat == (right as nat / 256 % 256) * 256 + right as nat % 256);
}

/// Security requirements with the same encoding have the same scheme and the same
/// scopes.
pub proof fn law_requirement_encodings_tell_apart(left: SecurityView, right: SecurityView)
    requires
        enc_requirement(left) == enc_requirement(right),
        enc_requirement(left).len() <= u64::MAX,
    ensures
        left.scheme == right.scheme,
        left.scopes.to_multiset() == right.scopes.to_multiset(),
        requirement_reordered(left, right),
{
    let none = Seq::<u8>::empty();
    let a = enc_sorted(enc_texts(left.scopes));
    let b = enc_sorted(enc_texts(right.scopes));
    lemma_text_apart(left.scheme, a, right.scheme, b);
    assert(a + none =~= a);
    assert(b + none =~= b);
    lemma_texts_apart(left.scopes, none, right.scopes, none);
}

#[verifier::spinoff_prover]
proof fn lemma_list_apart<A>(
    left: Seq<A>,
    r: Seq<u8>,
    right: Seq<A>,
    s: Seq<u8>,
    same: spec_fn(A, A) -> bool,
    encode: spec_fn(A) -> Seq<u8>,
)
    requires
        enc_sorted(left.map_values(encode)) + r == enc_sorted(right.map_values(encode)) + s,
        (enc_sorted(left.map_values(encode)) + r).len() <= u64::MAX,
        forall|a: A, b: A|
            #[trigger] encode(a) == #[trigger] encode(b) && encode(a).len() <= u64::MAX ==> same(
                a,
                b,
            ),
    ensures
        list_reordered(left, right, same),
        r == s,
{
    let a = left.map_values(encode);
    let b = right.map_values(encode);
    law_sorted_encoding_is_read_back(a, r, b, s);
    lemma_sorted_length(a);
    let order = lemma_permutation(a, b);
    assert forall|i: int| 0 <= i < left.len() implies same(
        #[trigger] left[i],
        right[order[i]],
    ) by {
        assert(a[i] == b[order[i]]);
        assert(a[i].len() <= enc_sorted(a).len());
        assert(encode(left[i]) == encode(right[order[i]]));
    }
    assert(permutes(order, left.len()));
}

#[verifier::spinoff_prover]
proof fn lemma_heads_apart(left: ContractView, right: ContractView)
    requires
        canonical_form(left) == canonical_form(right),
        canonical_form(left).len() <= u64::MAX,
    ensures
        left.format_version == right.format_version,
        left.id == right.id,
        left.summary == right.summary,
        after_summary(left) == after_summary(right),
        after_summary(left).len() <= u64::MAX,
{
    let mark = "blazingly.operation-contract"@;
    lemma_canonical_parts(left);
    lemma_canonical_parts(right);
    lemma_text_apart(mark, after_mark(left), mark, after_mark(right));
    lemma_split_alike(
        enc_u16(left.format_version.major as nat),
        after_major(left),
        enc_u16(right.format_version.major as nat),
        after_major(right),
    );
    lemma_u16_apart(left.format_version.major, right.format_version.major);
    lemma_split_alike(
        enc_u16(left.format_version.minor as nat),
        after_version(left),
        enc_u16(right.format_version.minor as nat),
        after_version(right),
    );
    lemma_u16_apart(left.format_version.minor, right.format_version.minor);
    lemma_text_apart(left.id, after_id(left), right.id, after_id(right));
    lemma_text_apart(left.summary, after_summary(left), right.summary, after_summary(right));
}

#[verifier::spinoff_prover]
proof fn lemma_inputs_apart(left: ContractView, right: ContractView)
    requires
        after_summary(left) == after_summary(right),
        after_summary(left).len() <= u64::MAX,
    ensures
        list_reordered(
            left.inputs,
            right.inputs,
            |a: InputView, b: InputView| input_reordered(a, b),
        ),
        after_inputs(left) == after_inputs(right),
        after_inputs(left).len() <= u64::MAX,
{
    let same_input = |a: InputView, b: InputView| input_reordered(a, b);
    let encode_input = |input: InputView| enc_input(input);
    assert forall|a: InputView, b: InputView|
        #[trigger] encode_input(a) == #[trigger] encode_input(b) && encode_input(a).len()
            <= u64::MAX implies same_input(a, b) by {
        law_input_encodings_tell_apart(a, b);
    }
    lemma_list_apart(
        left.inputs,
        after_inputs(left),
        right.inputs,
        after_inputs(right),
        same_input,
        encode_input,
    );
}

#[verifier::spinoff_prover]
proof fn lemma_requirements_apart(left: ContractView, right: ContractView)
    requires
        after_inputs(left) == after_inputs(right),
        after_inputs(left).len() <= u64::MAX,
    ensures
        left.dependencies.to_multiset() == right.dependencies.to_multiset(),
        list_reordered(
            left.security,
            right.security,
            |a: SecurityView, b: SecurityView| requirement_reordered(a, b),
        ),
        after_security(left) == after_security(right),
        after_security(left).len() <= u64::MAX,
{
    lemma_texts_apart(
        left.dependencies,
        after_dependencies(left),
        right.dependencies,
        after_dependencies(right),
    );
    let same_requirement = |a: SecurityView, b: SecurityView| requirement_reordered(a, b);
    let encode_requirement = |requirement: SecurityView| enc_requirement(requirement);
    assert forall|a: SecurityView, b: SecurityView|
        #[trigger] encode_requirement(a) == #[trigger] encode_requirement(b) && encode_requirement(
            a,
        ).len() <= u64::MAX implies same_requirement(a, b) by {
        law_requirement_encodings_tell_apart(a, b);
    }
    lemma_list_apart(
        left.security,
        after_security(left),
        right.security,
        after_security(right),
        same_requirement,
        encode_requirement,
    );
}

#[verifier::spinoff_prover]
proof fn lemma_responses_apart(left: ContractView, right: ContractView)
    requires
        after_security(left) == after_security(right),
        after_security(left).len() <= u64::MAX,
    ensures
        list_reordered(
            left.responses,
            right.responses,
            |a: ResponseView, b: ResponseView| response_reordered(a, b),
        ),
        after_agent(left) == after_agent(right),
        after_agent(left).len() <= u64::MAX,
{
    let same_response = |a: ResponseView, b: ResponseView| response_reordered(a, b);
    let encode_response = |response: ResponseView| enc_response(response);
    assert forall|a: ResponseView, b: ResponseView|
        #[trigger] encode_response(a) == #[trigger] encode_response(b) && encode_response(a).len()
            <= u64::MAX implies same_response(a, b) by {
        law_response_encodings_tell_apart(a, b);
    }
    lemma_list_apart(
        left.responses,
        after_agent(left),
        right.responses,
        after_agent(right),
        same_response,
        encode_response,
    );
}

/// The canonical form tells contracts apart: contracts with the same canonical
/// bytes differ at most in declaration order, in the ASCII case of header names,
/// and in the deprecated single-body view. This is the converse of
/// [`law_canonical_form_ignores_declaration_order`]. The bytes of a contract are
/// held in memory, so their number fits a length prefix.
#[verifier::spinoff_prover]
pub proof fn law_canonical_form_tells_contracts_apart(left: ContractView, right: ContractView)
    requires
        canonical_form(left) == canonical_form(right),
        canonical_form(left).len() <= u64::MAX,
    ensures
        contract_reordered(left, right),
{
    lemma_heads_apart(left, right);
    lemma_inputs_apart(left, right);
    lemma_requirements_apart(left, right);
    lemma_responses_apart(left, right);
    lemma_policy_parts(left.agent);
    lemma_policy_parts(right.agent);
    lemma_split_alike(
        enc_policy(left.agent),
        enc_mcp(left.mcp),
        enc_policy(right.agent),
        enc_mcp(right.mcp),
    );
    law_policy_encodings_tell_apart(left.agent, right.agent);
    law_tool_encodings_tell_apart(left.mcp, right.mcp);
}

spec fn after_agent(c: ContractView) -> Seq<u8> {
    enc_policy(c.agent) + enc_mcp(c.mcp)
}

spec fn after_security(c: ContractView) -> Seq<u8> {
    enc_sorted(enc_responses(c.responses)) + after_agent(c)
}

spec fn after_dependencies(c: ContractView) -> Seq<u8> {
    enc_sorted(enc_requirements(c.security)) + after_security(c)
}

spec fn after_inputs(c: ContractView) -> Seq<u8> {
    enc_sorted(enc_texts(c.dependencies)) + after_dependencies(c)
}

spec fn after_summary(c: ContractView) -> Seq<u8> {
    enc_sorted(enc_inputs(c.inputs)) + after_inputs(c)
}

spec fn after_id(c: ContractView) -> Seq<u8> {
    enc_text(c.summary) + after_summary(c)
}

spec fn after_version(c: ContractView) -> Seq<u8> {
    enc_text(c.id) + after_id(c)
}

spec fn after_major(c: ContractView) -> Seq<u8> {
    enc_u16(c.format_version.minor as nat) + after_version(c)
}

spec fn after_mark(c: ContractView) -> Seq<u8> {
    enc_u16(c.format_version.major as nat) + after_major(c)
}

proof fn lemma_canonical_parts(c: ContractView)
    ensures
        canonical_form(c) == enc_text("blazingly.operation-contract"@) + after_mark(c),
{
    let a = enc_text("blazingly.operation-contract"@);
    let b = a + enc_u16(c.format_version.major as nat);
    let d = b + enc_u16(c.format_version.minor as nat);
    let e = d + enc_text(c.id);
    let f = e + enc_text(c.summary);
    let g = f + enc_sorted(enc_inputs(c.inputs));
    let h = g + enc_sorted(enc_texts(c.dependencies));
    let i = h + enc_sorted(enc_requirements(c.security));
    let j = i + enc_sorted(enc_responses(c.responses));
    lemma_join(j, enc_policy(c.agent), enc_mcp(c.mcp));
    lemma_join(i, enc_sorted(enc_responses(c.responses)), after_agent(c));
    lemma_join(h, enc_sorted(enc_requirements(c.security)), after_security(c));
    lemma_join(g, enc_sorted(enc_texts(c.dependencies)), after_dependencies(c));
    lemma_join(f, enc_sorted(enc_inputs(c.inputs)), after_inputs(c));
    lemma_join(e, enc_text(c.summary), after_summary(c));
    lemma_join(d, enc_text(c.id), after_id(c));
    lemma_join(b, enc_u16(c.format_version.minor as nat), after_version(c));
    lemma_join(a, enc_u16(c.format_version.major as nat), after_major(c));
}

/// Agent policies with the same encoding are the same.
pub proof fn law_policy_encodings_tell_apart(left: AgentPolicy, right: AgentPolicy)
    requires
        enc_policy(left) == enc_policy(right),
    ensures
        left.risk == right.risk,
        left.confirmation == right.confirmation,
        left.idempotent == right.idempotent,
        left == right,
{
    lemma_policy_parts(left);
    lemma_policy_parts(right);
}

proof fn lemma_policy_parts(policy: AgentPolicy)
    ensures
        enc_policy(policy).len() == 3,
        enc_policy(policy)[0] == risk_tag_spec(policy.risk),
        enc_policy(policy)[1] == confirmation_tag_spec(policy.confirmation),
        enc_policy(policy)[2] == if policy.idempotent {
            1u8
        } else {
            0u8
        },
{
    let head = seq![risk_tag_spec(policy.risk), confirmation_tag_spec(policy.confirmation)];
    let whole = head + enc_bool(policy.idempotent);
    assert(whole[0] == head[0]);
    assert(whole[1] == head[1]);
    assert(whole[2] == enc_bool(policy.idempotent)[0]);
}

/// MCP tools with the same encoding are the same.
pub proof fn law_tool_encodings_tell_apart(left: Option<McpView>, right: Option<McpView>)
    requires
        enc_mcp(left) == enc_mcp(right),
        enc_mcp(left).len() <= u64::MAX,
    ensures
        left == right,
{
    assert(enc_mcp(left)[0] == enc_mcp(right)[0]);
    match (left, right) {
        (Some(x), Some(y)) => {
            let a = seq![exposure_tag_spec(x.expose_output)];
            let b = seq![exposure_tag_spec(y.expose_output)];
            assert(enc_mcp(left) =~= seq![1u8] + (enc_text(x.name) + (enc_text(x.description)
                + a)));
            assert(enc_mcp(right) =~= seq![1u8] + (enc_text(y.name) + (enc_text(y.description)
                + b)));
            lemma_split_alike(
                seq![1u8],
                enc_text(x.name) + (enc_text(x.description) + a),
                seq![1u8],
                enc_text(y.name) + (enc_text(y.description) + b),
            );
            lemma_text_apart(
                x.name,
                enc_text(x.description) + a,
                y.name,
                enc_text(y.description) + b,
            );
            lemma_text_apart(x.description, a, y.description, b);
            assert(a[0] == b[0]);
        },
        _ => {},
    }
}

/// What a hexadecimal digit stands for.
pub open spec fn hex_value(digit: char) -> int {
    if '0' <= digit <= '9' {
        digit as int - '0' as int
    } else {
        digit as int - 'a' as int + 10
    }
}

/// Bytes are written as two hexadecimal digits each, the high one first, with small
/// letters; they can be read off again.
pub proof fn law_hexadecimals_stand_for_their_bytes(bytes: Seq<u8>)
    ensures
        hex_of(bytes).len() == 2 * bytes.len(),
        forall|i: int|
            0 <= i < bytes.len() ==> 16 * hex_value(hex_of(bytes)[2 * i]) + hex_value(
                hex_of(bytes)[2 * i + 1],
            ) == #[trigger] bytes[i],
        forall|i: int|
            0 <= i < hex_of(bytes).len() ==> '0' <= #[trigger] hex_of(bytes)[i] <= '9' || 'a'
                <= hex_of(bytes)[i] <= 'f',
    decreases bytes.len(),
{
    if bytes.len() > 0 {
        let before = bytes.drop_last();
        law_hexadecimals_stand_for_their_bytes(before);
        let last = bytes.last() as int;
        assert(last == 16 * (last / 16) + last % 16);
        assert(0 <= last / 16 < 16 && 0 <= last % 16 < 16);
        assert forall|i: int| 0 <= i < bytes.len() implies 16 * hex_value(hex_of(bytes)[2 * i])
            + hex_value(hex_of(bytes)[2 * i + 1]) == #[trigger] bytes[i] by {
            if i < before.len() {
                assert(before[i] == bytes[i]);
                assert(hex_of(bytes)[2 * i] == hex_of(before)[2 * i]);
                assert(hex_of(bytes)[2 * i + 1] == hex_of(before)[2 * i + 1]);
            }
        }
        assert forall|i: int| 0 <= i < hex_of(bytes).len() implies '0' <= #[trigger] hex_of(bytes)[i]
            <= '9' || 'a' <= hex_of(bytes)[i] <= 'f' by {
            if i < hex_of(before).len() {
                assert(hex_of(bytes)[i] == hex_of(before)[i]);
            }
        }
    }
}

/// Sources, risks, confirmations and exposures are numbered in the order in which
/// they are declared.
pub proof fn law_tags_are_places(
    source: InputSource,
    risk: OperationRisk,
    confirmation: Confirmation,
    exposure: OutputExposure,
)
    ensures
        seq![
            InputSource::Path,
            InputSource::Query,
            InputSource::Header,
            InputSource::Cookie,
            InputSource::Json,
            InputSource::Form,
            InputSource::Multipart,
            InputSource::File,
            InputSource::Stream,
        ][source_tag(source) as int] == source,
        seq![OperationRisk::Read, OperationRisk::Write, OperationRisk::Destructive][risk_tag_spec(
            risk,
        ) as int] == risk,
        seq![Confirmation::Never, Confirmation::Required][confirmation_tag_spec(confirmation) as int]
            == confirmation,
        seq![OutputExposure::Full, OutputExposure::SummaryOnly, OutputExposure::Hidden][exposure_tag_spec(
            exposure,
        ) as int] == exposure,
{
}

} // verus!
