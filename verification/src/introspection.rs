//! The documents that an application prints about itself.
use crate::application::{method_name, AppDefinition, OperationDescriptor};
use crate::text::eq_text;
use vstd::prelude::*;
use vstd::string::*;

verus! {

/// One line of the operation table.
pub open spec fn route_line(operation: OperationDescriptor) -> Seq<char> {
    method_name(operation.http.method) + "\t"@ + operation.http.path@ + "\t"@
        + operation.contract@.id + "\t"@ + operation.contract@.summary + "\n"@
}

/// The lines of the first so many operations.
pub open spec fn route_lines(operations: Seq<OperationDescriptor>, count: nat) -> Seq<char>
    decreases count,
{
    if count == 0 {
        Seq::empty()
    } else {
        route_lines(operations, (count - 1) as nat) + route_line(operations[count - 1])
    }
}

/// The tab-separated operation table, under its heading.
pub open spec fn routes_table(operations: Seq<OperationDescriptor>) -> Seq<char> {
    "METHOD\tPATH\tOPERATION\tSUMMARY\n"@ + route_lines(operations, operations.len())
}

/// The tab-separated operation table of an application.
#[must_use]
pub fn routes_table_text(definition: &AppDefinition) -> (table: String)
    ensures
        table@ == routes_table(definition.spec_operations()),
{
    let operations = definition.operations();
    let mut table = "METHOD\tPATH\tOPERATION\tSUMMARY\n".to_owned();
    let ghost heading = table@;
    let mut index: usize = 0;
    assert(heading + Seq::<char>::empty() =~= heading);
    while index < operations.len()
        invariant
            index <= operations@.len(),
            table@ == heading + route_lines(operations@, index as nat),
        decreases operations@.len() - index,
    {
        let operation = &operations[index];
        let ghost before = table@;
        table.append(operation.http.method.as_str());
        table.append("\t");
        table.append(operation.http.path.as_str());
        table.append("\t");
        table.append(operation.contract.id.as_str());
        table.append("\t");
        table.append(operation.contract.summary.as_str());
        table.append("\n");
        proof {
            assert(table@ =~= before + route_line(*operation));
            assert(before + route_line(*operation) =~= heading + (route_lines(
                operations@,
                index as nat,
            ) + route_line(*operation)));
        }
        index += 1;
    }
    table
}

/// What an application is asked to print instead of serving.
#[derive(Clone, Copy, Debug, PartialEq, Eq)]
pub enum Emission {
    /// Nothing: it serves.
    Nothing,
    /// The published description of its operations.
    OpenApi,
    /// The operation table.
    Routes,
    /// Something that it does not know: it ends with exit code 2.
    Unknown,
}

/// What a requested mode asks for. An empty mode asks for nothing.
pub open spec fn emission_asked(mode: Seq<char>) -> Emission {
    if mode.len() == 0 {
        Emission::Nothing
    } else if mode == "openapi"@ {
        Emission::OpenApi
    } else if mode == "routes"@ {
        Emission::Routes
    } else {
        Emission::Unknown
    }
}

impl Emission {
    /// What a requested mode asks for.
    #[must_use]
    pub fn requested(mode: &str) -> (emission: Self)
        ensures
            emission == emission_asked(mode@),
    {
        if crate::text::chars_of(mode).len() == 0 {
            Emission::Nothing
        } else if eq_text(mode, "openapi") {
            Emission::OpenApi
        } else if eq_text(mode, "routes") {
            Emission::Routes
        } else {
            Emission::Unknown
        }
    }
}

/// The table has one line for every operation, in order: its method, its path, its
/// identifier and its summary between tabs.
pub proof fn law_every_operation_has_its_line(
    operations: Seq<OperationDescriptor>,
    operation: OperationDescriptor,
)
    ensures
        routes_table(operations.push(operation)) == routes_table(operations) + method_name(
            operation.http.method,
        ) + "\t"@ + operation.http.path@ + "\t"@ + operation.contract@.id + "\t"@
            + operation.contract@.summary + "\n"@,
        routes_table(Seq::empty()) == "METHOD\tPATH\tOPERATION\tSUMMARY\n"@,
{
    let more = operations.push(operation);
    lemma_same_lines(more, operations, operations.len());
    assert(routes_table(more) =~= routes_table(operations) + route_line(operation));
    assert(routes_table(operations) + route_line(operation) =~= routes_table(operations)
        + method_name(operation.http.method) + "\t"@ + operation.http.path@ + "\t"@
        + operation.contract@.id + "\t"@ + operation.contract@.summary + "\n"@);
    assert(routes_table(Seq::empty()) =~= "METHOD\tPATH\tOPERATION\tSUMMARY\n"@);
}

proof fn lemma_same_lines(
    more: Seq<OperationDescriptor>,
    operations: Seq<OperationDescriptor>,
    count: nat,
)
    requires
        count <= operations.len() <= more.len(),
        forall|i: int| 0 <= i < operations.len() ==> #[trigger] more[i] == operations[i],
    ensures
        route_lines(more, count) == route_lines(operations, count),
    decreases count,
{
    if count > 0 {
        lemma_same_lines(more, operations, (count - 1) as nat);
    }
}

/// Nothing is emitted where nothing is asked for, and each known mode has its own
/// document; every other mode is unknown.
pub proof fn law_modes_ask_for_their_document(mode: Seq<char>)
    ensures
        emission_asked(mode) is Nothing <==> mode.len() == 0,
        emission_asked(mode) is OpenApi <==> mode == "openapi"@,
        emission_asked(mode) is Routes <==> mode == "routes"@,
{
    reveal_strlit("openapi");
    reveal_strlit("routes");
    assert("openapi"@.len() == 7 && "routes"@.len() == 6);
}

} // verus!
