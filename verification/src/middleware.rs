//! Which requests a middleware layer observes.
use crate::text::{chars_of, eq_text, split_spec, string_from, TextView};
use vstd::prelude::*;
use vstd::string::*;

verus! {

/// An operation id predicate that an application supplies.
pub trait OperationFilter {
    /// Whether the filter accepts an operation id.
    spec fn accepts(&self, operation_id: TextView) -> bool;

    fn test(&self, operation_id: &str) -> (accepted: bool)
        ensures
            accepted == self.accepts(operation_id@),
    ;
}

/// The filter of scopes that use none: it accepts nothing.
#[derive(Clone, Copy, Debug, PartialEq, Eq)]
pub struct NoFilter;

impl OperationFilter for NoFilter {
    open spec fn accepts(&self, operation_id: Seq<char>) -> bool {
        false
    }

    fn test(&self, operation_id: &str) -> (accepted: bool) {
        false
    }
}

/// One way in which a scope selects operations.
#[derive(Clone, Debug)]
pub enum OperationPredicate<F> {
    Exact(String),
    Prefix(String),
    Filter(F),
}

/// One text starts with another.
pub open spec fn starts_with(text: Seq<char>, prefix: Seq<char>) -> bool {
    prefix.len() <= text.len() && text.take(prefix.len() as int) == prefix
}

/// A predicate selects an operation.
pub open spec fn selects<F: OperationFilter>(
    predicate: OperationPredicate<F>,
    operation_id: Seq<char>,
) -> bool {
    match predicate {
        OperationPredicate::Exact(expected) => operation_id == expected@,
        OperationPredicate::Prefix(prefix) => starts_with(operation_id, prefix@),
        OperationPredicate::Filter(filter) => filter.accepts(operation_id),
    }
}

pub(crate) fn text_starts_with(text: &str, prefix: &str) -> (starts: bool)
    ensures
        starts == starts_with(text@, prefix@),
{
    let whole = chars_of(text);
    let start = chars_of(prefix);
    if start.len() > whole.len() {
        return false;
    }
    let mut index: usize = 0;
    while index < start.len()
        invariant
            whole@ == text@,
            start@ == prefix@,
            index <= start@.len() <= whole@.len(),
            forall|i: int| 0 <= i < index ==> #[trigger] whole@[i] == start@[i],
        decreases start@.len() - index,
    {
        if whole[index] != start[index] {
            proof {
                assert(text@.take(prefix@.len() as int)[index as int] != prefix@[index as int]);
            }
            return false;
        }
        index += 1;
    }
    assert(text@.take(prefix@.len() as int) =~= prefix@);
    true
}

impl<F: OperationFilter> OperationPredicate<F> {
    fn matches(&self, operation_id: &str) -> (selected: bool)
        ensures
            selected == selects(*self, operation_id@),
    {
        match self {
            OperationPredicate::Exact(expected) => eq_text(operation_id, expected.as_str()),
            OperationPredicate::Prefix(prefix) => text_starts_with(operation_id, prefix.as_str()),
            OperationPredicate::Filter(filter) => filter.test(operation_id),
        }
    }
}

/// A text without the slashes at its end.
pub open spec fn without_slashes(text: Seq<char>) -> Seq<char>
    decreases text.len(),
{
    if text.len() > 0 && text.last() == '/' {
        without_slashes(text.drop_last())
    } else {
        text
    }
}

/// A path prefix as it is matched: with a slash at its start, none at its end,
/// and empty where it constrains nothing.
pub open spec fn normalized(prefix: Seq<char>) -> Seq<char> {
    let trimmed = without_slashes(prefix);
    if trimmed.len() == 0 {
        Seq::empty()
    } else if trimmed[0] == '/' {
        trimmed
    } else {
        seq!['/'] + trimmed
    }
}

/// A path lies under a prefix, on a segment boundary.
pub open spec fn lies_under(path: Seq<char>, prefix: Seq<char>) -> bool {
    &&& starts_with(path, prefix)
    &&& path.len() == prefix.len() || path[prefix.len() as int] == '/'
}

fn normalize_prefix(prefix: &str) -> (kept: String)
    ensures
        kept@ == normalized(prefix@),
{
    let mut trimmed = chars_of(prefix);
    while trimmed.len() > 0 && trimmed[trimmed.len() - 1] == '/'
        invariant
            without_slashes(trimmed@) == without_slashes(prefix@),
        decreases trimmed@.len(),
    {
        let ghost before = trimmed@;
        let dropped = trimmed.pop();
        assert(trimmed@ =~= before.drop_last());
    }
    if trimmed.len() == 0 {
        let kept = string_from(trimmed.as_slice());
        assert(kept@ =~= Seq::empty());
        kept
    } else if trimmed[0] == '/' {
        string_from(trimmed.as_slice())
    } else {
        let mut kept = "/".to_owned();
        kept.append(string_from(trimmed.as_slice()).as_str());
        proof {
            reveal_strlit("/");
            assert("/"@ =~= seq!['/']);
        }
        kept
    }
}

fn path_has_prefix(path: &str, prefix: &str) -> (under: bool)
    ensures
        under == lies_under(path@, prefix@),
{
    if !text_starts_with(path, prefix) {
        return false;
    }
    let whole = chars_of(path);
    let start = chars_of(prefix);
    whole.len() == start.len() || whole[start.len()] == '/'
}

/// Selects the requests one registered middleware layer observes.
///
/// An empty scope matches every request. Path prefixes and operation
/// predicates combine as `AND` between the two categories and `OR` inside one.
#[derive(Clone, Debug)]
pub struct MiddlewareScope<F> {
    pub prefixes: Vec<String>,
    pub operations: Vec<OperationPredicate<F>>,
}

/// A scope accepts a path.
pub open spec fn path_selected<F>(scope: MiddlewareScope<F>, path: Seq<char>) -> bool {
    ||| scope.prefixes@.len() == 0
    ||| exists|i: int|
        0 <= i < scope.prefixes@.len() && lies_under(path, (#[trigger] scope.prefixes@[i])@)
}

/// A scope accepts an operation.
pub open spec fn operation_selected<F: OperationFilter>(
    scope: MiddlewareScope<F>,
    operation_id: Seq<char>,
) -> bool {
    ||| scope.operations@.len() == 0
    ||| exists|i: int|
        0 <= i < scope.operations@.len() && selects(
            #[trigger] scope.operations@[i],
            operation_id,
        )
}

/// A scope that constrains nothing.
pub open spec fn unconstrained<F>(scope: MiddlewareScope<F>) -> bool {
    scope.prefixes@.len() == 0 && scope.operations@.len() == 0
}

impl<F: OperationFilter> Default for MiddlewareScope<F> {
    fn default() -> (scope: Self)
        ensures
            unconstrained(scope),
    {
        MiddlewareScope::all()
    }
}

impl<F: OperationFilter> MiddlewareScope<F> {
    /// A scope that constrains nothing.
    #[must_use]
    pub fn all() -> (scope: Self)
        ensures
            unconstrained(scope),
    {
        MiddlewareScope { prefixes: Vec::new(), operations: Vec::new() }
    }

    /// A scope limited to one path prefix.
    #[must_use]
    pub fn prefix(prefix: &str) -> (scope: Self)
        ensures
            scope.prefixes@.len() == 1,
            scope.prefixes@[0]@ == normalized(prefix@),
            scope.operations@.len() == 0,
    {
        MiddlewareScope::all().with_prefix(prefix)
    }

    /// A scope limited to one operation id.
    #[must_use]
    pub fn operation(operation_id: &str) -> (scope: Self)
        ensures
            scope.prefixes@.len() == 0,
            scope.operations@.len() == 1,
            scope.operations@[0] matches OperationPredicate::Exact(expected) && expected@
                == operation_id@,
    {
        MiddlewareScope::all().with_operation(operation_id)
    }

    /// Adds an accepted path prefix, matched on segment boundaries.
    #[must_use]
    pub fn with_prefix(self, prefix: &str) -> (scope: Self)
        ensures
            scope.operations == self.operations,
            scope.prefixes@.len() == self.prefixes@.len() + 1,
            scope.prefixes@.drop_last() == self.prefixes@,
            scope.prefixes@.last()@ == normalized(prefix@),
    {
        let mut updated = self;
        updated.prefixes.push(normalize_prefix(prefix));
        assert(updated.prefixes@.drop_last() =~= self.prefixes@);
        updated
    }

    /// Adds one accepted operation id.
    #[must_use]
    pub fn with_operation(self, operation_id: &str) -> (scope: Self)
        ensures
            scope.prefixes == self.prefixes,
            scope.operations@.len() == self.operations@.len() + 1,
            scope.operations@.drop_last() == self.operations@,
            scope.operations@.last() matches OperationPredicate::Exact(expected) && expected@
                == operation_id@,
    {
        let mut updated = self;
        updated.operations.push(OperationPredicate::Exact(operation_id.to_owned()));
        assert(updated.operations@.drop_last() =~= self.operations@);
        updated
    }

    /// Adds an accepted operation id prefix.
    #[must_use]
    pub fn with_operation_prefix(self, prefix: &str) -> (scope: Self)
        ensures
            scope.prefixes == self.prefixes,
            scope.operations@.len() == self.operations@.len() + 1,
            scope.operations@.drop_last() == self.operations@,
            scope.operations@.last() matches OperationPredicate::Prefix(expected) && expected@
                == prefix@,
    {
        let mut updated = self;
        updated.operations.push(OperationPredicate::Prefix(prefix.to_owned()));
        assert(updated.operations@.drop_last() =~= self.operations@);
        updated
    }

    /// Adds an operation id predicate for a selection the other constraints
    /// cannot express.
    #[must_use]
    pub fn with_operation_filter(self, filter: F) -> (scope: Self)
        ensures
            scope.prefixes == self.prefixes,
            scope.operations@ == self.operations@.push(OperationPredicate::Filter(filter)),
    {
        let mut updated = self;
        updated.operations.push(OperationPredicate::Filter(filter));
        updated
    }

    /// Returns whether this scope constrains nothing.
    #[must_use]
    pub fn is_global(&self) -> (global: bool)
        ensures
            global == unconstrained(*self),
    {
        self.prefixes.len() == 0 && self.operations.len() == 0
    }

    /// Matches before routing, when only the request path is known.
    #[must_use]
    pub fn matches_request(&self, path: &str) -> (matches: bool)
        ensures
            matches == (self.operations@.len() == 0 && path_selected(*self, path@)),
    {
        self.operations.len() == 0 && self.matches_path(path)
    }

    /// Matches after routing, when the selected operation is known.
    #[must_use]
    pub fn matches_operation(&self, path: &str, operation_id: &str) -> (matches: bool)
        ensures
            matches == (path_selected(*self, path@) && operation_selected(*self, operation_id@)),
    {
        if !self.matches_path(path) {
            return false;
        }
        if self.operations.len() == 0 {
            return true;
        }
        let mut index: usize = 0;
        while index < self.operations.len()
            invariant
                index <= self.operations@.len(),
                self.operations@.len() > 0,
                path_selected(*self, path@),
                forall|i: int|
                    0 <= i < index ==> !selects(#[trigger] self.operations@[i], operation_id@),
            decreases self.operations@.len() - index,
        {
            if self.operations[index].matches(operation_id) {
                return true;
            }
            index += 1;
        }
        false
    }

    fn matches_path(&self, path: &str) -> (matches: bool)
        ensures
            matches == path_selected(*self, path@),
    {
        if self.prefixes.len() == 0 {
            return true;
        }
        let mut index: usize = 0;
        while index < self.prefixes.len()
            invariant
                index <= self.prefixes@.len(),
                self.prefixes@.len() > 0,
                forall|i: int|
                    0 <= i < index ==> !lies_under(path@, (#[trigger] self.prefixes@[i])@),
            decreases self.prefixes@.len() - index,
        {
            if path_has_prefix(path, self.prefixes[index].as_str()) {
                return true;
            }
            index += 1;
        }
        false
    }

    /// Matches a request by its path, and by its operation once that is known.
    #[must_use]
    pub fn matches(&self, path: &str, operation_id: Option<&str>) -> (matches: bool)
        ensures
            matches == observes(*self, path@, match operation_id {
                Some(operation_id) => Some(operation_id@),
                None => None,
            }),
    {
        match operation_id {
            None => self.matches_request(path),
            Some(operation_id) => self.matches_operation(path, operation_id),
        }
    }
}

/// A layer with this scope observes a request. Before routing, a scope that
/// selects operations observes nothing.
pub open spec fn observes<F: OperationFilter>(
    scope: MiddlewareScope<F>,
    path: Seq<char>,
    operation_id: Option<Seq<char>>,
) -> bool {
    match operation_id {
        None => scope.operations@.len() == 0 && path_selected(scope, path),
        Some(operation_id) => path_selected(scope, path) && operation_selected(
            scope,
            operation_id,
        ),
    }
}

proof fn lemma_split_at(head: Seq<char>, tail: Seq<char>)
    ensures
        split_spec(head.push('/') + tail, '/') == split_spec(head, '/') + split_spec(tail, '/'),
    decreases tail.len(),
{
    let whole = head.push('/') + tail;
    if tail.len() == 0 {
        assert(whole.drop_last() =~= head);
        assert(tail =~= Seq::empty());
        assert(split_spec(head, '/').push(Seq::empty()) =~= split_spec(head, '/') + seq![
            Seq::<char>::empty(),
        ]);
    } else {
        assert(whole.drop_last() =~= head.push('/') + tail.drop_last());
        lemma_split_at(head, tail.drop_last());
        lemma_split_some(tail.drop_last());
        let before = split_spec(head, '/');
        let inner = split_spec(tail.drop_last(), '/');
        let all = before + inner;
        if tail.last() == '/' {
            assert(all.push(Seq::empty()) =~= before + inner.push(Seq::empty()));
        } else {
            assert(all.drop_last().push(all.last().push(tail.last())) =~= before
                + inner.drop_last().push(inner.last().push(tail.last())));
        }
    }
}

proof fn lemma_split_some(text: Seq<char>)
    ensures
        split_spec(text, '/').len() >= 1,
    decreases text.len(),
{
    if text.len() > 0 {
        lemma_split_some(text.drop_last());
    }
}

/// A path prefix matches only whole segments: the segments of the prefix are
/// the first segments of the path.
pub proof fn law_prefixes_match_whole_segments(path: Seq<char>, prefix: Seq<char>)
    requires
        lies_under(path, prefix),
    ensures
        split_spec(prefix, '/').len() <= split_spec(path, '/').len(),
        split_spec(path, '/').take(split_spec(prefix, '/').len() as int) == split_spec(prefix, '/'),
{
    if path.len() == prefix.len() {
        assert(path.take(prefix.len() as int) =~= path);
        assert(split_spec(path, '/').take(split_spec(prefix, '/').len() as int) =~= split_spec(
            prefix,
            '/',
        ));
    } else {
        let tail = path.skip(prefix.len() as int + 1);
        assert(path =~= prefix.push('/') + tail);
        lemma_split_at(prefix, tail);
        assert((split_spec(prefix, '/') + split_spec(tail, '/')).take(
            split_spec(prefix, '/').len() as int,
        ) =~= split_spec(prefix, '/'));
    }
}

/// A scope that selects operations observes nothing before routing, and one
/// that constrains nothing observes everything.
pub proof fn law_scopes_combine<F: OperationFilter>(
    scope: MiddlewareScope<F>,
    path: Seq<char>,
    operation_id: Seq<char>,
)
    ensures
        scope.operations@.len() > 0 ==> !observes(scope, path, None),
        unconstrained(scope) ==> observes(scope, path, None) && observes(
            scope,
            path,
            Some(operation_id),
        ),
        observes(scope, path, None) ==> observes(scope, path, Some(operation_id)),
{
}

/// A path lies under a prefix if and only if it is the prefix, or continues it
/// behind a slash.
pub proof fn law_paths_lie_under_their_prefix(path: Seq<char>, prefix: Seq<char>)
    ensures
        lies_under(path, prefix) <==> path == prefix || exists|tail: Seq<char>|
            path == #[trigger] (prefix.push('/') + tail),
{
    if lies_under(path, prefix) {
        if path.len() == prefix.len() {
            assert(path.take(prefix.len() as int) =~= path);
        } else {
            let tail = path.skip(prefix.len() as int + 1);
            assert(path =~= prefix.push('/') + tail);
        }
    }
    if path == prefix {
        assert(path.take(prefix.len() as int) =~= prefix);
    }
    if exists|tail: Seq<char>| path == #[trigger] (prefix.push('/') + tail) {
        let tail = choose|tail: Seq<char>| path == #[trigger] (prefix.push('/') + tail);
        assert(path.take(prefix.len() as int) =~= prefix);
        assert(path[prefix.len() as int] == '/');
    }
}

/// A prefix is matched without the slashes at its end and with one at its start:
/// it makes no difference how many slashes it ends with, or whether it begins with
/// one, and a prefix of slashes alone constrains nothing.
pub proof fn law_prefixes_are_normalized(prefix: Seq<char>, path: Seq<char>)
    ensures
        normalized(prefix.push('/')) == normalized(prefix),
        normalized(normalized(prefix)) == normalized(prefix),
        normalized(prefix).len() > 0 ==> normalized(prefix)[0] == '/' && normalized(prefix).last()
            != '/',
        prefix.len() > 0 && prefix[0] != '/' ==> normalized(seq!['/'] + prefix) == normalized(
            prefix,
        ),
        normalized(prefix).len() == 0 <==> forall|i: int|
            0 <= i < prefix.len() ==> #[trigger] prefix[i] == '/',
        normalized(prefix).len() == 0 && path.len() > 0 && path[0] == '/' ==> lies_under(
            path,
            normalized(prefix),
        ),
        prefix.len() > 0 && prefix[0] == '/' && prefix.last() != '/' ==> normalized(prefix)
            == prefix,
{
    assert(prefix.push('/').drop_last() =~= prefix);
    lemma_slashes(prefix);
    let trimmed = without_slashes(prefix);
    let kept = normalized(prefix);
    if trimmed.len() > 0 {
        assert(kept.last() == trimmed.last());
        assert(without_slashes(kept) == kept);
    }
    if prefix.len() > 0 && prefix[0] != '/' {
        lemma_leading_slash(prefix);
        let slashed = seq!['/'] + prefix;
        assert((seq!['/'] + trimmed)[0] == '/');
    }
    assert(path.take(0) =~= Seq::<char>::empty());
}

proof fn lemma_slashes(text: Seq<char>)
    ensures
        without_slashes(text).len() > 0 ==> without_slashes(text).last() != '/',
        without_slashes(text).len() <= text.len(),
        without_slashes(text) == text.take(without_slashes(text).len() as int),
        without_slashes(text).len() == 0 <==> forall|i: int|
            0 <= i < text.len() ==> #[trigger] text[i] == '/',
    decreases text.len(),
{
    if text.len() > 0 && text.last() == '/' {
        let shorter = text.drop_last();
        lemma_slashes(shorter);
        let kept = without_slashes(shorter);
        assert(shorter.take(kept.len() as int) =~= text.take(kept.len() as int));
        if kept.len() == 0 {
            assert forall|i: int| 0 <= i < text.len() implies #[trigger] text[i] == '/' by {
                if i < shorter.len() {
                    assert(shorter[i] == '/');
                }
            }
        } else {
            let i = choose|i: int| 0 <= i < shorter.len() && #[trigger] shorter[i] != '/';
            assert(text[i] != '/');
        }
    } else {
        assert(text.take(text.len() as int) =~= text);
        if text.len() > 0 {
            assert(text[text.len() - 1] != '/');
        }
    }
}

proof fn lemma_leading_slash(text: Seq<char>)
    requires
        text.len() > 0,
        text[0] != '/',
    ensures
        without_slashes(seq!['/'] + text) == seq!['/'] + without_slashes(text),
        without_slashes(text).len() > 0,
        without_slashes(text)[0] == text[0],
    decreases text.len(),
{
    let slashed = seq!['/'] + text;
    assert(slashed.last() == text.last());
    if text.last() == '/' {
        let shorter = text.drop_last();
        assert(shorter[0] == text[0]);
        lemma_leading_slash(shorter);
        assert(slashed.drop_last() =~= seq!['/'] + shorter);
    }
}

/// A scope observes an operation if and only if the path lies under one of its
/// prefixes, or it has none, and the operation is one that it names, begins with
/// one of its operation prefixes or passes one of its filters, or it selects none.
pub proof fn law_scopes_select_paths_and_operations<F: OperationFilter>(
    scope: MiddlewareScope<F>,
    path: Seq<char>,
    operation_id: Seq<char>,
)
    ensures
        observes(scope, path, Some(operation_id)) <==> {
            &&& scope.prefixes@.len() == 0 || exists|i: int|
                0 <= i < scope.prefixes@.len() && lies_under(path, (#[trigger] scope.prefixes@[i])@)
            &&& scope.operations@.len() == 0 || exists|i: int|
                0 <= i < scope.operations@.len() && (match #[trigger] scope.operations@[i] {
                    OperationPredicate::Exact(id) => operation_id == id@,
                    OperationPredicate::Prefix(start) => exists|tail: Seq<char>|
                        operation_id == #[trigger] (start@ + tail),
                    OperationPredicate::Filter(filter) => filter.accepts(operation_id),
                })
        },
        observes(scope, path, None) <==> scope.operations@.len() == 0 && (scope.prefixes@.len() == 0
            || exists|i: int|
            0 <= i < scope.prefixes@.len() && lies_under(path, (#[trigger] scope.prefixes@[i])@)),
{
    assert forall|i: int| 0 <= i < scope.operations@.len() implies selects(
        #[trigger] scope.operations@[i],
        operation_id,
    ) == (match scope.operations@[i] {
        OperationPredicate::Exact(id) => operation_id == id@,
        OperationPredicate::Prefix(start) => exists|tail: Seq<char>|
            operation_id == #[trigger] (start@ + tail),
        OperationPredicate::Filter(filter) => filter.accepts(operation_id),
    }) by {
        match scope.operations@[i] {
            OperationPredicate::Prefix(start) => {
                if starts_with(operation_id, start@) {
                    let tail = operation_id.skip(start@.len() as int);
                    assert(operation_id =~= start@ + tail);
                }
                if exists|tail: Seq<char>| operation_id == #[trigger] (start@ + tail) {
                    let tail = choose|tail: Seq<char>| operation_id == #[trigger] (start@ + tail);
                    assert(operation_id.take(start@.len() as int) =~= start@);
                }
            },
            _ => {},
        }
    }
}

} // verus!
