//! A runtime-neutral router compiled once from the operation graph.
use crate::application::{
    method_rank, AppDefinition, HttpMethod, OperationDescriptor,
};
use crate::operation::{inputs_view, texts, InputSource, InputView};
use crate::text::{
    char_lists, chars_of, eq_chars, eq_text, joined_by, law_joined_texts_are_split_again,
    split_chars, split_spec, string_from,
};
use crate::url::{decode_url_component, decoded};
use vstd::prelude::*;
use vstd::string::*;

verus! {

// ---------------------------------------------------------------------------
// Patterns
// ---------------------------------------------------------------------------

/// One segment of a route: a fixed text, or a parameter.
pub enum Segment {
    Fixed(Seq<char>),
    Parameter,
}

/// A path without its leading slash.
pub open spec fn without_slash(path: Seq<char>) -> Seq<char> {
    if path.len() > 0 && path[0] == '/' {
        path.drop_first()
    } else {
        path
    }
}

/// The segments of a path.
pub open spec fn path_segments(path: Seq<char>) -> Seq<Seq<char>> {
    split_spec(without_slash(path), '/')
}

/// A segment of the form `{name}` is a parameter with that name.
pub open spec fn parameter_name(segment: Seq<char>) -> Option<Seq<char>> {
    if segment.len() > 2 && segment[0] == '{' && segment.last() == '}' {
        Some(segment.subrange(1, segment.len() - 1))
    } else {
        None
    }
}

/// The pattern of a list of route segments.
pub open spec fn pattern_list(segments: Seq<Seq<char>>) -> Seq<Segment> {
    segments.map_values(
        |segment: Seq<char>|
            if parameter_name(segment) is Some {
                Segment::Parameter
            } else {
                Segment::Fixed(segment)
            },
    )
}

/// The pattern of a route path.
pub open spec fn pattern_of(path: Seq<char>) -> Seq<Segment> {
    pattern_list(path_segments(path))
}

/// The parameter names among a list of segments, in order.
pub open spec fn names_in(segments: Seq<Seq<char>>) -> Seq<Seq<char>>
    decreases segments.len(),
{
    if segments.len() == 0 {
        Seq::empty()
    } else {
        match parameter_name(segments.last()) {
            Some(name) => names_in(segments.drop_last()).push(name),
            None => names_in(segments.drop_last()),
        }
    }
}

/// The parameter names of a route path.
pub open spec fn parameter_names(path: Seq<char>) -> Seq<Seq<char>> {
    names_in(path_segments(path))
}

fn is_parameter(segment: &Vec<char>) -> (found: bool)
    ensures
        found == (parameter_name(segment@) is Some),
{
    segment.len() > 2 && segment[0] == '{' && segment[segment.len() - 1] == '}'
}

fn segments_of(path: &str) -> (segments: Vec<Vec<char>>)
    ensures
        char_lists(segments@) == path_segments(path@),
{
    let characters = chars_of(path);
    let start: usize = if characters.len() > 0 && characters[0] == '/' {
        1
    } else {
        0
    };
    let rest = vstd::slice::slice_subrange(characters.as_slice(), start, characters.len());
    assert(rest@ =~= without_slash(path@));
    split_chars(rest, '/')
}

fn names_of_segments(segments: &Vec<Vec<char>>) -> (names: Vec<String>)
    ensures
        texts(names@) == names_in(char_lists(segments@)),
{
    let ghost views = char_lists(segments@);
    let mut names: Vec<String> = Vec::new();
    let mut index: usize = 0;
    proof {
        assert(views.take(0) =~= Seq::empty());
        assert(texts(names@) =~= Seq::empty());
    }
    while index < segments.len()
        invariant
            index <= segments@.len(),
            views == char_lists(segments@),
            texts(names@) == names_in(views.take(index as int)),
        decreases segments@.len() - index,
    {
        let segment = &segments[index];
        proof {
            assert(views.take(index + 1).drop_last() =~= views.take(index as int));
            assert(views.take(index + 1).last() == segment@);
        }
        if is_parameter(segment) {
            let ghost before = texts(names@);
            names.push(
                string_from(vstd::slice::slice_subrange(segment.as_slice(), 1, segment.len() - 1)),
            );
            assert(texts(names@) =~= before.push(segment@.subrange(1, segment@.len() - 1)));
        }
        index += 1;
    }
    assert(views.take(views.len() as int) =~= views);
    names
}

// ---------------------------------------------------------------------------
// The parameter tree
// ---------------------------------------------------------------------------

struct RouteNode {
    fixed: Vec<FixedChild>,
    parameter: Option<Box<RouteNode>>,
    endpoints: Vec<Option<usize>>,
}

struct FixedChild {
    segment: Vec<char>,
    node: RouteNode,
}

impl RouteNode {
    /// Every node has one place per method, and names a fixed child once.
    spec fn well_formed(self) -> bool
        decreases self,
    {
        &&& self.endpoints@.len() == 9
        &&& forall|i: int| 0 <= i < self.fixed@.len() ==> (#[trigger] self.fixed@[i]).node.well_formed()
        &&& forall|i: int, j: int|
            0 <= i < j < self.fixed@.len() ==> (#[trigger] self.fixed@[i]).segment@ != (
            #[trigger] self.fixed@[j]).segment@
        &&& match self.parameter {
            Some(node) => node.well_formed(),
            None => true,
        }
    }

    /// The child that a fixed segment leads to.
    spec fn child(self, segment: Seq<char>) -> Option<RouteNode> {
        if exists|i: int| 0 <= i < self.fixed@.len() && (#[trigger] self.fixed@[i]).segment@
            == segment {
            let i = choose|i: int|
                0 <= i < self.fixed@.len() && (#[trigger] self.fixed@[i]).segment@ == segment;
            Some(self.fixed@[i].node)
        } else {
            None
        }
    }

    /// The endpoint bound below this node to a pattern and method.
    spec fn bound(self, pattern: Seq<Segment>, method: int) -> Option<usize>
        decreases pattern.len(),
    {
        if pattern.len() == 0 {
            self.endpoints@[method]
        } else {
            match pattern[0] {
                Segment::Fixed(segment) => match self.child(segment) {
                    Some(node) => node.bound(pattern.drop_first(), method),
                    None => None,
                },
                Segment::Parameter => match self.parameter {
                    Some(node) => node.bound(pattern.drop_first(), method),
                    None => None,
                },
            }
        }
    }

    fn new() -> (node: RouteNode)
        ensures
            node.well_formed(),
            forall|pattern: Seq<Segment>, method: int|
                0 <= method < 9 ==> #[trigger] node.bound(pattern, method) is None,
    {
        let mut endpoints: Vec<Option<usize>> = Vec::new();
        let mut index: usize = 0;
        while index < 9
            invariant
                index <= 9,
                endpoints@.len() == index,
                forall|i: int| 0 <= i < index ==> #[trigger] endpoints@[i] is None,
            decreases 9 - index,
        {
            endpoints.push(None);
            index += 1;
        }
        RouteNode { fixed: Vec::new(), parameter: None, endpoints }
    }

    proof fn lemma_child_at(self, at: int)
        requires
            self.well_formed(),
            0 <= at < self.fixed@.len(),
        ensures
            self.child(self.fixed@[at].segment@) == Some(self.fixed@[at].node),
    {
        let segment = self.fixed@[at].segment@;
        let i = choose|i: int|
            0 <= i < self.fixed@.len() && (#[trigger] self.fixed@[i]).segment@ == segment;
        assert(i == at);
    }

    fn find_child(&self, segment: &Vec<char>) -> (found: Option<usize>)
        requires
            self.well_formed(),
        ensures
            match found {
                Some(at) => at < self.fixed@.len() && self.fixed@[at as int].segment@ == segment@
                    && self.child(segment@) == Some(self.fixed@[at as int].node),
                None => self.child(segment@) is None,
            },
    {
        let mut index: usize = 0;
        while index < self.fixed.len()
            invariant
                self.well_formed(),
                index <= self.fixed@.len(),
                forall|i: int| 0 <= i < index ==> (#[trigger] self.fixed@[i]).segment@ != segment@,
            decreases self.fixed@.len() - index,
        {
            if eq_chars(self.fixed[index].segment.as_slice(), segment.as_slice()) {
                proof {
                    self.lemma_child_at(index as int);
                }
                return Some(index);
            }
            index += 1;
        }
        None
    }

    proof fn lemma_no_child(self, segment: Seq<char>)
        requires
            forall|i: int| 0 <= i < self.fixed@.len() ==> (#[trigger] self.fixed@[i]).segment@
                != segment,
        ensures
            self.child(segment) is None,
    {
    }

    /// Binds an endpoint to a pattern and method, leaving every other binding
    /// as it was.
    fn insert(&mut self, segments: &Vec<Vec<char>>, at: usize, method: usize, slot: usize)
        requires
            old(self).well_formed(),
            at <= segments@.len(),
            method < 9,
        ensures
            final(self).well_formed(),
            forall|pattern: Seq<Segment>, other: int|
                0 <= other < 9 ==> #[trigger] final(self).bound(pattern, other) == if pattern
                    == pattern_list(char_lists(segments@).skip(at as int)) && other == method {
                    Some(slot)
                } else {
                    old(self).bound(pattern, other)
                },
        decreases segments@.len() - at,
    {
        let ghost before = *self;
        let ghost rest = pattern_list(char_lists(segments@).skip(at as int));
        if at == segments.len() {
            self.endpoints.set(method, Some(slot));
            proof {
                assert(rest =~= Seq::empty());
                let after = *self;
                assert forall|pattern: Seq<Segment>, other: int| 0 <= other < 9 implies #[trigger]
                    after.bound(pattern, other) == if pattern == rest && other == method {
                    Some(slot)
                } else {
                    before.bound(pattern, other)
                } by {
                    if pattern.len() == 0 {
                        assert(pattern =~= rest);
                    } else {
                        match pattern[0] {
                            Segment::Fixed(segment) => {
                                assert(after.child(segment) == before.child(segment)) by {
                                    assert(after.fixed@ == before.fixed@);
                                }
                            },
                            Segment::Parameter => {},
                        }
                    }
                }
            }
            return;
        }
        let segment = &segments[at];
        let ghost tail = pattern_list(char_lists(segments@).skip(at + 1));
        proof {
            assert(rest.drop_first() =~= tail);
            assert(rest.len() > 0);
        }
        if is_parameter(segment) {
            let ghost old_parameter = self.parameter;
            let mut node = match self.parameter.take() {
                Some(node) => *node,
                None => RouteNode::new(),
            };
            let ghost old_node = node;
            node.insert(segments, at + 1, method, slot);
            let ghost new_node = node;
            self.parameter = Some(Box::new(node));
            proof {
                let after = *self;
                assert(rest[0] == Segment::Parameter);
                assert(after.fixed@ == before.fixed@);
                assert forall|pattern: Seq<Segment>, other: int| 0 <= other < 9 implies #[trigger]
                    after.bound(pattern, other) == if pattern == rest && other == method {
                    Some(slot)
                } else {
                    before.bound(pattern, other)
                } by {
                    if pattern.len() > 0 {
                        match pattern[0] {
                            Segment::Fixed(name) => {
                                assert(after.child(name) == before.child(name));
                            },
                            Segment::Parameter => {
                                assert(new_node.bound(pattern.drop_first(), other)
                                    == if pattern.drop_first() == tail && other == method {
                                    Some(slot)
                                } else {
                                    old_node.bound(pattern.drop_first(), other)
                                });
                                if pattern.drop_first() == tail {
                                    assert(pattern =~= seq![pattern[0]] + pattern.drop_first());
                                    assert(rest =~= seq![rest[0]] + rest.drop_first());
                                }
                            },
                        }
                    }
                }
            }
            return;
        }
        let ghost name = segment@;
        let found = self.find_child(segment);
        let (place, mut node) = match found {
            Some(place) => {
                let child = self.fixed.remove(place);
                (place, child.node)
            },
            None => (self.fixed.len(), RouteNode::new()),
        };
        let ghost others = self.fixed@;
        let ghost old_node = node;
        proof {
            assert(rest[0] == Segment::Fixed(name));
            match found {
                Some(place) => {
                    assert(others =~= before.fixed@.remove(place as int));
                },
                None => {
                    assert(others =~= before.fixed@);
                },
            }
        }
        node.insert(segments, at + 1, method, slot);
        let ghost new_node = node;
        let copied = segment.clone();
        assert(copied@ =~= name);
        self.fixed.insert(place, FixedChild { segment: copied, node });
        proof {
            let after = *self;
            assert(after.fixed@.len() > place);
            assert(after.fixed@[place as int].segment@ == name);
            assert(after.fixed@[place as int].node == new_node);
            assert forall|i: int| 0 <= i < after.fixed@.len() && i != place implies (
            #[trigger] after.fixed@[i]) == before.fixed@[i] && before.fixed@[i].segment@ != name by {
                match found {
                    Some(_) => {
                        assert(before.fixed@[place as int].segment@ == name);
                    },
                    None => {
                        if before.fixed@[i].segment@ == name {
                            before.lemma_child_at(i);
                        }
                    },
                }
            }
            assert forall|i: int| 0 <= i < after.fixed@.len() implies (
            #[trigger] after.fixed@[i]).node.well_formed() by {
                if i != place {
                    assert(after.fixed@[i] == before.fixed@[i]);
                    assert(before.fixed@[i].node.well_formed());
                }
            }
            assert forall|i: int, j: int| 0 <= i < j < after.fixed@.len() implies (
            #[trigger] after.fixed@[i]).segment@ != (#[trigger] after.fixed@[j]).segment@ by {
                if i != place && j != place {
                    assert(after.fixed@[i] == before.fixed@[i]);
                    assert(after.fixed@[j] == before.fixed@[j]);
                } else if i != place {
                    assert(after.fixed@[i] == before.fixed@[i]);
                } else {
                    assert(after.fixed@[j] == before.fixed@[j]);
                }
            }
            assert(after.well_formed());
            after.lemma_child_at(place as int);
            assert forall|pattern: Seq<Segment>, other: int| 0 <= other < 9 implies #[trigger]
                after.bound(pattern, other) == if pattern == rest && other == method {
                Some(slot)
            } else {
                before.bound(pattern, other)
            } by {
                if pattern.len() > 0 {
                    match pattern[0] {
                        Segment::Fixed(other_name) => {
                            if other_name == name {
                                assert(new_node.bound(pattern.drop_first(), other)
                                    == if pattern.drop_first() == tail && other == method {
                                    Some(slot)
                                } else {
                                    old_node.bound(pattern.drop_first(), other)
                                });
                                if pattern.drop_first() == tail {
                                    assert(pattern =~= seq![pattern[0]] + pattern.drop_first());
                                    assert(rest =~= seq![rest[0]] + rest.drop_first());
                                }
                            } else {
                                lemma_other_child(before, after, place as int, other_name);
                            }
                        },
                        Segment::Parameter => {
                            assert(after.parameter == before.parameter);
                        },
                    }
                }
            }
        }
    }
}

proof fn lemma_other_child(before: RouteNode, after: RouteNode, place: int, name: Seq<char>)
    requires
        before.well_formed(),
        after.well_formed(),
        0 <= place < after.fixed@.len(),
        before.fixed@.len() == after.fixed@.len() || before.fixed@.len() + 1
            == after.fixed@.len() && place == before.fixed@.len(),
        after.fixed@[place].segment@ != name,
        place < before.fixed@.len() ==> before.fixed@[place].segment@ != name,
        forall|i: int|
            0 <= i < after.fixed@.len() && i != place ==> (#[trigger] after.fixed@[i])
                == before.fixed@[i],
    ensures
        after.child(name) == before.child(name),
{
    if exists|i: int| 0 <= i < before.fixed@.len() && (#[trigger] before.fixed@[i]).segment@
        == name {
        let i = choose|i: int|
            0 <= i < before.fixed@.len() && (#[trigger] before.fixed@[i]).segment@ == name;
        assert(i != place);
        assert(after.fixed@[i] == before.fixed@[i]);
        before.lemma_child_at(i);
        after.lemma_child_at(i);
    } else {
        assert forall|i: int| 0 <= i < after.fixed@.len() implies (
        #[trigger] after.fixed@[i]).segment@ != name by {
            if i != place {
                assert(after.fixed@[i] == before.fixed@[i]);
            }
        }
        after.lemma_no_child(name);
        before.lemma_no_child(name);
    }
}

// ---------------------------------------------------------------------------
// What a request resolves to
// ---------------------------------------------------------------------------

/// One registered route.
pub struct RouteEntry {
    pub method: HttpMethod,
    pub path: Seq<char>,
    pub operation_index: usize,
    pub body_source: Option<InputSource>,
}

/// The methods, in order.
pub open spec fn all_methods() -> Seq<HttpMethod> {
    seq![
        HttpMethod::Get,
        HttpMethod::Head,
        HttpMethod::Post,
        HttpMethod::Put,
        HttpMethod::Patch,
        HttpMethod::Delete,
        HttpMethod::Options,
        HttpMethod::Trace,
        HttpMethod::Connect,
    ]
}

/// The latest route without parameters that is bound to a method and path.
pub open spec fn fixed_route(
    routes: Seq<RouteEntry>,
    path: Seq<char>,
    method: HttpMethod,
) -> Option<usize>
    decreases routes.len(),
{
    if routes.len() == 0 {
        None
    } else {
        let last = routes.last();
        if parameter_names(last.path).len() == 0 && last.path == path && last.method == method {
            Some((routes.len() - 1) as usize)
        } else {
            fixed_route(routes.drop_last(), path, method)
        }
    }
}

/// The latest route with parameters that is bound to a method and pattern.
pub open spec fn pattern_route(
    routes: Seq<RouteEntry>,
    pattern: Seq<Segment>,
    method: HttpMethod,
) -> Option<usize>
    decreases routes.len(),
{
    if routes.len() == 0 {
        None
    } else {
        let last = routes.last();
        if parameter_names(last.path).len() > 0 && pattern_of(last.path) == pattern && last.method
            == method {
            Some((routes.len() - 1) as usize)
        } else {
            pattern_route(routes.drop_last(), pattern, method)
        }
    }
}

/// The route whose pattern matches the remaining segments, trying a fixed
/// segment before a parameter at every position, and what its parameters
/// captured.
pub open spec fn best(
    bound: spec_fn(Seq<Segment>) -> Option<usize>,
    done: Seq<Segment>,
    rest: Seq<Seq<char>>,
    captures: Seq<Seq<char>>,
) -> Option<(usize, Seq<Seq<char>>)>
    decreases rest.len(),
{
    if rest.len() == 0 {
        match bound(done) {
            Some(slot) => Some((slot, captures)),
            None => None,
        }
    } else {
        match best(bound, done.push(Segment::Fixed(rest[0])), rest.drop_first(), captures) {
            Some(found) => Some(found),
            None => best(
                bound,
                done.push(Segment::Parameter),
                rest.drop_first(),
                captures.push(rest[0]),
            ),
        }
    }
}

/// The route that answers a request: an exact path without parameters first,
/// then the best pattern.
pub open spec fn resolved(
    routes: Seq<RouteEntry>,
    path: Seq<char>,
    method: HttpMethod,
) -> Option<(usize, Seq<Seq<char>>)> {
    match fixed_route(routes, path, method) {
        Some(slot) => Some((slot, Seq::empty())),
        None => best(
            |pattern: Seq<Segment>| pattern_route(routes, pattern, method),
            Seq::empty(),
            path_segments(path),
            Seq::empty(),
        ),
    }
}

/// The methods that a path answers, in order.
pub open spec fn allowed_methods(routes: Seq<RouteEntry>, path: Seq<char>) -> Seq<HttpMethod> {
    all_methods().filter(|method: HttpMethod| resolved(routes, path, method) is Some)
}

/// The first input source that reads the request body.
pub open spec fn body_source_spec(inputs: Seq<InputView>) -> Option<InputSource>
    decreases inputs.len(),
{
    if inputs.len() == 0 {
        None
    } else {
        match inputs[0].source {
            InputSource::Json
            | InputSource::Form
            | InputSource::Multipart
            | InputSource::File
            | InputSource::Stream => Some(inputs[0].source),
            _ => body_source_spec(inputs.drop_first()),
        }
    }
}

/// The routes of an application whose operations sit at the given positions.
pub open spec fn routes_of(
    operations: Seq<OperationDescriptor>,
    positions: Seq<usize>,
) -> Seq<RouteEntry> {
    Seq::new(
        operations.len(),
        |i: int|
            RouteEntry {
                method: operations[i].http.method,
                path: operations[i].http.path@,
                operation_index: positions[i],
                body_source: body_source_spec(operations[i].contract@.inputs),
            },
    )
}

proof fn lemma_best_shift(
    outer: spec_fn(Seq<Segment>) -> Option<usize>,
    inner: spec_fn(Seq<Segment>) -> Option<usize>,
    first: Segment,
    done: Seq<Segment>,
    rest: Seq<Seq<char>>,
    captures: Seq<Seq<char>>,
)
    requires
        forall|pattern: Seq<Segment>| #[trigger] inner(pattern) == outer(seq![first] + pattern),
    ensures
        best(outer, seq![first] + done, rest, captures) == best(inner, done, rest, captures),
    decreases rest.len(),
{
    if rest.len() == 0 {
        assert(inner(done) == outer(seq![first] + done));
    } else {
        let fixed = Segment::Fixed(rest[0]);
        assert((seq![first] + done).push(fixed) =~= seq![first] + done.push(fixed));
        assert((seq![first] + done).push(Segment::Parameter) =~= seq![first] + done.push(
            Segment::Parameter,
        ));
        lemma_best_shift(outer, inner, first, done.push(fixed), rest.drop_first(), captures);
        lemma_best_shift(
            outer,
            inner,
            first,
            done.push(Segment::Parameter),
            rest.drop_first(),
            captures.push(rest[0]),
        );
    }
}

proof fn lemma_best_nothing(
    bound: spec_fn(Seq<Segment>) -> Option<usize>,
    first: Segment,
    done: Seq<Segment>,
    rest: Seq<Seq<char>>,
    captures: Seq<Seq<char>>,
)
    requires
        forall|pattern: Seq<Segment>| #[trigger] bound(seq![first] + pattern) is None,
    ensures
        best(bound, seq![first] + done, rest, captures) is None,
    decreases rest.len(),
{
    if rest.len() == 0 {
        assert(bound(seq![first] + done) is None);
    } else {
        let fixed = Segment::Fixed(rest[0]);
        assert((seq![first] + done).push(fixed) =~= seq![first] + done.push(fixed));
        assert((seq![first] + done).push(Segment::Parameter) =~= seq![first] + done.push(
            Segment::Parameter,
        ));
        lemma_best_nothing(bound, first, done.push(fixed), rest.drop_first(), captures);
        lemma_best_nothing(
            bound,
            first,
            done.push(Segment::Parameter),
            rest.drop_first(),
            captures.push(rest[0]),
        );
    }
}

proof fn lemma_best_same(
    left: spec_fn(Seq<Segment>) -> Option<usize>,
    right: spec_fn(Seq<Segment>) -> Option<usize>,
    done: Seq<Segment>,
    rest: Seq<Seq<char>>,
    captures: Seq<Seq<char>>,
)
    requires
        forall|pattern: Seq<Segment>| #[trigger] left(pattern) == right(pattern),
    ensures
        best(left, done, rest, captures) == best(right, done, rest, captures),
    decreases rest.len(),
{
    if rest.len() == 0 {
        assert(left(done) == right(done));
    } else {
        lemma_best_same(
            left,
            right,
            done.push(Segment::Fixed(rest[0])),
            rest.drop_first(),
            captures,
        );
        lemma_best_same(
            left,
            right,
            done.push(Segment::Parameter),
            rest.drop_first(),
            captures.push(rest[0]),
        );
    }
}

/// The segments at captured positions.
spec fn captured(segments: Seq<Seq<char>>, positions: Seq<usize>) -> Seq<Seq<char>> {
    positions.map_values(|at: usize| segments[at as int])
}

impl RouteNode {
    /// What a request resolves to below this node.
    spec fn best_below(
        self,
        rest: Seq<Seq<char>>,
        method: int,
        captures: Seq<Seq<char>>,
    ) -> Option<(usize, Seq<Seq<char>>)> {
        best(|pattern: Seq<Segment>| self.bound(pattern, method), Seq::empty(), rest, captures)
    }

    proof fn lemma_best_fixed(self, rest: Seq<Seq<char>>, method: int, captures: Seq<Seq<char>>)
        requires
            rest.len() > 0,
        ensures
            best(
                |pattern: Seq<Segment>| self.bound(pattern, method),
                Seq::<Segment>::empty().push(Segment::Fixed(rest[0])),
                rest.drop_first(),
                captures,
            ) == match self.child(rest[0]) {
                Some(node) => node.best_below(rest.drop_first(), method, captures),
                None => None,
            },
    {
        let outer = |pattern: Seq<Segment>| self.bound(pattern, method);
        let first = Segment::Fixed(rest[0]);
        assert(Seq::<Segment>::empty().push(first) =~= seq![first] + Seq::<Segment>::empty());
        match self.child(rest[0]) {
            Some(node) => {
                let inner = |pattern: Seq<Segment>| node.bound(pattern, method);
                assert forall|pattern: Seq<Segment>| #[trigger] inner(pattern) == outer(
                    seq![first] + pattern,
                ) by {
                    assert((seq![first] + pattern).drop_first() =~= pattern);
                }
                lemma_best_shift(outer, inner, first, Seq::empty(), rest.drop_first(), captures);
            },
            None => {
                assert forall|pattern: Seq<Segment>| #[trigger]
                    outer(seq![first] + pattern) is None by {
                    assert((seq![first] + pattern)[0] == first);
                }
                lemma_best_nothing(outer, first, Seq::empty(), rest.drop_first(), captures);
            },
        }
    }

    proof fn lemma_best_parameter(
        self,
        rest: Seq<Seq<char>>,
        method: int,
        captures: Seq<Seq<char>>,
    )
        requires
            rest.len() > 0,
        ensures
            best(
                |pattern: Seq<Segment>| self.bound(pattern, method),
                Seq::<Segment>::empty().push(Segment::Parameter),
                rest.drop_first(),
                captures,
            ) == match self.parameter {
                Some(node) => node.best_below(rest.drop_first(), method, captures),
                None => None,
            },
    {
        let outer = |pattern: Seq<Segment>| self.bound(pattern, method);
        let first = Segment::Parameter;
        assert(Seq::<Segment>::empty().push(first) =~= seq![first] + Seq::<Segment>::empty());
        match self.parameter {
            Some(node) => {
                let inner = |pattern: Seq<Segment>| node.bound(pattern, method);
                assert forall|pattern: Seq<Segment>| #[trigger] inner(pattern) == outer(
                    seq![first] + pattern,
                ) by {
                    assert((seq![first] + pattern).drop_first() =~= pattern);
                }
                lemma_best_shift(outer, inner, first, Seq::empty(), rest.drop_first(), captures);
            },
            None => {
                assert forall|pattern: Seq<Segment>| #[trigger]
                    outer(seq![first] + pattern) is None by {
                    assert((seq![first] + pattern)[0] == first);
                }
                lemma_best_nothing(outer, first, Seq::empty(), rest.drop_first(), captures);
            },
        }
    }

    /// Walks the tree for a method. The captures are a stack: a parameter
    /// descent pushes and pops on failure.
    fn walk(
        &self,
        segments: &Vec<Vec<char>>,
        at: usize,
        method: usize,
        captures: &mut Vec<usize>,
    ) -> (found: Option<usize>)
        requires
            self.well_formed(),
            at <= segments@.len(),
            method < 9,
            forall|i: int| 0 <= i < old(captures)@.len() ==> old(captures)@[i] < segments@.len(),
        ensures
            forall|i: int|
                0 <= i < final(captures)@.len() ==> final(captures)@[i] < segments@.len(),
            match found {
                Some(slot) => self.best_below(
                    char_lists(segments@).skip(at as int),
                    method as int,
                    captured(char_lists(segments@), old(captures)@),
                ) == Some((slot, captured(char_lists(segments@), final(captures)@))),
                None => final(captures)@ == old(captures)@ && self.best_below(
                    char_lists(segments@).skip(at as int),
                    method as int,
                    captured(char_lists(segments@), old(captures)@),
                ) is None,
            },
        decreases segments@.len() - at,
    {
        let ghost all = char_lists(segments@);
        let ghost rest = all.skip(at as int);
        let ghost before = captured(all, captures@);
        if at == segments.len() {
            assert(rest.len() == 0);
            return self.endpoints[method];
        }
        let segment = &segments[at];
        proof {
            assert(rest[0] == segment@);
            assert(rest.drop_first() =~= all.skip(at + 1));
            self.lemma_best_fixed(rest, method as int, before);
            self.lemma_best_parameter(rest, method as int, before.push(segment@));
        }
        match self.find_child(segment) {
            Some(place) => {
                match self.fixed[place].node.walk(segments, at + 1, method, captures) {
                    Some(slot) => {
                        return Some(slot);
                    },
                    None => {},
                }
            },
            None => {},
        }
        match &self.parameter {
            Some(node) => {
                captures.push(at);
                assert(captured(all, captures@) =~= before.push(segment@));
                match node.walk(segments, at + 1, method, captures) {
                    Some(slot) => {
                        return Some(slot);
                    },
                    None => {},
                }
                captures.pop();
                assert(captures@ =~= old(captures)@);
                None
            },
            None => None,
        }
    }
}

// ---------------------------------------------------------------------------
// The router
// ---------------------------------------------------------------------------

struct CompiledEndpoint {
    operation_index: usize,
    parameter_names: Vec<String>,
    body_source: Option<InputSource>,
}

/// What one exact path resolves to, for every method at once.
struct FixedRoute {
    path: String,
    endpoints: Vec<Option<usize>>,
}

/// A router miss that distinguishes an unknown path from a wrong method.
#[derive(Clone, Debug, PartialEq, Eq)]
pub enum RouteError {
    MethodNotAllowed { allowed: Vec<HttpMethod> },
    NotFound,
}

/// A runtime-neutral router compiled once from the operation graph.
pub struct Router {
    root: RouteNode,
    fixed: Vec<FixedRoute>,
    endpoints: Vec<CompiledEndpoint>,
    routes: Ghost<Seq<RouteEntry>>,
}

impl View for Router {
    type V = Seq<RouteEntry>;

    closed spec fn view(&self) -> Seq<RouteEntry> {
        self.routes@
    }
}

/// The method at a rank.
spec fn method_at(rank: int) -> HttpMethod {
    all_methods()[rank]
}

spec fn fixed_bound(table: Seq<FixedRoute>, path: Seq<char>, method: int) -> Option<usize>
    decreases table.len(),
{
    if table.len() == 0 {
        None
    } else if table[0].path@ == path {
        table[0].endpoints@[method]
    } else {
        fixed_bound(table.drop_first(), path, method)
    }
}

proof fn lemma_fixed_at(table: Seq<FixedRoute>, at: int, method: int)
    requires
        0 <= at < table.len(),
        forall|i: int| 0 <= i < at ==> (#[trigger] table[i]).path@ != table[at].path@,
    ensures
        fixed_bound(table, table[at].path@, method) == table[at].endpoints@[method],
    decreases table.len(),
{
    if at > 0 {
        assert(table[0].path@ != table[at].path@);
        let rest = table.drop_first();
        assert forall|i: int| 0 <= i < at - 1 implies (#[trigger] rest[i]).path@ != rest[at
            - 1].path@ by {
            assert(table[i + 1].path@ != table[at].path@);
        }
        lemma_fixed_at(rest, at - 1, method);
    }
}

proof fn lemma_fixed_absent(table: Seq<FixedRoute>, path: Seq<char>, method: int)
    requires
        forall|i: int| 0 <= i < table.len() ==> (#[trigger] table[i]).path@ != path,
    ensures
        fixed_bound(table, path, method) is None,
    decreases table.len(),
{
    if table.len() > 0 {
        assert(table[0].path@ != path);
        let rest = table.drop_first();
        assert forall|i: int| 0 <= i < rest.len() implies (#[trigger] rest[i]).path@ != path by {
            assert(table[i + 1].path@ != path);
        }
        lemma_fixed_absent(rest, path, method);
    }
}

proof fn lemma_fixed_update(
    table: Seq<FixedRoute>,
    changed: Seq<FixedRoute>,
    at: int,
    path: Seq<char>,
    method: int,
)
    requires
        0 <= at < table.len(),
        changed.len() == table.len(),
        changed[at].path@ == table[at].path@,
        changed[at].endpoints@[method] == table[at].endpoints@[method] || path
            != table[at].path@,
        forall|i: int| 0 <= i < table.len() && i != at ==> changed[i] == table[i],
    ensures
        fixed_bound(changed, path, method) == fixed_bound(table, path, method),
    decreases table.len(),
{
    if table[0].path@ != path {
        if at > 0 {
            let a = table.drop_first();
            let b = changed.drop_first();
            assert(b[at - 1].path@ == a[at - 1].path@);
            lemma_fixed_update(a, b, at - 1, path, method);
        } else {
            assert(table.drop_first() =~= changed.drop_first());
        }
    }
}

proof fn lemma_fixed_push(table: Seq<FixedRoute>, added: FixedRoute, path: Seq<char>, method: int)
    requires
        path != added.path@,
    ensures
        fixed_bound(table.push(added), path, method) == fixed_bound(table, path, method),
    decreases table.len(),
{
    let grown = table.push(added);
    if table.len() == 0 {
        assert(grown.drop_first() =~= Seq::empty());
    } else if table[0].path@ != path {
        assert(grown.drop_first() =~= table.drop_first().push(added));
        lemma_fixed_push(table.drop_first(), added, path, method);
    }
}

/// What an endpoint says about the route it was compiled from.
spec fn endpoint_matches(endpoint: CompiledEndpoint, route: RouteEntry) -> bool {
    &&& endpoint.operation_index == route.operation_index
    &&& endpoint.body_source == route.body_source
    &&& texts(endpoint.parameter_names@) == parameter_names(route.path)
}

proof fn lemma_route_bounds(routes: Seq<RouteEntry>, path: Seq<char>, method: HttpMethod)
    ensures
        fixed_route(routes, path, method) matches Some(slot) ==> routes.len() <= usize::MAX ==> slot
            < routes.len(),
    decreases routes.len(),
{
    if routes.len() > 0 {
        lemma_route_bounds(routes.drop_last(), path, method);
    }
}

proof fn lemma_pattern_bounds(routes: Seq<RouteEntry>, pattern: Seq<Segment>, method: HttpMethod)
    ensures
        pattern_route(routes, pattern, method) matches Some(slot) ==> routes.len() <= usize::MAX
            ==> slot < routes.len(),
    decreases routes.len(),
{
    if routes.len() > 0 {
        lemma_pattern_bounds(routes.drop_last(), pattern, method);
    }
}

proof fn lemma_best_bounds(
    routes: Seq<RouteEntry>,
    method: HttpMethod,
    done: Seq<Segment>,
    rest: Seq<Seq<char>>,
    captures: Seq<Seq<char>>,
)
    requires
        routes.len() <= usize::MAX,
    ensures
        best(
            |pattern: Seq<Segment>| pattern_route(routes, pattern, method),
            done,
            rest,
            captures,
        ) matches Some(found) ==> found.0 < routes.len(),
    decreases rest.len(),
{
    if rest.len() == 0 {
        lemma_pattern_bounds(routes, done, method);
    } else {
        lemma_best_bounds(
            routes,
            method,
            done.push(Segment::Fixed(rest[0])),
            rest.drop_first(),
            captures,
        );
        lemma_best_bounds(
            routes,
            method,
            done.push(Segment::Parameter),
            rest.drop_first(),
            captures.push(rest[0]),
        );
    }
}

fn body_source(descriptor: &OperationDescriptor) -> (source: Option<InputSource>)
    ensures
        source == body_source_spec(descriptor.contract@.inputs),
{
    let inputs = &descriptor.contract.inputs;
    let ghost views = descriptor.contract@.inputs;
    let mut index: usize = 0;
    assert(views.skip(0) =~= views);
    while index < inputs.len()
        invariant
            index <= inputs@.len(),
            views == inputs_view(inputs@),
            views == descriptor.contract@.inputs,
            body_source_spec(views) == body_source_spec(views.skip(index as int)),
        decreases inputs@.len() - index,
    {
        proof {
            assert(views.skip(index as int)[0] == inputs@[index as int]@);
            assert(views.skip(index as int).drop_first() =~= views.skip(index + 1));
        }
        match inputs[index].source {
            InputSource::Json
            | InputSource::Form
            | InputSource::Multipart
            | InputSource::File
            | InputSource::Stream => {
                return Some(inputs[index].source);
            },
            _ => {},
        }
        index += 1;
    }
    None
}

impl Router {
    /// The tables agree with the registered routes.
    spec fn well_formed(self) -> bool {
        &&& self.root.well_formed()
        &&& self.endpoints@.len() == self.routes@.len()
        &&& forall|i: int|
            0 <= i < self.endpoints@.len() ==> endpoint_matches(
                #[trigger] self.endpoints@[i],
                self.routes@[i],
            )
        &&& forall|i: int|
            0 <= i < self.fixed@.len() ==> (#[trigger] self.fixed@[i]).endpoints@.len() == 9
        &&& forall|i: int, j: int|
            0 <= i < j < self.fixed@.len() ==> (#[trigger] self.fixed@[i]).path@ != (
            #[trigger] self.fixed@[j]).path@
        &&& forall|path: Seq<char>, method: int|
            0 <= method < 9 ==> #[trigger] fixed_bound(self.fixed@, path, method) == fixed_route(
                self.routes@,
                path,
                method_at(method),
            )
        &&& forall|pattern: Seq<Segment>, method: int|
            0 <= method < 9 ==> #[trigger] self.root.bound(pattern, method) == pattern_route(
                self.routes@,
                pattern,
                method_at(method),
            )
    }

    #[verifier::type_invariant]
    spec fn compiled(self) -> bool {
        self.well_formed()
    }

    fn empty() -> (router: Self)
        ensures
            router.well_formed(),
            router.routes@ == Seq::<RouteEntry>::empty(),
    {
        Router {
            root: RouteNode::new(),
            fixed: Vec::new(),
            endpoints: Vec::new(),
            routes: Ghost(Seq::empty()),
        }
    }

    fn no_endpoints() -> (endpoints: Vec<Option<usize>>)
        ensures
            endpoints@.len() == 9,
            forall|i: int| 0 <= i < 9 ==> #[trigger] endpoints@[i] is None,
    {
        let mut endpoints: Vec<Option<usize>> = Vec::new();
        let mut index: usize = 0;
        while index < 9
            invariant
                index <= 9,
                endpoints@.len() == index,
                forall|i: int| 0 <= i < index ==> #[trigger] endpoints@[i] is None,
            decreases 9 - index,
        {
            endpoints.push(None);
            index += 1;
        }
        endpoints
    }

    /// Registers one more operation.
    fn insert(self, descriptor: &OperationDescriptor, operation_index: usize) -> (router: Self)
        requires
            self.well_formed(),
        ensures
            router.well_formed(),
            router.routes@ == self.routes@.push(
                RouteEntry {
                    method: descriptor.http.method,
                    path: descriptor.http.path@,
                    operation_index,
                    body_source: body_source_spec(descriptor.contract@.inputs),
                },
            ),
    {
        let ghost before = self;
        let ghost route = RouteEntry {
            method: descriptor.http.method,
            path: descriptor.http.path@,
            operation_index,
            body_source: body_source_spec(descriptor.contract@.inputs),
        };
        let ghost routes = self.routes@.push(route);
        let segments = segments_of(descriptor.http.path.as_str());
        let names = names_of_segments(&segments);
        let parameterized = names.len() > 0;
        let endpoint = CompiledEndpoint {
            operation_index,
            parameter_names: names,
            body_source: body_source(descriptor),
        };
        let method: usize = descriptor.http.method.rank();
        let Router { mut root, mut fixed, mut endpoints, routes: _ } = self;
        let slot: usize = endpoints.len();
        endpoints.push(endpoint);
        proof {
            assert(routes.drop_last() =~= before.routes@);
            assert(method_at(method as int) == route.method);
            assert forall|other: int| 0 <= other < 9 && other != method implies method_at(other)
                != route.method by {}
            assert(texts(endpoint.parameter_names@) == parameter_names(route.path));
            assert(parameterized == (parameter_names(route.path).len() > 0)) by {
                assert(texts(endpoint.parameter_names@).len() == endpoint.parameter_names@.len());
            }
            assert forall|i: int| 0 <= i < endpoints@.len() implies endpoint_matches(
                #[trigger] endpoints@[i],
                routes[i],
            ) by {
                if i < before.endpoints@.len() {
                    assert(endpoint_matches(before.endpoints@[i], before.routes@[i]));
                }
            }
        }
        if parameterized {
            root.insert(&segments, 0, method, slot);
            proof {
                assert(char_lists(segments@).skip(0) =~= char_lists(segments@));
                assert forall|pattern: Seq<Segment>, other: int| 0 <= other < 9 implies #[trigger]
                    root.bound(pattern, other) == pattern_route(
                    routes,
                    pattern,
                    method_at(other),
                ) by {
                    assert(before.root.bound(pattern, other) == pattern_route(
                        before.routes@,
                        pattern,
                        method_at(other),
                    ));
                }
                assert forall|path: Seq<char>, other: int| 0 <= other < 9 implies #[trigger]
                    fixed_bound(fixed@, path, other) == fixed_route(
                    routes,
                    path,
                    method_at(other),
                ) by {
                    assert(fixed_bound(before.fixed@, path, other) == fixed_route(
                        before.routes@,
                        path,
                        method_at(other),
                    ));
                }
            }
            return Router { root, fixed, endpoints, routes: Ghost(routes) };
        }
        let path = descriptor.http.path.as_str();
        let mut at: usize = 0;
        while at < fixed.len() && !eq_text(fixed[at].path.as_str(), path)
            invariant
                at <= fixed@.len(),
                fixed@ == before.fixed@,
                forall|i: int| 0 <= i < at ==> (#[trigger] fixed@[i]).path@ != path@,
            decreases fixed@.len() - at,
        {
            at += 1;
        }
        if at == fixed.len() {
            let mut row = Router::no_endpoints();
            row.set(method, Some(slot));
            let added = FixedRoute { path: path.to_owned(), endpoints: row };
            let ghost added_view = added;
            fixed.push(added);
            proof {
                assert forall|p: Seq<char>, other: int| 0 <= other < 9 implies #[trigger]
                    fixed_bound(fixed@, p, other) == fixed_route(routes, p, method_at(other)) by {
                    assert(fixed_bound(before.fixed@, p, other) == fixed_route(
                        before.routes@,
                        p,
                        method_at(other),
                    ));
                    if p == path@ {
                        lemma_fixed_absent(before.fixed@, p, other);
                        lemma_fixed_at(fixed@, at as int, other);
                    } else {
                        lemma_fixed_push(before.fixed@, added_view, p, other);
                    }
                }
            }
        } else {
            let mut entry = fixed.remove(at);
            entry.endpoints.set(method, Some(slot));
            fixed.insert(at, entry);
            proof {
                assert(fixed@.len() == before.fixed@.len());
                assert forall|i: int| 0 <= i < fixed@.len() && i != at implies fixed@[i]
                    == before.fixed@[i] by {}
                assert(fixed@[at as int].path@ == path@);
                assert forall|i: int| 0 <= i < fixed@.len() implies (
                #[trigger] fixed@[i]).endpoints@.len() == 9 by {
                    assert(before.fixed@[i].endpoints@.len() == 9);
                }
                assert forall|i: int, j: int| 0 <= i < j < fixed@.len() implies (
                #[trigger] fixed@[i]).path@ != (#[trigger] fixed@[j]).path@ by {
                    assert(before.fixed@[i].path@ != before.fixed@[j].path@);
                }
                assert forall|p: Seq<char>, other: int| 0 <= other < 9 implies #[trigger]
                    fixed_bound(fixed@, p, other) == fixed_route(routes, p, method_at(other)) by {
                    assert(fixed_bound(before.fixed@, p, other) == fixed_route(
                        before.routes@,
                        p,
                        method_at(other),
                    ));
                    if p == path@ && other == method {
                        lemma_fixed_at(fixed@, at as int, other);
                    } else {
                        lemma_fixed_update(before.fixed@, fixed@, at as int, p, other);
                    }
                }
            }
        }
        proof {
            assert forall|pattern: Seq<Segment>, other: int| 0 <= other < 9 implies #[trigger]
                root.bound(pattern, other) == pattern_route(
                routes,
                pattern,
                method_at(other),
            ) by {
                assert(before.root.bound(pattern, other) == pattern_route(
                    before.routes@,
                    pattern,
                    method_at(other),
                ));
            }
        }
        Router { root, fixed, endpoints, routes: Ghost(routes) }
    }

    /// Compiles the routes of an application. `positions` says where each
    /// operation of the definition sits in the executable graph.
    #[must_use]
    pub fn new(definition: &AppDefinition, positions: &[usize]) -> (router: Self)
        requires
            positions@.len() == definition.spec_operations().len(),
        ensures
            router@ == routes_of(definition.spec_operations(), positions@),
    {
        let operations = definition.operations();
        let ghost expected = routes_of(operations@, positions@);
        let mut router = Router::empty();
        let mut index: usize = 0;
        assert(expected.take(0) =~= Seq::empty());
        while index < operations.len()
            invariant
                index <= operations@.len(),
                positions@.len() == operations@.len(),
                expected == routes_of(operations@, positions@),
                router.well_formed(),
                router.routes@ == expected.take(index as int),
            decreases operations@.len() - index,
        {
            router = router.insert(&operations[index], positions[index]);
            assert(expected.take(index + 1) =~= expected.take(index as int).push(
                expected[index as int],
            ));
            index += 1;
        }
        assert(expected.take(expected.len() as int) =~= expected);
        router
    }
}

// ---------------------------------------------------------------------------
// Recognition
// ---------------------------------------------------------------------------

/// A compiled route match with its direct operation slot and path captures.
pub struct RouteMatch<'router> {
    endpoint: &'router CompiledEndpoint,
    captures: Vec<String>,
}

/// What a route match says.
pub struct MatchView {
    pub operation_index: usize,
    pub body_source: Option<InputSource>,
    pub parameter_names: Seq<Seq<char>>,
    pub captures: Seq<Seq<char>>,
}

impl View for RouteMatch<'_> {
    type V = MatchView;

    closed spec fn view(&self) -> MatchView {
        MatchView {
            operation_index: self.endpoint.operation_index,
            body_source: self.endpoint.body_source,
            parameter_names: texts(self.endpoint.parameter_names@),
            captures: texts(self.captures@),
        }
    }
}

/// What matching a route with captures says.
pub open spec fn match_of(route: RouteEntry, captures: Seq<Seq<char>>) -> MatchView {
    MatchView {
        operation_index: route.operation_index,
        body_source: route.body_source,
        parameter_names: parameter_names(route.path),
        captures,
    }
}

/// The first position of a text in a list.
pub open spec fn position_of(list: Seq<Seq<char>>, text: Seq<char>) -> Option<int>
    decreases list.len(),
{
    if list.len() == 0 {
        None
    } else if list[0] == text {
        Some(0)
    } else {
        match position_of(list.drop_first(), text) {
            Some(at) => Some(at + 1),
            None => None,
        }
    }
}

/// The percent-decoded value a match captured for a parameter.
pub open spec fn parameter_value(found: MatchView, name: Seq<char>) -> Option<Seq<char>> {
    match position_of(found.parameter_names, name) {
        Some(at) => if at < found.captures.len() {
            decoded(found.captures[at], false)
        } else {
            None
        },
        None => None,
    }
}

impl<'router> RouteMatch<'router> {
    #[must_use]
    pub fn operation_index(&self) -> (index: usize)
        ensures
            index == self@.operation_index,
    {
        self.endpoint.operation_index
    }

    #[must_use]
    pub fn requires_json(&self) -> (json: bool)
        ensures
            json == (self@.body_source == Some(InputSource::Json)),
    {
        match self.endpoint.body_source {
            Some(InputSource::Json) => true,
            _ => false,
        }
    }

    #[must_use]
    pub fn body_source(&self) -> (source: Option<InputSource>)
        ensures
            source == self@.body_source,
    {
        self.endpoint.body_source
    }

    /// The percent-decoded value of a path parameter.
    #[must_use]
    pub fn path_parameter(&self, name: &str) -> (value: Option<String>)
        ensures
            match value {
                Some(text) => parameter_value(self@, name@) == Some(text@),
                None => parameter_value(self@, name@) is None,
            },
    {
        let names = &self.endpoint.parameter_names;
        let ghost views = texts(names@);
        let mut index: usize = 0;
        assert(views.skip(0) =~= views);
        while index < names.len()
            invariant
                index <= names@.len(),
                *names == self.endpoint.parameter_names,
                views == texts(names@),
                views == self@.parameter_names,
                position_of(views, name@) == match position_of(views.skip(index as int), name@) {
                    Some(at) => Some(at + index),
                    None => None,
                },
            decreases names@.len() - index,
        {
            proof {
                assert(views.skip(index as int)[0] == names@[index as int]@);
                assert(views.skip(index as int).drop_first() =~= views.skip(index + 1));
            }
            if eq_text(names[index].as_str(), name) {
                if index < self.captures.len() {
                    assert(self@.captures[index as int] == self.captures@[index as int]@);
                    return decode_url_component(self.captures[index].as_str(), false);
                }
                return None;
            }
            index += 1;
        }
        None
    }
}

fn method_of(rank: usize) -> (method: HttpMethod)
    requires
        rank < 9,
    ensures
        method == method_at(rank as int),
        method_rank(method) == rank,
{
    match rank {
        0 => HttpMethod::Get,
        1 => HttpMethod::Head,
        2 => HttpMethod::Post,
        3 => HttpMethod::Put,
        4 => HttpMethod::Patch,
        5 => HttpMethod::Delete,
        6 => HttpMethod::Options,
        7 => HttpMethod::Trace,
        _ => HttpMethod::Connect,
    }
}

impl Router {
    fn resolve(&self, path: &str, segments: &Vec<Vec<char>>, method: usize) -> (found: Option<
        (usize, Vec<usize>),
    >)
        requires
            method < 9,
            char_lists(segments@) == path_segments(path@),
        ensures
            match found {
                Some((slot, captures)) => {
                    &&& resolved(self@, path@, method_at(method as int)) == Some(
                        (slot, captured(char_lists(segments@), captures@)),
                    )
                    &&& slot < self.endpoints@.len()
                    &&& forall|i: int| 0 <= i < captures@.len() ==> captures@[i] < segments@.len()
                },
                None => resolved(self@, path@, method_at(method as int)) is None,
            },
    {
        proof {
            use_type_invariant(self);
            lemma_route_bounds(self.routes@, path@, method_at(method as int));
        }
        let count: usize = self.endpoints.len();
        assert(self.routes@.len() == count);
        let mut index: usize = 0;
        while index < self.fixed.len()
            invariant
                self.well_formed(),
                method < 9,
                char_lists(segments@) == path_segments(path@),
                index <= self.fixed@.len(),
                forall|i: int| 0 <= i < index ==> (#[trigger] self.fixed@[i]).path@ != path@,
                fixed_route(self.routes@, path@, method_at(method as int)) matches Some(slot)
                    ==> slot < self.routes@.len(),
                self.endpoints@.len() == self.routes@.len(),
            decreases self.fixed@.len() - index,
        {
            if eq_text(self.fixed[index].path.as_str(), path) {
                proof {
                    lemma_fixed_at(self.fixed@, index as int, method as int);
                }
                assert(fixed_bound(self.fixed@, path@, method as int) == fixed_route(
                    self.routes@,
                    path@,
                    method_at(method as int),
                ));
                match self.fixed[index].endpoints[method] {
                    Some(slot) => {
                        let captures: Vec<usize> = Vec::new();
                        assert(captured(char_lists(segments@), captures@) =~= Seq::empty());
                        return Some((slot, captures));
                    },
                    None => {
                        return self.resolve_pattern(path, segments, method);
                    },
                }
            }
            index += 1;
        }
        proof {
            lemma_fixed_absent(self.fixed@, path@, method as int);
            assert(fixed_bound(self.fixed@, path@, method as int) == fixed_route(
                self.routes@,
                path@,
                method_at(method as int),
            ));
        }
        self.resolve_pattern(path, segments, method)
    }

    fn resolve_pattern(&self, path: &str, segments: &Vec<Vec<char>>, method: usize) -> (found:
        Option<(usize, Vec<usize>)>)
        requires
            method < 9,
            char_lists(segments@) == path_segments(path@),
            fixed_route(self@, path@, method_at(method as int)) is None,
        ensures
            match found {
                Some((slot, captures)) => {
                    &&& resolved(self@, path@, method_at(method as int)) == Some(
                        (slot, captured(char_lists(segments@), captures@)),
                    )
                    &&& slot < self.endpoints@.len()
                    &&& forall|i: int| 0 <= i < captures@.len() ==> captures@[i] < segments@.len()
                },
                None => resolved(self@, path@, method_at(method as int)) is None,
            },
    {
        proof {
            use_type_invariant(self);
        }
        let count: usize = self.endpoints.len();
        let mut captures: Vec<usize> = Vec::new();
        proof {
            assert(captured(char_lists(segments@), captures@) =~= Seq::empty());
            assert(char_lists(segments@).skip(0) =~= char_lists(segments@));
            let left = |pattern: Seq<Segment>| self.root.bound(pattern, method as int);
            let right = |pattern: Seq<Segment>|
                pattern_route(self.routes@, pattern, method_at(method as int));
            assert forall|pattern: Seq<Segment>| #[trigger] left(pattern) == right(pattern) by {
                assert(self.root.bound(pattern, method as int) == pattern_route(
                    self.routes@,
                    pattern,
                    method_at(method as int),
                ));
            }
            lemma_best_same(left, right, Seq::empty(), path_segments(path@), Seq::empty());
            assert(self.routes@.len() == count);
            lemma_best_bounds(
                self.routes@,
                method_at(method as int),
                Seq::empty(),
                path_segments(path@),
                Seq::empty(),
            );
        }
        match self.root.walk(segments, 0, method, &mut captures) {
            Some(slot) => Some((slot, captures)),
            None => None,
        }
    }

    fn allowed(&self, path: &str, segments: &Vec<Vec<char>>) -> (allowed: Vec<HttpMethod>)
        requires
            char_lists(segments@) == path_segments(path@),
        ensures
            allowed@ == allowed_methods(self@, path@),
    {
        let ghost answers = |method: HttpMethod| resolved(self@, path@, method) is Some;
        let mut allowed: Vec<HttpMethod> = Vec::new();
        let mut rank: usize = 0;
        proof {
            reveal(Seq::filter);
            assert(all_methods().take(0) =~= Seq::empty());
            assert(allowed@ =~= all_methods().take(0).filter(answers));
        }
        while rank < 9
            invariant
                rank <= 9,
                char_lists(segments@) == path_segments(path@),
                answers == (|method: HttpMethod| resolved(self@, path@, method) is Some),
                allowed@ == all_methods().take(rank as int).filter(answers),
            decreases 9 - rank,
        {
            proof {
                reveal(Seq::filter);
                let next = all_methods().take(rank + 1);
                assert(next.drop_last() =~= all_methods().take(rank as int));
                assert(next.last() == method_at(rank as int));
            }
            if self.resolve(path, segments, rank).is_some() {
                allowed.push(method_of(rank));
            }
            rank += 1;
        }
        assert(all_methods().take(9) =~= all_methods());
        allowed
    }

    /// Resolves an HTTP method and path to a direct executable operation slot.
    /// A miss tells a path that answers other methods from an unknown one.
    pub fn recognize<'router>(&'router self, method: HttpMethod, path: &str) -> (result: Result<
        RouteMatch<'router>,
        RouteError,
    >)
        ensures
            match result {
                Ok(found) => resolved(self@, path@, method) matches Some((slot, captures)) && slot
                    < self@.len() && found@ == match_of(self@[slot as int], captures),
                Err(RouteError::NotFound) => forall|other: HttpMethod|
                    resolved(self@, path@, other) is None,
                Err(RouteError::MethodNotAllowed { allowed }) => resolved(
                    self@,
                    path@,
                    method,
                ) is None && allowed@ == allowed_methods(self@, path@) && allowed@.len() > 0,
            },
    {
        proof {
            use_type_invariant(self);
        }
        let segments = segments_of(path);
        let rank: usize = method.rank();
        assert(method_at(rank as int) == method);
        match self.resolve(path, &segments, rank) {
            Some((slot, positions)) => {
                let mut captures: Vec<String> = Vec::new();
                let mut index: usize = 0;
                while index < positions.len()
                    invariant
                        index <= positions@.len(),
                        captures@.len() == index,
                        forall|i: int|
                            0 <= i < positions@.len() ==> positions@[i] < segments@.len(),
                        forall|i: int|
                            0 <= i < index ==> (#[trigger] captures@[i])@ == char_lists(
                                segments@,
                            )[positions@[i] as int],
                    decreases positions@.len() - index,
                {
                    captures.push(string_from(segments[positions[index]].as_slice()));
                    index += 1;
                }
                let found = RouteMatch { endpoint: &self.endpoints[slot], captures };
                proof {
                    assert(found@.captures =~= captured(char_lists(segments@), positions@));
                    assert(endpoint_matches(self.endpoints@[slot as int], self@[slot as int]));
                }
                Ok(found)
            },
            None => {
                let allowed = self.allowed(path, &segments);
                if allowed.len() == 0 {
                    proof {
                        assert forall|other: HttpMethod| resolved(self@, path@, other) is None by {
                            let answers = |method: HttpMethod| resolved(self@, path@, method)
                                is Some;
                            if answers(other) {
                                let at = method_rank(other);
                                assert(all_methods()[at] == other);
                                all_methods().lemma_filter_contains_rev(answers, other);
                                assert(allowed_methods(self@, path@).contains(other));
                            }
                        }
                    }
                    Err(RouteError::NotFound)
                } else {
                    Err(RouteError::MethodNotAllowed { allowed })
                }
            },
        }
    }
}

// ---------------------------------------------------------------------------
// Laws of resolution
// ---------------------------------------------------------------------------

/// A pattern that fits a list of segments: the fixed segments are the same.
pub open spec fn fits(pattern: Seq<Segment>, segments: Seq<Seq<char>>) -> bool {
    &&& pattern.len() == segments.len()
    &&& forall|i: int|
        0 <= i < pattern.len() ==> (#[trigger] pattern[i] matches Segment::Fixed(segment)
            ==> segment == segments[i])
}

/// What the parameters of a pattern stand for.
pub open spec fn captures_of(pattern: Seq<Segment>, segments: Seq<Seq<char>>) -> Seq<Seq<char>>
    decreases pattern.len(),
{
    if pattern.len() == 0 || segments.len() == 0 {
        Seq::empty()
    } else {
        (match pattern[0] {
            Segment::Fixed(_) => Seq::empty(),
            Segment::Parameter => seq![segments[0]],
        }) + captures_of(pattern.drop_first(), segments.drop_first())
    }
}

/// Whether the first difference between two patterns is a fixed segment of
/// the first against a parameter of the second.
pub open spec fn preferred(pattern: Seq<Segment>, other: Seq<Segment>) -> bool
    decreases pattern.len(),
{
    if pattern.len() == 0 || other.len() == 0 {
        true
    } else if pattern[0] == other[0] {
        preferred(pattern.drop_first(), other.drop_first())
    } else {
        pattern[0] is Fixed
    }
}

proof fn lemma_best_found(
    bound: spec_fn(Seq<Segment>) -> Option<usize>,
    done: Seq<Segment>,
    rest: Seq<Seq<char>>,
    captures: Seq<Seq<char>>,
) -> (pattern: Seq<Segment>)
    requires
        best(bound, done, rest, captures) is Some,
    ensures
        fits(pattern, rest),
        best(bound, done, rest, captures) == Some(
            (bound(done + pattern)->Some_0, captures + captures_of(pattern, rest)),
        ),
        bound(done + pattern) is Some,
        forall|other: Seq<Segment>|
            fits(other, rest) && #[trigger] bound(done + other) is Some ==> preferred(
                pattern,
                other,
            ),
    decreases rest.len(),
{
    if rest.len() == 0 {
        let pattern = Seq::<Segment>::empty();
        assert(done + pattern =~= done);
        assert(captures + captures_of(pattern, rest) =~= captures);
        pattern
    } else {
        let fixed = Segment::Fixed(rest[0]);
        let tail = rest.drop_first();
        let first = if best(bound, done.push(fixed), tail, captures) is Some {
            fixed
        } else {
            Segment::Parameter
        };
        let kept = if first is Fixed {
            captures
        } else {
            captures.push(rest[0])
        };
        let inner = lemma_best_found(bound, done.push(first), tail, kept);
        let pattern = seq![first] + inner;
        assert(pattern.drop_first() =~= inner);
        assert(done.push(first) + inner =~= done + pattern);
        assert(captures + captures_of(pattern, rest) =~= kept + captures_of(inner, tail));
        assert forall|i: int| 0 <= i < pattern.len() implies (
        #[trigger] pattern[i] matches Segment::Fixed(segment) ==> segment == rest[i]) by {
            if i > 0 {
                assert(pattern[i] == inner[i - 1]);
            }
        }
        assert forall|other: Seq<Segment>|
            fits(other, rest) && #[trigger] bound(done + other) is Some implies preferred(
            pattern,
            other,
        ) by {
            let remainder = other.drop_first();
            assert(done.push(other[0]) + remainder =~= done + other);
            assert forall|i: int| 0 <= i < remainder.len() implies (
            #[trigger] remainder[i] matches Segment::Fixed(segment) ==> segment == tail[i]) by {
                assert(remainder[i] == other[i + 1]);
            }
            assert(other[0] matches Segment::Fixed(segment) ==> segment == rest[0]);
            if other[0] == first {
                assert(bound(done.push(first) + remainder) is Some);
            } else if first is Parameter {
                lemma_best_complete(bound, done.push(fixed), tail, captures, remainder);
            }
        }
        pattern
    }
}

proof fn lemma_best_complete(
    bound: spec_fn(Seq<Segment>) -> Option<usize>,
    done: Seq<Segment>,
    rest: Seq<Seq<char>>,
    captures: Seq<Seq<char>>,
    pattern: Seq<Segment>,
)
    requires
        fits(pattern, rest),
        bound(done + pattern) is Some,
    ensures
        best(bound, done, rest, captures) is Some,
    decreases rest.len(),
{
    if rest.len() == 0 {
        assert(done + pattern =~= done);
    } else {
        let remainder = pattern.drop_first();
        let tail = rest.drop_first();
        assert(done.push(pattern[0]) + remainder =~= done + pattern);
        assert forall|i: int| 0 <= i < remainder.len() implies (
        #[trigger] remainder[i] matches Segment::Fixed(segment) ==> segment == tail[i]) by {
            assert(remainder[i] == pattern[i + 1]);
        }
        match pattern[0] {
            Segment::Fixed(segment) => {
                assert(segment == rest[0]);
                lemma_best_complete(bound, done.push(pattern[0]), tail, captures, remainder);
            },
            Segment::Parameter => {
                lemma_best_complete(
                    bound,
                    done.push(pattern[0]),
                    tail,
                    captures.push(rest[0]),
                    remainder,
                );
            },
        }
    }
}

/// A request that no exact path answers resolves to a route whose pattern fits
/// it, with the segments at the parameters as captures; and among all routes
/// that fit, the one that is fixed where the others first differ.
pub proof fn law_resolution_fits_and_prefers_fixed_segments(
    routes: Seq<RouteEntry>,
    path: Seq<char>,
    method: HttpMethod,
) -> (pattern: Seq<Segment>)
    requires
        fixed_route(routes, path, method) is None,
        resolved(routes, path, method) is Some,
    ensures
        fits(pattern, path_segments(path)),
        pattern_route(routes, pattern, method) is Some,
        resolved(routes, path, method) == Some(
            (
                pattern_route(routes, pattern, method)->Some_0,
                captures_of(pattern, path_segments(path)),
            ),
        ),
        forall|other: Seq<Segment>|
            fits(other, path_segments(path)) && (#[trigger] pattern_route(
                routes,
                other,
                method,
            )) is Some ==> preferred(pattern, other),
{
    let bound = |pattern: Seq<Segment>| pattern_route(routes, pattern, method);
    let rest = path_segments(path);
    let empty = Seq::<Segment>::empty();
    let pattern = lemma_best_found(bound, empty, rest, Seq::empty());
    assert(empty + pattern =~= pattern);
    assert(Seq::<Seq<char>>::empty() + captures_of(pattern, rest) =~= captures_of(pattern, rest));
    assert forall|other: Seq<Segment>|
        fits(other, rest) && (#[trigger] pattern_route(routes, other, method)) is Some implies preferred(
        pattern,
        other,
    ) by {
        assert(empty + other =~= other);
        assert(bound(empty + other) is Some);
    }
    pattern
}

/// A request resolves whenever some registered pattern fits it.
pub proof fn law_fitting_routes_are_found(
    routes: Seq<RouteEntry>,
    path: Seq<char>,
    method: HttpMethod,
    pattern: Seq<Segment>,
)
    requires
        fits(pattern, path_segments(path)),
        pattern_route(routes, pattern, method) is Some,
    ensures
        resolved(routes, path, method) is Some,
{
    let bound = |pattern: Seq<Segment>| pattern_route(routes, pattern, method);
    assert(Seq::<Segment>::empty() + pattern =~= pattern);
    lemma_best_complete(bound, Seq::empty(), path_segments(path), Seq::empty(), pattern);
}

// ---------------------------------------------------------------------------
// What a route answers
// ---------------------------------------------------------------------------

/// A path is its segments behind a slash.
pub proof fn law_paths_are_their_segments(segments: Seq<Seq<char>>)
    requires
        segments.len() > 0,
        forall|i: int, j: int|
            0 <= i < segments.len() && 0 <= j < segments[i].len() ==> #[trigger] segments[i][j]
                != '/',
    ensures
        path_segments(seq!['/'] + joined_by(segments, '/')) == segments,
{
    let path = seq!['/'] + joined_by(segments, '/');
    assert(path[0] == '/');
    assert(path.drop_first() =~= joined_by(segments, '/'));
    law_joined_texts_are_split_again(segments, '/');
}

/// A segment is a parameter if and only if it is a name in braces, and the
/// parameter goes by that name.
pub proof fn law_parameters_stand_in_braces(segment: Seq<char>)
    ensures
        match parameter_name(segment) {
            Some(name) => name.len() > 0 && segment == seq!['{'] + name + seq!['}'],
            None => forall|name: Seq<char>|
                name.len() > 0 ==> segment != #[trigger] (seq!['{'] + name + seq!['}']),
        },
{
    match parameter_name(segment) {
        Some(name) => {
            assert(segment =~= seq!['{'] + name + seq!['}']);
        },
        None => {
            assert forall|name: Seq<char>| name.len() > 0 implies segment != #[trigger] (seq!['{']
                + name + seq!['}']) by {
                let braced = seq!['{'] + name + seq!['}'];
                assert(braced[0] == '{');
                assert(braced.last() == '}');
                assert(braced.len() == name.len() + 2);
            }
        },
    }
}

/// A route without parameters answers exactly its own path, for its own method.
pub proof fn law_exact_routes_answer_their_path(
    routes: Seq<RouteEntry>,
    path: Seq<char>,
    method: HttpMethod,
)
    requires
        routes.len() <= usize::MAX,
    ensures
        match fixed_route(routes, path, method) {
            Some(slot) => {
                &&& slot < routes.len()
                &&& routes[slot as int].path == path
                &&& routes[slot as int].method == method
                &&& parameter_names(routes[slot as int].path).len() == 0
                &&& resolved(routes, path, method) == Some((slot, Seq::<Seq<char>>::empty()))
            },
            None => forall|i: int|
                0 <= i < routes.len() ==> !((#[trigger] routes[i]).path == path && routes[i].method
                    == method && parameter_names(routes[i].path).len() == 0),
        },
    decreases routes.len(),
{
    if routes.len() > 0 {
        let last = routes.last();
        if !(parameter_names(last.path).len() == 0 && last.path == path && last.method == method) {
            let head = routes.drop_last();
            law_exact_routes_answer_their_path(head, path, method);
            assert forall|i: int| 0 <= i < head.len() implies #[trigger] routes[i] == head[i] by {}
        }
    }
}

/// A route with parameters answers for its own method and pattern.
pub proof fn law_pattern_routes_answer_their_pattern(
    routes: Seq<RouteEntry>,
    pattern: Seq<Segment>,
    method: HttpMethod,
)
    requires
        routes.len() <= usize::MAX,
    ensures
        match pattern_route(routes, pattern, method) {
            Some(slot) => {
                &&& slot < routes.len()
                &&& pattern_of(routes[slot as int].path) == pattern
                &&& routes[slot as int].method == method
                &&& parameter_names(routes[slot as int].path).len() > 0
            },
            None => forall|i: int|
                0 <= i < routes.len() ==> !(pattern_of((#[trigger] routes[i]).path) == pattern
                    && routes[i].method == method && parameter_names(routes[i].path).len() > 0),
        },
    decreases routes.len(),
{
    if routes.len() > 0 {
        let last = routes.last();
        if !(parameter_names(last.path).len() > 0 && pattern_of(last.path) == pattern && last.method
            == method) {
            let head = routes.drop_last();
            law_pattern_routes_answer_their_pattern(head, pattern, method);
            assert forall|i: int| 0 <= i < head.len() implies #[trigger] routes[i] == head[i] by {}
        }
    }
}

/// A method is allowed at a path if and only if a request with it resolves there,
/// whatever the method.
pub proof fn law_allowed_methods_resolve(
    routes: Seq<RouteEntry>,
    path: Seq<char>,
    method: HttpMethod,
)
    ensures
        allowed_methods(routes, path).contains(method) <==> resolved(routes, path, method) is Some,
{
    let allowed = |method: HttpMethod| resolved(routes, path, method) is Some;
    let all = all_methods();
    let kept = all.filter(allowed);
    assert(all.contains(method)) by {
        let at: int = match method {
            HttpMethod::Get => 0,
            HttpMethod::Head => 1,
            HttpMethod::Post => 2,
            HttpMethod::Put => 3,
            HttpMethod::Patch => 4,
            HttpMethod::Delete => 5,
            HttpMethod::Options => 6,
            HttpMethod::Trace => 7,
            HttpMethod::Connect => 8,
        };
        assert(all[at] == method);
    }
    let at = choose|at: int| 0 <= at < all.len() && all[at] == method;
    if resolved(routes, path, method) is Some {
        assert(allowed(all[at]));
        all.lemma_filter_contains(allowed, at);
    }
    if kept.contains(method) {
        let k = choose|k: int| 0 <= k < kept.len() && kept[k] == method;
        all.lemma_filter_pred(allowed, k);
    }
}

proof fn lemma_captures_end(
    pattern: Seq<Segment>,
    segments: Seq<Seq<char>>,
    last: Segment,
    segment: Seq<char>,
)
    requires
        pattern.len() == segments.len(),
    ensures
        captures_of(pattern.push(last), segments.push(segment)) == captures_of(pattern, segments)
            + (match last {
            Segment::Fixed(_) => Seq::<Seq<char>>::empty(),
            Segment::Parameter => seq![segment],
        }),
    decreases pattern.len(),
{
    let p = pattern.push(last);
    let s = segments.push(segment);
    let end = match last {
        Segment::Fixed(_) => Seq::<Seq<char>>::empty(),
        Segment::Parameter => seq![segment],
    };
    if pattern.len() == 0 {
        assert(p.drop_first() =~= Seq::<Segment>::empty());
        assert(captures_of(p.drop_first(), s.drop_first()) =~= Seq::<Seq<char>>::empty());
        assert(captures_of(p, s) =~= captures_of(pattern, segments) + end);
    } else {
        lemma_captures_end(pattern.drop_first(), segments.drop_first(), last, segment);
        assert(p.drop_first() =~= pattern.drop_first().push(last));
        assert(s.drop_first() =~= segments.drop_first().push(segment));
        assert(p[0] == pattern[0] && s[0] == segments[0]);
        assert(captures_of(p, s) =~= captures_of(pattern, segments) + end);
    }
}

proof fn lemma_named_captures(
    declared: Seq<Seq<char>>,
    segments: Seq<Seq<char>>,
    count: int,
    at: int,
)
    requires
        declared.len() == segments.len(),
        0 <= at < count <= declared.len(),
        parameter_name(declared[at]) is Some,
    ensures
        ({
            let names = names_in(declared.take(count));
            let captures = captures_of(pattern_list(declared.take(count)), segments.take(count));
            let before = names_in(declared.take(at)).len();
            &&& names.len() == captures.len()
            &&& before < names.len()
            &&& names[before as int] == parameter_name(declared[at])->Some_0
            &&& captures[before as int] == segments[at]
            &&& names.take(before as int) == names_in(declared.take(at))
        }),
    decreases count,
{
    lemma_capture_counts(declared, segments, count - 1);
    lemma_capture_counts(declared, segments, at);
    let names = names_in(declared.take(count));
    let captures = captures_of(pattern_list(declared.take(count)), segments.take(count));
    let head = declared.take(count - 1);
    assert(declared.take(count).drop_last() =~= head);
    assert(declared.take(count).last() == declared[count - 1]);
    assert(pattern_list(declared.take(count)) =~= pattern_list(head).push(
        if parameter_name(declared[count - 1]) is Some {
            Segment::Parameter
        } else {
            Segment::Fixed(declared[count - 1])
        },
    ));
    assert(segments.take(count) =~= segments.take(count - 1).push(segments[count - 1]));
    lemma_captures_end(
        pattern_list(head),
        segments.take(count - 1),
        if parameter_name(declared[count - 1]) is Some {
            Segment::Parameter
        } else {
            Segment::Fixed(declared[count - 1])
        },
        segments[count - 1],
    );
    let before = names_in(declared.take(at)).len() as int;
    if at < count - 1 {
        lemma_named_captures(declared, segments, count - 1, at);
        assert(names.take(before) =~= names_in(head).take(before));
    } else {
        assert(names.take(before) =~= names_in(head));
    }
}

proof fn lemma_capture_counts(declared: Seq<Seq<char>>, segments: Seq<Seq<char>>, count: int)
    requires
        declared.len() == segments.len(),
        0 <= count <= declared.len(),
    ensures
        names_in(declared.take(count)).len() == captures_of(
            pattern_list(declared.take(count)),
            segments.take(count),
        ).len(),
    decreases count,
{
    if count > 0 {
        let head = declared.take(count - 1);
        lemma_capture_counts(declared, segments, count - 1);
        let last = if parameter_name(declared[count - 1]) is Some {
            Segment::Parameter
        } else {
            Segment::Fixed(declared[count - 1])
        };
        assert(declared.take(count).drop_last() =~= head);
        assert(pattern_list(declared.take(count)) =~= pattern_list(head).push(last));
        assert(segments.take(count) =~= segments.take(count - 1).push(segments[count - 1]));
        lemma_captures_end(pattern_list(head), segments.take(count - 1), last, segments[count - 1]);
    }
}

proof fn lemma_position(list: Seq<Seq<char>>, text: Seq<char>, at: int)
    requires
        0 <= at < list.len(),
        list[at] == text,
        forall|i: int| 0 <= i < at ==> #[trigger] list[i] != text,
    ensures
        position_of(list, text) == Some(at),
    decreases list.len(),
{
    if at > 0 {
        assert(list[0] != text);
        let rest = list.drop_first();
        assert forall|i: int| 0 <= i < at - 1 implies #[trigger] rest[i] != text by {
            assert(list[i + 1] != text);
        }
        lemma_position(rest, text, at - 1);
    }
}

proof fn lemma_names_are_declared(declared: Seq<Seq<char>>, count: int, name: Seq<char>)
    requires
        0 <= count <= declared.len(),
        forall|i: int|
            0 <= i < count ==> parameter_name(#[trigger] declared[i]) != Some(name),
    ensures
        forall|k: int|
            0 <= k < names_in(declared.take(count)).len() ==> #[trigger] names_in(
                declared.take(count),
            )[k] != name,
    decreases count,
{
    if count > 0 {
        lemma_names_are_declared(declared, count - 1, name);
        assert(declared.take(count).drop_last() =~= declared.take(count - 1));
        assert(declared.take(count).last() == declared[count - 1]);
        let before = names_in(declared.take(count - 1));
        let names = names_in(declared.take(count));
        assert forall|k: int| 0 <= k < names.len() implies #[trigger] names[k] != name by {
            if k < before.len() {
                assert(names[k] == before[k]);
            }
        }
    }
}

/// A path parameter is the segment of the request that stands where the route
/// names the parameter, with its escapes read.
pub proof fn law_path_parameters_are_their_segments(
    route: RouteEntry,
    path: Seq<char>,
    at: int,
    name: Seq<char>,
)
    requires
        fits(pattern_of(route.path), path_segments(path)),
        0 <= at < path_segments(route.path).len(),
        parameter_name(path_segments(route.path)[at]) == Some(name),
        forall|i: int|
            0 <= i < at ==> parameter_name(#[trigger] path_segments(route.path)[i]) != Some(name),
    ensures
        parameter_value(
            match_of(route, captures_of(pattern_of(route.path), path_segments(path))),
            name,
        ) == decoded(path_segments(path)[at], false),
{
    let declared = path_segments(route.path);
    let segments = path_segments(path);
    let count = declared.len() as int;
    assert(declared.len() == segments.len());
    lemma_named_captures(declared, segments, count, at);
    assert(declared.take(count) =~= declared);
    assert(segments.take(count) =~= segments);
    let names = names_in(declared);
    let before = names_in(declared.take(at)).len() as int;
    lemma_names_are_declared(declared, at, name);
    assert forall|i: int| 0 <= i < before implies #[trigger] names[i] != name by {
        assert(names.take(before)[i] == names[i]);
    }
    lemma_position(names, name, before);
}

/// The body of an operation comes from the first of its inputs that is read from a
/// body; an operation without one has none.
pub proof fn law_bodies_come_from_body_inputs(inputs: Seq<InputView>)
    ensures
        match body_source_spec(inputs) {
            Some(source) => exists|i: int|
                0 <= i < inputs.len() && (#[trigger] inputs[i]).source == source
                    && reads_the_body(source) && forall|j: int|
                    0 <= j < i ==> !reads_the_body((#[trigger] inputs[j]).source),
            None => forall|j: int|
                0 <= j < inputs.len() ==> !reads_the_body((#[trigger] inputs[j]).source),
        },
    decreases inputs.len(),
{
    if inputs.len() > 0 {
        let rest = inputs.drop_first();
        if reads_the_body(inputs[0].source) {
            assert(inputs[0].source == inputs[0].source);
        } else {
            law_bodies_come_from_body_inputs(rest);
            match body_source_spec(rest) {
                Some(source) => {
                    let i = choose|i: int|
                        0 <= i < rest.len() && (#[trigger] rest[i]).source == source
                            && reads_the_body(source) && forall|j: int|
                            0 <= j < i ==> !reads_the_body((#[trigger] rest[j]).source);
                    assert(inputs[i + 1].source == source);
                    assert forall|j: int| 0 <= j < i + 1 implies !reads_the_body(
                        (#[trigger] inputs[j]).source,
                    ) by {
                        if j > 0 {
                            assert(!reads_the_body(rest[j - 1].source));
                        }
                    }
                },
                None => {
                    assert forall|j: int| 0 <= j < inputs.len() implies !reads_the_body(
                        (#[trigger] inputs[j]).source,
                    ) by {
                        if j > 0 {
                            assert(!reads_the_body(rest[j - 1].source));
                        }
                    }
                },
            }
        }
    }
}

/// A source that is read from the body of a request: all but the path, the query,
/// the headers and the cookies.
pub open spec fn reads_the_body(source: InputSource) -> bool {
    source != InputSource::Path && source != InputSource::Query && source != InputSource::Header
        && source != InputSource::Cookie
}

} // verus!
