//! HTTP requests as plain values.
use crate::application::HttpMethod;
use crate::json::{compact_json, compact_text, JsonValue};
use crate::operation::{headers_view, HeaderView, ResponseHeader};
use crate::text::{
    chars_of, cut_chars, eq_ignore_ascii_case, eq_text, lemma_before_total,
    lemma_before_transitive, lower_all, lower_text, string_from, text_before, text_before_spec,
};
use crate::url::{header_name_matches, header_of_argument, path_of};
use vstd::prelude::*;
use vstd::string::*;
use vstd::utf8::encode_utf8;

verus! {

/// The part of a target before its query.
pub fn target_path(target: &str) -> (path: String)
    ensures
        path@ == path_of(target@),
{
    let characters = chars_of(target);
    match cut_chars(characters.as_slice(), '?') {
        Some((path, _)) => string_from(path),
        None => target.to_owned(),
    }
}

/// An owned request whose peer is known by an `A`.
///
/// Headers are kept under lower-case names, in the order of those names.
#[derive(Debug, PartialEq, Eq)]
pub struct Request<A> {
    pub method: HttpMethod,
    pub target: String,
    pub headers: Vec<ResponseHeader>,
    pub body: Vec<u8>,
    pub peer_addr: Option<A>,
    pub scheme: String,
}

/// The names of headers are in strictly increasing order.
pub open spec fn in_name_order(headers: Seq<HeaderView>) -> bool {
    forall|i: int, j: int|
        0 <= i < j < headers.len() ==> text_before_spec(
            (#[trigger] headers[i]).name,
            (#[trigger] headers[j]).name,
        )
}

/// Headers with one set under its name, in the order of names.
pub open spec fn set_in_order(headers: Seq<HeaderView>, header: HeaderView) -> Seq<HeaderView>
    decreases headers.len(),
{
    if headers.len() == 0 {
        seq![header]
    } else if headers[0].name == header.name {
        seq![header] + headers.drop_first()
    } else if text_before_spec(header.name, headers[0].name) {
        seq![header] + headers
    } else {
        seq![headers[0]] + set_in_order(headers.drop_first(), header)
    }
}

/// The value of the header with exactly a name.
pub open spec fn exact_value(headers: Seq<HeaderView>, name: Seq<char>) -> Option<Seq<char>>
    decreases headers.len(),
{
    if headers.len() == 0 {
        None
    } else if headers[0].name == name {
        Some(headers[0].value)
    } else {
        exact_value(headers.drop_first(), name)
    }
}

/// The value of the first header with a name, whatever its letters' case.
pub open spec fn loose_value(headers: Seq<HeaderView>, name: Seq<char>) -> Option<Seq<char>>
    decreases headers.len(),
{
    if headers.len() == 0 {
        None
    } else if lower_all(headers[0].name) == lower_all(name) {
        Some(headers[0].value)
    } else {
        loose_value(headers.drop_first(), name)
    }
}

/// The value of the nth header that an argument name stands for.
pub open spec fn nth_header(headers: Seq<HeaderView>, name: Seq<char>, index: nat) -> Option<
    Seq<char>,
>
    decreases headers.len(),
{
    if headers.len() == 0 {
        None
    } else if headers[0].name == header_of_argument(name) {
        if index == 0 {
            Some(headers[0].value)
        } else {
            nth_header(headers.drop_first(), name, (index - 1) as nat)
        }
    } else {
        nth_header(headers.drop_first(), name, index)
    }
}

/// A request without headers, body and peer.
pub open spec fn is_bare<A>(request: Request<A>, method: HttpMethod, target: Seq<char>) -> bool {
    &&& request.method == method
    &&& request.target@ == target
    &&& request.headers@.len() == 0
    &&& request.body@.len() == 0
    &&& request.peer_addr is None
    &&& request.scheme@ == "http"@
}

fn find_exact(headers: &Vec<ResponseHeader>, name: &str) -> (value: Option<usize>)
    ensures
        match value {
            Some(at) => at < headers@.len() && exact_value(headers_view(headers@), name@) == Some(
                headers@[at as int].value@,
            ),
            None => exact_value(headers_view(headers@), name@) is None,
        },
{
    let ghost views = headers_view(headers@);
    let mut index: usize = 0;
    assert(views.skip(0) =~= views);
    while index < headers.len()
        invariant
            index <= headers@.len(),
            views == headers_view(headers@),
            exact_value(views, name@) == exact_value(views.skip(index as int), name@),
        decreases headers@.len() - index,
    {
        proof {
            assert(views.skip(index as int)[0] == headers@[index as int]@);
            assert(views.skip(index as int).drop_first() =~= views.skip(index + 1));
        }
        if eq_text(headers[index].name.as_str(), name) {
            return Some(index);
        }
        index += 1;
    }
    None
}

fn find_loose(headers: &Vec<ResponseHeader>, name: &str) -> (value: Option<usize>)
    ensures
        match value {
            Some(at) => at < headers@.len() && loose_value(headers_view(headers@), name@) == Some(
                headers@[at as int].value@,
            ),
            None => loose_value(headers_view(headers@), name@) is None,
        },
{
    let ghost views = headers_view(headers@);
    let mut index: usize = 0;
    assert(views.skip(0) =~= views);
    while index < headers.len()
        invariant
            index <= headers@.len(),
            views == headers_view(headers@),
            loose_value(views, name@) == loose_value(views.skip(index as int), name@),
        decreases headers@.len() - index,
    {
        proof {
            assert(views.skip(index as int)[0] == headers@[index as int]@);
            assert(views.skip(index as int).drop_first() =~= views.skip(index + 1));
        }
        if eq_ignore_ascii_case(headers[index].name.as_str(), name) {
            return Some(index);
        }
        index += 1;
    }
    None
}

impl<A> Request<A> {
    #[must_use]
    pub fn new(method: HttpMethod, target: &str) -> (request: Self)
        ensures
            is_bare(request, method, target@),
    {
        Request {
            method,
            target: target.to_owned(),
            headers: Vec::new(),
            body: Vec::new(),
            peer_addr: None,
            scheme: "http".to_owned(),
        }
    }

    #[must_use]
    pub fn get(target: &str) -> (request: Self)
        ensures
            is_bare(request, HttpMethod::Get, target@),
    {
        Request::new(HttpMethod::Get, target)
    }

    #[must_use]
    pub fn head(target: &str) -> (request: Self)
        ensures
            is_bare(request, HttpMethod::Head, target@),
    {
        Request::new(HttpMethod::Head, target)
    }

    #[must_use]
    pub fn post(target: &str) -> (request: Self)
        ensures
            is_bare(request, HttpMethod::Post, target@),
    {
        Request::new(HttpMethod::Post, target)
    }

    #[must_use]
    pub fn put(target: &str) -> (request: Self)
        ensures
            is_bare(request, HttpMethod::Put, target@),
    {
        Request::new(HttpMethod::Put, target)
    }

    #[must_use]
    pub fn patch(target: &str) -> (request: Self)
        ensures
            is_bare(request, HttpMethod::Patch, target@),
    {
        Request::new(HttpMethod::Patch, target)
    }

    #[must_use]
    pub fn delete(target: &str) -> (request: Self)
        ensures
            is_bare(request, HttpMethod::Delete, target@),
    {
        Request::new(HttpMethod::Delete, target)
    }

    #[must_use]
    pub fn options(target: &str) -> (request: Self)
        ensures
            is_bare(request, HttpMethod::Options, target@),
    {
        Request::new(HttpMethod::Options, target)
    }

    #[must_use]
    pub fn trace(target: &str) -> (request: Self)
        ensures
            is_bare(request, HttpMethod::Trace, target@),
    {
        Request::new(HttpMethod::Trace, target)
    }

    #[must_use]
    pub fn connect(target: &str) -> (request: Self)
        ensures
            is_bare(request, HttpMethod::Connect, target@),
    {
        Request::new(HttpMethod::Connect, target)
    }

    #[must_use]
    pub fn method(&self) -> (method: HttpMethod)
        ensures
            method == self.method,
    {
        self.method
    }

    #[must_use]
    pub fn target(&self) -> (target: &str)
        ensures
            target@ == self.target@,
    {
        self.target.as_str()
    }

    /// The target without its query.
    #[must_use]
    pub fn path(&self) -> (path: String)
        ensures
            path@ == path_of(self.target@),
    {
        target_path(self.target.as_str())
    }

    /// Sets a header under its lower-case name.
    #[must_use]
    pub fn header(self, name: &str, value: &str) -> (request: Self)
        ensures
            request == (Request { headers: request.headers, ..self }),
            headers_view(request.headers@) == set_in_order(
                headers_view(self.headers@),
                HeaderView { name: lower_all(name@), value: value@ },
            ),
    {
        let mut updated = self;
        let lowered = lower_text(name);
        let header = ResponseHeader::new(lowered.as_str(), value);
        let ghost views = headers_view(updated.headers@);
        let ghost added = header@;
        let mut index: usize = 0;
        proof {
            assert(views.skip(0) =~= views);
            assert(views.take(0) + set_in_order(views, added) =~= set_in_order(views, added));
        }
        while index < updated.headers.len() && !eq_text(
            updated.headers[index].name.as_str(),
            lowered.as_str(),
        ) && !text_before(lowered.as_str(), updated.headers[index].name.as_str())
            invariant
                index <= updated.headers@.len(),
                updated == self,
                views == headers_view(updated.headers@),
                added.name == lowered@,
                set_in_order(views, added) == views.take(index as int) + set_in_order(
                    views.skip(index as int),
                    added,
                ),
            decreases updated.headers@.len() - index,
        {
            proof {
                let rest = views.skip(index as int);
                assert(rest[0] == updated.headers@[index as int]@);
                assert(rest.drop_first() =~= views.skip(index + 1));
                assert(views.take(index + 1) =~= views.take(index as int).push(rest[0]));
                assert(views.take(index as int) + (seq![rest[0]] + set_in_order(
                    rest.drop_first(),
                    added,
                )) =~= views.take(index + 1) + set_in_order(views.skip(index + 1), added));
            }
            index += 1;
        }
        let ghost rest = views.skip(index as int);
        if index < updated.headers.len() {
            assert(rest[0] == updated.headers@[index as int]@);
        }
        if index < updated.headers.len() && eq_text(
            updated.headers[index].name.as_str(),
            lowered.as_str(),
        ) {
            updated.headers.set(index, header);
            assert(headers_view(updated.headers@) =~= views.take(index as int) + (seq![added]
                + rest.drop_first()));
        } else {
            updated.headers.insert(index, header);
            proof {
                if index < self.headers@.len() {
                    assert(headers_view(updated.headers@) =~= views.take(index as int) + (
                    seq![added] + rest));
                } else {
                    assert(headers_view(updated.headers@) =~= views.take(index as int) + seq![
                        added,
                    ]);
                }
            }
        }
        updated
    }

    #[must_use]
    pub fn body(self, body: Vec<u8>) -> (request: Self)
        ensures
            request == (Request { body, ..self }),
    {
        let mut updated = self;
        updated.body = body;
        updated
    }

    /// Sets the direct peer address.
    #[must_use]
    pub fn peer_addr(self, peer_addr: A) -> (request: Self)
        ensures
            request == (Request { peer_addr: Some(peer_addr), ..self }),
    {
        let mut updated = self;
        updated.peer_addr = Some(peer_addr);
        updated
    }

    /// Sets the original transport scheme.
    #[must_use]
    pub fn scheme(self, scheme: &str) -> (request: Self)
        ensures
            request.scheme@ == scheme@,
            request == (Request { scheme: request.scheme, ..self }),
    {
        let mut updated = self;
        updated.scheme = scheme.to_owned();
        updated
    }

    /// Serializes a JSON body and sets its media type.
    #[must_use]
    pub fn json(self, value: &JsonValue) -> (request: Option<Self>)
        ensures
            match request {
                Some(request) => {
                    &&& compact_json(value@) matches Some(text) && request.body@ == encode_utf8(
                        text,
                    )
                    &&& headers_view(request.headers@) == set_in_order(
                        headers_view(self.headers@),
                        HeaderView {
                            name: lower_all("content-type"@),
                            value: "application/json"@,
                        },
                    )
                    &&& request == (Request {
                        headers: request.headers,
                        body: request.body,
                        ..self
                    })
                },
                None => compact_json(value@) is None,
            },
    {
        match compact_text(value) {
            Some(text) => {
                let body = vstd::slice::slice_to_vec(text.as_str().as_bytes());
                Some(self.body(body).header("content-type", "application/json"))
            },
            None => None,
        }
    }

    #[must_use]
    pub fn get_header(&self, name: &str) -> (value: Option<&str>)
        ensures
            match value {
                Some(value) => header_read(headers_view(self.headers@), name@) == Some(value@),
                None => header_read(headers_view(self.headers@), name@) is None,
            },
    {
        match find_exact(&self.headers, name) {
            Some(at) => Some(self.headers[at].value.as_str()),
            None => match find_loose(&self.headers, name) {
                Some(at) => Some(self.headers[at].value.as_str()),
                None => None,
            },
        }
    }

    /// The value of the nth header that an argument name stands for.
    #[must_use]
    pub fn header_value(&self, name: &str, index: usize) -> (value: Option<&str>)
        ensures
            match value {
                Some(value) => nth_header(
                    headers_view(self.headers@),
                    name@,
                    index as nat,
                ) == Some(value@),
                None => nth_header(headers_view(self.headers@), name@, index as nat) is None,
            },
    {
        let ghost views = headers_view(self.headers@);
        let mut wanted: usize = index;
        let mut at: usize = 0;
        assert(views.skip(0) =~= views);
        while at < self.headers.len()
            invariant
                at <= self.headers@.len(),
                views == headers_view(self.headers@),
                nth_header(views, name@, index as nat) == nth_header(
                    views.skip(at as int),
                    name@,
                    wanted as nat,
                ),
            decreases self.headers@.len() - at,
        {
            proof {
                assert(views.skip(at as int)[0] == self.headers@[at as int]@);
                assert(views.skip(at as int).drop_first() =~= views.skip(at + 1));
            }
            if header_name_matches(self.headers[at].name.as_str(), name) {
                if wanted == 0 {
                    return Some(self.headers[at].value.as_str());
                }
                wanted -= 1;
            }
            at += 1;
        }
        None
    }

    #[must_use]
    pub fn body_bytes(&self) -> (body: &[u8])
        ensures
            body@ == self.body@,
    {
        self.body.as_slice()
    }
}

/// The value of a header: the one with exactly the name, or else the first
/// whatever the case of its letters.
pub open spec fn header_read(headers: Seq<HeaderView>, name: Seq<char>) -> Option<Seq<char>> {
    match exact_value(headers, name) {
        Some(value) => Some(value),
        None => loose_value(headers, name),
    }
}

/// A request header that was set is read back under its name, and the names
/// stay in order.
pub proof fn law_request_headers_are_read_back(headers: Seq<HeaderView>, header: HeaderView)
    requires
        in_name_order(headers),
    ensures
        in_name_order(set_in_order(headers, header)),
        header_read(set_in_order(headers, header), header.name) == Some(header.value),
    decreases headers.len(),
{
    lemma_set_in_order(headers, header);
    lemma_exact_after_set(headers, header);
}

proof fn lemma_exact_after_set(headers: Seq<HeaderView>, header: HeaderView)
    ensures
        exact_value(set_in_order(headers, header), header.name) == Some(header.value),
    decreases headers.len(),
{
    let after = set_in_order(headers, header);
    if headers.len() == 0 {
    } else if headers[0].name == header.name {
    } else if text_before_spec(header.name, headers[0].name) {
    } else {
        lemma_exact_after_set(headers.drop_first(), header);
        assert(after.drop_first() =~= set_in_order(headers.drop_first(), header));
    }
}

proof fn lemma_set_in_order(headers: Seq<HeaderView>, header: HeaderView)
    requires
        in_name_order(headers),
    ensures
        in_name_order(set_in_order(headers, header)),
        forall|i: int|
            0 <= i < set_in_order(headers, header).len() ==> {
                let name = (#[trigger] set_in_order(headers, header)[i]).name;
                name == header.name || exists|j: int|
                    0 <= j < headers.len() && (#[trigger] headers[j]).name == name
            },
    decreases headers.len(),
{
    let after = set_in_order(headers, header);
    if headers.len() == 0 {
    } else {
        let rest = headers.drop_first();
        assert forall|i: int, j: int| 0 <= i < j < rest.len() implies text_before_spec(
            (#[trigger] rest[i]).name,
            (#[trigger] rest[j]).name,
        ) by {
            assert(rest[i] == headers[i + 1]);
            assert(rest[j] == headers[j + 1]);
        }
        if headers[0].name == header.name {
            assert forall|i: int, j: int| 0 <= i < j < after.len() implies text_before_spec(
                (#[trigger] after[i]).name,
                (#[trigger] after[j]).name,
            ) by {
                assert(after[j] == headers[j]);
                if i > 0 {
                    assert(after[i] == headers[i]);
                }
            }
            assert forall|i: int| 0 <= i < after.len() implies {
                let name = (#[trigger] after[i]).name;
                name == header.name || exists|j: int|
                    0 <= j < headers.len() && (#[trigger] headers[j]).name == name
            } by {
                if i > 0 {
                    assert(after[i] == headers[i]);
                }
            }
        } else if text_before_spec(header.name, headers[0].name) {
            assert forall|i: int, j: int| 0 <= i < j < after.len() implies text_before_spec(
                (#[trigger] after[i]).name,
                (#[trigger] after[j]).name,
            ) by {
                assert(after[j] == headers[j - 1]);
                if i > 0 {
                    assert(after[i] == headers[i - 1]);
                } else if j > 1 {
                    lemma_before_transitive(header.name, headers[0].name, headers[j - 1].name);
                }
            }
            assert forall|i: int| 0 <= i < after.len() implies {
                let name = (#[trigger] after[i]).name;
                name == header.name || exists|j: int|
                    0 <= j < headers.len() && (#[trigger] headers[j]).name == name
            } by {
                if i > 0 {
                    assert(after[i] == headers[i - 1]);
                }
            }
        } else {
            lemma_set_in_order(rest, header);
            let tail = set_in_order(rest, header);
            lemma_before_total(headers[0].name, header.name);
            assert forall|i: int, j: int| 0 <= i < j < after.len() implies text_before_spec(
                (#[trigger] after[i]).name,
                (#[trigger] after[j]).name,
            ) by {
                assert(after[j] == tail[j - 1]);
                if i > 0 {
                    assert(after[i] == tail[i - 1]);
                } else if tail[j - 1].name != header.name {
                    let k = choose|k: int|
                        0 <= k < rest.len() && (#[trigger] rest[k]).name == tail[j - 1].name;
                    assert(rest[k] == headers[k + 1]);
                }
            }
            assert forall|i: int| 0 <= i < after.len() implies {
                let name = (#[trigger] after[i]).name;
                name == header.name || exists|j: int|
                    0 <= j < headers.len() && (#[trigger] headers[j]).name == name
            } by {
                if i > 0 {
                    assert(after[i] == tail[i - 1]);
                    if tail[i - 1].name != header.name {
                        let k = choose|k: int|
                            0 <= k < rest.len() && (#[trigger] rest[k]).name == tail[i - 1].name;
                        assert(headers[k + 1].name == after[i].name);
                    }
                } else {
                    assert(headers[0].name == after[0].name);
                }
            }
        }
    }
}

// ---------------------------------------------------------------------------
// Connections
// ---------------------------------------------------------------------------

/// Normalized transport values readable by a handler. A client is known by an
/// `A`.
#[derive(Clone, Debug, PartialEq, Eq)]
pub struct ConnectionInfo<A> {
    pub client_ip: Option<A>,
    pub scheme: String,
    pub host: Option<String>,
}

impl<A: Copy> ConnectionInfo<A> {
    /// Effective client address after trusted proxy normalization.
    #[must_use]
    pub fn client_ip(&self) -> (client_ip: Option<A>)
        ensures
            client_ip == self.client_ip,
    {
        self.client_ip
    }

    /// Effective request scheme after trusted proxy normalization.
    #[must_use]
    pub fn scheme(&self) -> (scheme: &str)
        ensures
            scheme@ == self.scheme@,
    {
        self.scheme.as_str()
    }

    /// Effective host after trusted proxy normalization.
    #[must_use]
    pub fn host(&self) -> (host: Option<&str>)
        ensures
            match host {
                Some(host) => self.host matches Some(own) && host@ == own@,
                None => self.host is None,
            },
    {
        match &self.host {
            Some(host) => Some(host.as_str()),
            None => None,
        }
    }
}

/// What middleware may replace about a request's connection.
#[derive(Clone, Debug, PartialEq, Eq)]
pub struct HttpRequestContext<A, V> {
    pub client_ip: Option<A>,
    pub scheme: String,
    pub host: Option<String>,
    pub extensions: Vec<(u64, V)>,
}

/// The extension of a type, which is known by a number.
pub open spec fn extension_of<V>(extensions: Seq<(u64, V)>, type_id: u64) -> Option<V>
    decreases extensions.len(),
{
    if extensions.len() == 0 {
        None
    } else if extensions[0].0 == type_id {
        Some(extensions[0].1)
    } else {
        extension_of(extensions.drop_first(), type_id)
    }
}

/// Where the extension of a type stands, from one position on.
spec fn extension_place<V>(extensions: Seq<(u64, V)>, type_id: u64, at: int) -> Option<int>
    decreases extensions.len() - at,
{
    if at < 0 || at >= extensions.len() {
        None
    } else if extensions[at].0 == type_id {
        Some(at)
    } else {
        extension_place(extensions, type_id, at + 1)
    }
}

proof fn lemma_extension_place<V>(extensions: Seq<(u64, V)>, type_id: u64, at: int)
    requires
        0 <= at <= extensions.len(),
    ensures
        extension_of(extensions.skip(at), type_id) == match extension_place(
            extensions,
            type_id,
            at,
        ) {
            Some(place) => Some(extensions[place].1),
            None => None,
        },
        extension_place(extensions, type_id, at) matches Some(place) ==> at <= place
            < extensions.len() && extensions[place].0 == type_id,
    decreases extensions.len() - at,
{
    if at < extensions.len() {
        lemma_extension_place(extensions, type_id, at + 1);
        assert(extensions.skip(at)[0] == extensions[at]);
        assert(extensions.skip(at).drop_first() =~= extensions.skip(at + 1));
    }
}

proof fn lemma_extension_set<V>(
    before: Seq<(u64, V)>,
    after: Seq<(u64, V)>,
    type_id: u64,
    value: V,
    wanted: u64,
    at: int,
)
    requires
        0 <= at <= before.len(),
        match extension_place(before, type_id, at) {
            Some(place) => after == before.update(place, (type_id, value)),
            None => after == before.push((type_id, value)),
        },
    ensures
        extension_of(after.skip(at), wanted) == if wanted == type_id {
            Some(value)
        } else {
            extension_of(before.skip(at), wanted)
        },
    decreases before.len() - at,
{
    lemma_extension_place(before, type_id, at);
    if at < before.len() {
        assert(before.skip(at)[0] == before[at]);
        assert(before.skip(at).drop_first() =~= before.skip(at + 1));
        assert(after.skip(at)[0] == after[at]);
        assert(after.skip(at).drop_first() =~= after.skip(at + 1));
        if before[at].0 == type_id {
            assert(after.skip(at + 1) =~= before.skip(at + 1));
        } else {
            lemma_extension_set(before, after, type_id, value, wanted, at + 1);
        }
    } else {
        assert(after.skip(at) =~= seq![(type_id, value)]);
        assert(after.skip(at).drop_first() =~= Seq::<(u64, V)>::empty());
        assert(before.skip(at) =~= Seq::<(u64, V)>::empty());
    }
}

/// The effective host: the one middleware set, or else the header's.
pub open spec fn effective_host(
    replaced: Option<String>,
    header: Option<Seq<char>>,
) -> Option<Seq<char>> {
    match replaced {
        Some(host) => Some(host@),
        None => header,
    }
}

impl<A: Copy, V> HttpRequestContext<A, V> {
    /// The values of the transport, before any middleware ran.
    #[must_use]
    pub fn new(client_ip: Option<A>, scheme: &str) -> (context: Self)
        ensures
            context.client_ip == client_ip,
            context.scheme@ == scheme@,
            context.host is None,
            context.extensions@.len() == 0,
    {
        HttpRequestContext {
            client_ip,
            scheme: scheme.to_owned(),
            host: None,
            extensions: Vec::new(),
        }
    }

    /// Installs a value of a type, in place of an earlier one.
    pub fn insert_extension(&mut self, type_id: u64, value: V)
        ensures
            forall|wanted: u64| #[trigger]
                extension_of(final(self).extensions@, wanted) == if wanted == type_id {
                    Some(value)
                } else {
                    extension_of(old(self).extensions@, wanted)
                },
            *final(self) == (HttpRequestContext {
                extensions: final(self).extensions,
                ..*old(self)
            }),
    {
        let ghost before = self.extensions@;
        let mut at: usize = 0;
        while at < self.extensions.len() && self.extensions[at].0 != type_id
            invariant
                at <= self.extensions@.len(),
                *self == *old(self),
                before == old(self).extensions@,
                extension_place(before, type_id, 0) == extension_place(before, type_id, at as int),
            decreases self.extensions@.len() - at,
        {
            at += 1;
        }
        if at < self.extensions.len() {
            self.extensions.set(at, (type_id, value));
        } else {
            self.extensions.push((type_id, value));
        }
        proof {
            let after = self.extensions@;
            assert forall|wanted: u64| #[trigger] extension_of(after, wanted) == if wanted
                == type_id {
                Some(value)
            } else {
                extension_of(before, wanted)
            } by {
                lemma_extension_set(before, after, type_id, value, wanted, 0);
                assert(after.skip(0) =~= after);
                assert(before.skip(0) =~= before);
            }
        }
    }

    /// The installed value of a type.
    #[must_use]
    pub fn extension(&self, type_id: u64) -> (value: Option<&V>)
        ensures
            match value {
                Some(value) => extension_of(self.extensions@, type_id) == Some(*value),
                None => extension_of(self.extensions@, type_id) is None,
            },
    {
        let mut at: usize = 0;
        assert(self.extensions@.skip(0) =~= self.extensions@);
        while at < self.extensions.len()
            invariant
                at <= self.extensions@.len(),
                extension_of(self.extensions@, type_id) == extension_of(
                    self.extensions@.skip(at as int),
                    type_id,
                ),
            decreases self.extensions@.len() - at,
        {
            proof {
                let rest = self.extensions@.skip(at as int);
                assert(rest[0] == self.extensions@[at as int]);
                assert(rest.drop_first() =~= self.extensions@.skip(at + 1));
            }
            if self.extensions[at].0 == type_id {
                return Some(&self.extensions[at].1);
            }
            at += 1;
        }
        None
    }

    #[must_use]
    pub fn client_ip(&self) -> (client_ip: Option<A>)
        ensures
            client_ip == self.client_ip,
    {
        self.client_ip
    }

    pub fn set_client_ip(&mut self, client_ip: A)
        ensures
            *final(self) == (HttpRequestContext { client_ip: Some(client_ip), ..*old(self) }),
    {
        self.client_ip = Some(client_ip);
    }

    #[must_use]
    pub fn scheme(&self) -> (scheme: &str)
        ensures
            scheme@ == self.scheme@,
    {
        self.scheme.as_str()
    }

    pub fn set_scheme(&mut self, scheme: &str)
        ensures
            final(self).scheme@ == scheme@,
            *final(self) == (HttpRequestContext { scheme: final(self).scheme, ..*old(self) }),
    {
        self.scheme = scheme.to_owned();
    }

    /// The effective host, where `header` is the request's own.
    #[must_use]
    pub fn host(&self, header: Option<&str>) -> (host: Option<String>)
        ensures
            crate::operation::opt_text(host) == effective_host(
                self.host,
                match header {
                    Some(header) => Some(header@),
                    None => None,
                },
            ),
    {
        match &self.host {
            Some(host) => Some(host.clone()),
            None => match header {
                Some(header) => Some(header.to_owned()),
                None => None,
            },
        }
    }

    pub fn set_host(&mut self, host: &str)
        ensures
            final(self).host matches Some(own) && own@ == host@,
            *final(self) == (HttpRequestContext { host: final(self).host, ..*old(self) }),
    {
        self.host = Some(host.to_owned());
    }

    /// Snapshots the normalized client, scheme, and host, so that they can be
    /// carried into the operation.
    #[must_use]
    pub fn connection_info(&self, header: Option<&str>) -> (info: ConnectionInfo<A>)
        ensures
            info.client_ip == self.client_ip,
            info.scheme@ == self.scheme@,
            crate::operation::opt_text(info.host) == effective_host(
                self.host,
                match header {
                    Some(header) => Some(header@),
                    None => None,
                },
            ),
    {
        ConnectionInfo {
            client_ip: self.client_ip,
            scheme: self.scheme.clone(),
            host: self.host(header),
        }
    }
}

/// The values of a header are counted from the first that has its name: those with
/// other names do not count.
pub proof fn law_headers_are_counted_by_name(
    headers: Seq<HeaderView>,
    name: Seq<char>,
    index: nat,
)
    ensures
        ({
            let own = headers.filter(
                |header: HeaderView| header.name == header_of_argument(name),
            );
            nth_header(headers, name, index) == if index < own.len() {
                Some(own[index as int].value)
            } else {
                None
            }
        }),
    decreases headers.len(),
{
    let pred = |header: HeaderView| header.name == header_of_argument(name);
    let own = headers.filter(pred);
    if headers.len() == 0 {
        reveal(Seq::filter);
    } else {
        let first = seq![headers[0]];
        let rest = headers.drop_first();
        assert(headers =~= first + rest);
        Seq::filter_distributes_over_add(first, rest, pred);
        assert(first.filter(pred) =~= if pred(headers[0]) {
            first
        } else {
            Seq::empty()
        }) by {
            reveal(Seq::filter);
            assert(first.drop_last() =~= Seq::<HeaderView>::empty());
            assert(first.drop_last().filter(pred) =~= Seq::<HeaderView>::empty());
        }
        if pred(headers[0]) {
            assert(own =~= first + rest.filter(pred));
            if index > 0 {
                law_headers_are_counted_by_name(rest, name, (index - 1) as nat);
            }
        } else {
            assert(own =~= rest.filter(pred));
            law_headers_are_counted_by_name(rest, name, index);
        }
    }
}

/// An extension is the first value under its type. One under another type does not
/// hide it.
pub proof fn law_extensions_are_found_by_type<V>(
    extensions: Seq<(u64, V)>,
    type_id: u64,
    at: int,
)
    requires
        0 <= at < extensions.len(),
        extensions[at].0 == type_id,
        forall|i: int| 0 <= i < at ==> (#[trigger] extensions[i]).0 != type_id,
    ensures
        extension_of(extensions, type_id) == Some(extensions[at].1),
    decreases at,
{
    if at > 0 {
        let rest = extensions.drop_first();
        assert forall|i: int| 0 <= i < at - 1 implies (#[trigger] rest[i]).0 != type_id by {
            assert(rest[i] == extensions[i + 1]);
        }
        assert(extensions[0].0 != type_id);
        law_extensions_are_found_by_type(rest, type_id, at - 1);
    }
}

/// A host that was put in place stands for the request's own.
pub proof fn law_replaced_hosts_win(host: String, header: Option<Seq<char>>)
    ensures
        effective_host(Some(host), header) == Some(host@),
        effective_host(None, header) == header,
{
}

/// A header is found whatever the case of its name: the value is that of the first
/// whose name differs from the asked one in capitals only.
pub proof fn law_headers_are_found_in_any_case(
    headers: Seq<HeaderView>,
    name: Seq<char>,
    at: int,
)
    ensures
        loose_value(headers, name) == loose_value(headers, lower_all(name)),
        0 <= at < headers.len() && lower_all(headers[at].name) == lower_all(name) && (forall|i: int|
            0 <= i < at ==> lower_all((#[trigger] headers[i]).name) != lower_all(name))
            ==> loose_value(headers, name) == Some(headers[at].value),
        loose_value(headers, name) is None <==> forall|i: int|
            0 <= i < headers.len() ==> lower_all((#[trigger] headers[i]).name) != lower_all(name),
    decreases headers.len(),
{
    assert(lower_all(lower_all(name)) =~= lower_all(name));
    if headers.len() > 0 {
        let rest = headers.drop_first();
        assert forall|i: int| 0 <= i < rest.len() implies #[trigger] rest[i] == headers[i + 1] by {}
        law_headers_are_found_in_any_case(rest, name, at - 1);
        assert forall|i: int| 0 < i < headers.len() implies #[trigger] headers[i] == rest[i - 1] by {
        }
    }
}

} // verus!
