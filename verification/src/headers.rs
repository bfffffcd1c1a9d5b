//! The headers of a response.
use crate::operation::{HeaderView, ResponseHeader};
use crate::text::{eq_ignore_ascii_case, lower_all};
use vstd::prelude::*;
use vstd::string::*;

verus! {

/// Headers that a response holds without a separate list.
pub const INLINE_RESPONSE_HEADERS: usize = 4;

/// The headers of a response: a few inline places, of which some may be free,
/// and a list for the rest.
#[derive(Clone, Debug, PartialEq, Eq)]
pub struct ResponseHeaders {
    inline: [Option<ResponseHeader>; 4],
    overflow: Vec<ResponseHeader>,
}

/// What the headers of a response say.
#[verifier::ext_equal]
pub struct HeaderSlots {
    pub inline: Seq<Option<HeaderView>>,
    pub overflow: Seq<HeaderView>,
}

/// What an inline place holds.
pub open spec fn place_view(place: Option<ResponseHeader>) -> Option<HeaderView> {
    match place {
        Some(header) => Some(header@),
        None => None,
    }
}

impl View for ResponseHeaders {
    type V = HeaderSlots;

    closed spec fn view(&self) -> HeaderSlots {
        HeaderSlots {
            inline: self.inline@.map_values(|place: Option<ResponseHeader>| place_view(place)),
            overflow: self.overflow@.map_values(|header: ResponseHeader| header@),
        }
    }
}

/// The headers in the inline places, in order.
pub open spec fn present(inline: Seq<Option<HeaderView>>) -> Seq<HeaderView>
    decreases inline.len(),
{
    if inline.len() == 0 {
        Seq::empty()
    } else {
        match inline.last() {
            Some(header) => present(inline.drop_last()).push(header),
            None => present(inline.drop_last()),
        }
    }
}

/// All headers, in the order in which they are sent.
pub open spec fn listed(headers: HeaderSlots) -> Seq<HeaderView> {
    present(headers.inline) + headers.overflow
}

/// A header has a name, whatever its letters' case.
pub open spec fn named(header: HeaderView, name: Seq<char>) -> bool {
    lower_all(header.name) == lower_all(name)
}

/// The first inline place that holds a header with a name.
pub open spec fn inline_at(inline: Seq<Option<HeaderView>>, name: Seq<char>) -> Option<int>
    decreases inline.len(),
{
    if inline.len() == 0 {
        None
    } else {
        match inline_at(inline.drop_last(), name) {
            Some(at) => Some(at),
            None => match inline.last() {
                Some(header) => if named(header, name) {
                    Some(inline.len() - 1)
                } else {
                    None
                },
                None => None,
            },
        }
    }
}

/// The first header of a list with a name.
pub open spec fn listed_at(list: Seq<HeaderView>, name: Seq<char>) -> Option<int>
    decreases list.len(),
{
    if list.len() == 0 {
        None
    } else {
        match listed_at(list.drop_last(), name) {
            Some(at) => Some(at),
            None => if named(list.last(), name) {
                Some(list.len() - 1)
            } else {
                None
            },
        }
    }
}

/// The first free inline place.
pub open spec fn free_at(inline: Seq<Option<HeaderView>>) -> Option<int>
    decreases inline.len(),
{
    if inline.len() == 0 {
        None
    } else {
        match free_at(inline.drop_last()) {
            Some(at) => Some(at),
            None => if inline.last() is None {
                Some(inline.len() - 1)
            } else {
                None
            },
        }
    }
}

/// The value of the first header with a name.
pub open spec fn header_got(headers: HeaderSlots, name: Seq<char>) -> Option<Seq<char>> {
    match inline_at(headers.inline, name) {
        Some(at) => Some(headers.inline[at]->Some_0.value),
        None => match listed_at(headers.overflow, name) {
            Some(at) => Some(headers.overflow[at].value),
            None => None,
        },
    }
}

/// Headers with one added, in the first free place or behind all others.
pub open spec fn header_added(headers: HeaderSlots, header: HeaderView) -> HeaderSlots {
    match free_at(headers.inline) {
        Some(at) => HeaderSlots { inline: headers.inline.update(at, Some(header)), ..headers },
        None => HeaderSlots { overflow: headers.overflow.push(header), ..headers },
    }
}

/// Headers with one set: the first with its name takes the value, and one that
/// sets a cookie is always added.
pub open spec fn header_set(headers: HeaderSlots, name: Seq<char>, value: Seq<char>) -> HeaderSlots {
    let added = header_added(headers, HeaderView { name, value });
    if lower_all(name) == lower_all("set-cookie"@) {
        added
    } else {
        match inline_at(headers.inline, name) {
            Some(at) => HeaderSlots {
                inline: headers.inline.update(
                    at,
                    Some(HeaderView { value, ..headers.inline[at]->Some_0 }),
                ),
                ..headers
            },
            None => match listed_at(headers.overflow, name) {
                Some(at) => HeaderSlots {
                    overflow: headers.overflow.update(
                        at,
                        HeaderView { value, ..headers.overflow[at] },
                    ),
                    ..headers
                },
                None => added,
            },
        }
    }
}

/// A place without a header of a name.
pub open spec fn cleared(place: Option<HeaderView>, name: Seq<char>) -> Option<HeaderView> {
    match place {
        Some(header) => if named(header, name) {
            None
        } else {
            Some(header)
        },
        None => None,
    }
}

/// Headers without those of a name.
pub open spec fn header_removed(headers: HeaderSlots, name: Seq<char>) -> HeaderSlots {
    HeaderSlots {
        inline: headers.inline.map_values(|place: Option<HeaderView>| cleared(place, name)),
        overflow: headers.overflow.filter(|header: HeaderView| !named(header, name)),
    }
}

/// No headers.
pub open spec fn no_headers() -> HeaderSlots {
    HeaderSlots { inline: seq![None, None, None, None], overflow: Seq::empty() }
}

/// One header, in the first place.
pub open spec fn one_header(name: Seq<char>, value: Seq<char>) -> HeaderSlots {
    HeaderSlots {
        inline: seq![Some(HeaderView { name, value }), None, None, None],
        overflow: Seq::empty(),
    }
}

proof fn lemma_inline_at(inline: Seq<Option<HeaderView>>, name: Seq<char>)
    ensures
        match inline_at(inline, name) {
            Some(at) => {
                &&& 0 <= at < inline.len()
                &&& inline[at] matches Some(header) && named(header, name)
                &&& forall|i: int|
                    0 <= i < at ==> !(#[trigger] inline[i] matches Some(header) && named(
                        header,
                        name,
                    ))
            },
            None => forall|i: int|
                0 <= i < inline.len() ==> !(#[trigger] inline[i] matches Some(header) && named(
                    header,
                    name,
                )),
        },
    decreases inline.len(),
{
    if inline.len() > 0 {
        let init = inline.drop_last();
        lemma_inline_at(init, name);
        assert forall|i: int| 0 <= i < init.len() implies #[trigger] inline[i] == init[i] by {}
    }
}

proof fn lemma_listed_at(list: Seq<HeaderView>, name: Seq<char>)
    ensures
        match listed_at(list, name) {
            Some(at) => {
                &&& 0 <= at < list.len()
                &&& named(list[at], name)
                &&& forall|i: int| 0 <= i < at ==> !named(#[trigger] list[i], name)
            },
            None => forall|i: int| 0 <= i < list.len() ==> !named(#[trigger] list[i], name),
        },
    decreases list.len(),
{
    if list.len() > 0 {
        let init = list.drop_last();
        lemma_listed_at(init, name);
        assert forall|i: int| 0 <= i < init.len() implies #[trigger] list[i] == init[i] by {}
    }
}

proof fn lemma_free_at(inline: Seq<Option<HeaderView>>)
    ensures
        match free_at(inline) {
            Some(at) => {
                &&& 0 <= at < inline.len()
                &&& inline[at] is None
                &&& forall|i: int| 0 <= i < at ==> (#[trigger] inline[i]) is Some
            },
            None => forall|i: int| 0 <= i < inline.len() ==> (#[trigger] inline[i]) is Some,
        },
    decreases inline.len(),
{
    if inline.len() > 0 {
        let init = inline.drop_last();
        lemma_free_at(init);
        assert forall|i: int| 0 <= i < init.len() implies #[trigger] inline[i] == init[i] by {}
    }
}

impl ResponseHeaders {
    /// No headers.
    #[must_use]
    pub fn empty() -> (headers: Self)
        ensures
            headers@ == no_headers(),
    {
        let headers = ResponseHeaders { inline: [None, None, None, None], overflow: Vec::new() };
        assert(headers@ =~= no_headers());
        headers
    }

    /// One header.
    #[must_use]
    pub fn one(name: &str, value: &str) -> (headers: Self)
        ensures
            headers@ == one_header(name@, value@),
    {
        let header = ResponseHeader::new(name, value);
        let headers = ResponseHeaders {
            inline: [Some(header), None, None, None],
            overflow: Vec::new(),
        };
        assert(headers@ =~= one_header(name@, value@));
        headers
    }

    fn find_inline(&self, name: &str) -> (found: Option<usize>)
        ensures
            match found {
                Some(at) => inline_at(self@.inline, name@) == Some(at as int) && at
                    < 4 && self.inline@[at as int] is Some,
                None => inline_at(self@.inline, name@) is None,
            },
    {
        proof {
            lemma_inline_at(self@.inline, name@);
        }
        let mut index: usize = 0;
        while index < INLINE_RESPONSE_HEADERS
            invariant
                index <= 4,
                forall|i: int|
                    0 <= i < index ==> !(#[trigger] self@.inline[i] matches Some(header) && named(
                        header,
                        name@,
                    )),
            decreases 4 - index,
        {
            assert(self@.inline[index as int] == place_view(self.inline@[index as int]));
            if let Some(header) = &self.inline[index] {
                if eq_ignore_ascii_case(header.name.as_str(), name) {
                    proof {
                        lemma_inline_at(self@.inline, name@);
                    }
                    return Some(index);
                }
            }
            index += 1;
        }
        proof {
            lemma_inline_at(self@.inline, name@);
        }
        None
    }

    fn find_overflow(&self, name: &str) -> (found: Option<usize>)
        ensures
            match found {
                Some(at) => listed_at(self@.overflow, name@) == Some(at as int) && at
                    < self.overflow@.len(),
                None => listed_at(self@.overflow, name@) is None,
            },
    {
        let mut index: usize = 0;
        while index < self.overflow.len()
            invariant
                index <= self.overflow@.len(),
                forall|i: int| 0 <= i < index ==> !named(#[trigger] self@.overflow[i], name@),
            decreases self.overflow@.len() - index,
        {
            assert(self@.overflow[index as int] == self.overflow@[index as int]@);
            if eq_ignore_ascii_case(self.overflow[index].name.as_str(), name) {
                proof {
                    lemma_listed_at(self@.overflow, name@);
                }
                return Some(index);
            }
            index += 1;
        }
        proof {
            lemma_listed_at(self@.overflow, name@);
        }
        None
    }

    fn find_free(&self) -> (found: Option<usize>)
        ensures
            match found {
                Some(at) => free_at(self@.inline) == Some(at as int) && at < 4,
                None => free_at(self@.inline) is None,
            },
    {
        let mut index: usize = 0;
        while index < INLINE_RESPONSE_HEADERS
            invariant
                index <= 4,
                forall|i: int| 0 <= i < index ==> (#[trigger] self@.inline[i]) is Some,
            decreases 4 - index,
        {
            assert(self@.inline[index as int] == place_view(self.inline@[index as int]));
            if self.inline[index].is_none() {
                proof {
                    lemma_free_at(self@.inline);
                }
                return Some(index);
            }
            index += 1;
        }
        proof {
            lemma_free_at(self@.inline);
        }
        None
    }

    /// The value of the first header with a name.
    #[must_use]
    pub fn get(&self, name: &str) -> (value: Option<&str>)
        ensures
            match value {
                Some(value) => header_got(self@, name@) == Some(value@),
                None => header_got(self@, name@) is None,
            },
    {
        match self.find_inline(name) {
            Some(at) => {
                assert(self@.inline[at as int] == place_view(self.inline@[at as int]));
                match &self.inline[at] {
                    Some(header) => Some(header.value.as_str()),
                    None => None,
                }
            },
            None => match self.find_overflow(name) {
                Some(at) => {
                    assert(self@.overflow[at as int] == self.overflow@[at as int]@);
                    Some(self.overflow[at].value.as_str())
                },
                None => None,
            },
        }
    }

    fn place(&mut self, at: usize, header: Option<ResponseHeader>)
        requires
            at < 4,
        ensures
            final(self)@ == (HeaderSlots {
                inline: old(self)@.inline.update(at as int, place_view(header)),
                ..old(self)@
            }),
    {
        let ghost before = self@;
        self.inline[at] = header;
        assert(self@.inline =~= before.inline.update(at as int, place_view(header)));
        assert(self@.overflow =~= before.overflow);
    }

    /// Sets a header: the first with its name takes the value, and one that
    /// sets a cookie is always added, since one response may carry several
    /// cookies.
    pub fn insert(&mut self, name: &str, value: &str)
        ensures
            final(self)@ == header_set(old(self)@, name@, value@),
    {
        let ghost before = self@;
        if !eq_ignore_ascii_case(name, "set-cookie") {
            if let Some(at) = self.find_inline(name) {
                assert(before.inline[at as int] == place_view(self.inline@[at as int]));
                let kept = match &self.inline[at] {
                    Some(header) => header.name.clone(),
                    None => name.to_owned(),
                };
                self.place(at, Some(ResponseHeader { name: kept, value: value.to_owned() }));
                return;
            }
            if let Some(at) = self.find_overflow(name) {
                assert(before.overflow[at as int] == self.overflow@[at as int]@);
                let kept = self.overflow[at].name.clone();
                let header = ResponseHeader { name: kept, value: value.to_owned() };
                self.overflow.set(at, header);
                assert(self@.overflow =~= before.overflow.update(at as int, header@));
                assert(self@.inline =~= before.inline);
                return;
            }
        }
        let header = ResponseHeader::new(name, value);
        match self.find_free() {
            Some(at) => {
                self.place(at, Some(header));
            },
            None => {
                self.overflow.push(header);
                assert(self@.overflow =~= before.overflow.push(header@));
                assert(self@.inline =~= before.inline);
            },
        }
    }

    /// Removes every header with a name.
    pub fn remove(&mut self, name: &str)
        ensures
            final(self)@ == header_removed(old(self)@, name@),
    {
        let ghost before = self@;
        let mut index: usize = 0;
        while index < INLINE_RESPONSE_HEADERS
            invariant
                index <= 4,
                before.inline.len() == 4,
                self@.inline.len() == 4,
                self@.overflow == before.overflow,
                forall|i: int|
                    0 <= i < index ==> #[trigger] self@.inline[i] == cleared(
                        before.inline[i],
                        name@,
                    ),
                forall|i: int| index <= i < 4 ==> #[trigger] self@.inline[i] == before.inline[i],
            decreases 4 - index,
        {
            assert(self@.inline[index as int] == place_view(self.inline@[index as int]));
            let named_so = match &self.inline[index] {
                Some(header) => eq_ignore_ascii_case(header.name.as_str(), name),
                None => false,
            };
            if named_so {
                self.place(index, None);
            }
            index += 1;
        }
        let ghost emptied = self@.inline;
        let mut kept: Vec<ResponseHeader> = Vec::new();
        let ghost test = |header: HeaderView| !named(header, name@);
        let mut index: usize = 0;
        proof {
            assert(before.overflow.take(0) =~= Seq::empty());
            assert(kept@.map_values(|header: ResponseHeader| header@) =~= Seq::empty());
            reveal(Seq::filter);
        }
        while index < self.overflow.len()
            invariant
                index <= self.overflow@.len(),
                self@.inline == emptied,
                self@.overflow == before.overflow,
                self.overflow@.len() == before.overflow.len(),
                test == (|header: HeaderView| !named(header, name@)),
                kept@.map_values(|header: ResponseHeader| header@) == before.overflow.take(
                    index as int,
                ).filter(test),
            decreases self.overflow@.len() - index,
        {
            let header = &self.overflow[index];
            let ghost so_far = kept@.map_values(|header: ResponseHeader| header@);
            proof {
                assert(before.overflow[index as int] == header@);
                assert(before.overflow.take(index + 1) =~= before.overflow.take(
                    index as int,
                ).push(header@));
                before.overflow.take(index as int).lemma_filter_push(header@, test);
            }
            if !eq_ignore_ascii_case(header.name.as_str(), name) {
                let copy = ResponseHeader::new(header.name.as_str(), header.value.as_str());
                kept.push(copy);
                assert(kept@.map_values(|header: ResponseHeader| header@) =~= so_far.push(
                    header@,
                ));
            }
            index += 1;
        }
        self.overflow = kept;
        proof {
            assert(before.overflow.take(index as int) =~= before.overflow);
            assert(self@.overflow =~= before.overflow.filter(test));
            assert(self@.inline =~= header_removed(before, name@).inline);
        }
    }

    /// All headers, in the order in which they are sent.
    #[must_use]
    pub fn list(&self) -> (headers: Vec<ResponseHeader>)
        ensures
            crate::operation::headers_view(headers@) == listed(self@),
    {
        let mut headers: Vec<ResponseHeader> = Vec::new();
        let mut index: usize = 0;
        assert(self@.inline.take(0) =~= Seq::empty());
        assert(crate::operation::headers_view(headers@) =~= Seq::empty());
        while index < INLINE_RESPONSE_HEADERS
            invariant
                index <= 4,
                self@.inline.len() == 4,
                crate::operation::headers_view(headers@) == present(
                    self@.inline.take(index as int),
                ),
            decreases 4 - index,
        {
            let ghost before = crate::operation::headers_view(headers@);
            proof {
                assert(self@.inline.take(index + 1).drop_last() =~= self@.inline.take(
                    index as int,
                ));
                assert(self@.inline.take(index + 1).last() == place_view(
                    self.inline@[index as int],
                ));
            }
            if let Some(header) = &self.inline[index] {
                let copy = ResponseHeader::new(header.name.as_str(), header.value.as_str());
                headers.push(copy);
                assert(crate::operation::headers_view(headers@) =~= before.push(header@));
            }
            index += 1;
        }
        assert(self@.inline.take(4) =~= self@.inline);
        let ghost inline = crate::operation::headers_view(headers@);
        let mut index: usize = 0;
        assert(inline + self@.overflow.take(0) =~= inline);
        while index < self.overflow.len()
            invariant
                index <= self.overflow@.len(),
                self@.overflow.len() == self.overflow@.len(),
                crate::operation::headers_view(headers@) == inline + self@.overflow.take(
                    index as int,
                ),
            decreases self.overflow@.len() - index,
        {
            let header = &self.overflow[index];
            let ghost before = crate::operation::headers_view(headers@);
            let copy = ResponseHeader::new(header.name.as_str(), header.value.as_str());
            headers.push(copy);
            proof {
                assert(self@.overflow[index as int] == header@);
                assert(crate::operation::headers_view(headers@) =~= before.push(header@));
                assert(before.push(header@) =~= inline + self@.overflow.take(index + 1));
            }
            index += 1;
        }
        assert(self@.overflow.take(index as int) =~= self@.overflow);
        headers
    }
}

proof fn lemma_inline_is(inline: Seq<Option<HeaderView>>, name: Seq<char>, at: int)
    requires
        0 <= at < inline.len(),
        inline[at] matches Some(header) && named(header, name),
        forall|i: int|
            0 <= i < at ==> !(#[trigger] inline[i] matches Some(header) && named(header, name)),
    ensures
        inline_at(inline, name) == Some(at),
{
    lemma_inline_at(inline, name);
}

proof fn lemma_listed_is(list: Seq<HeaderView>, name: Seq<char>, at: int)
    requires
        0 <= at < list.len(),
        named(list[at], name),
        forall|i: int| 0 <= i < at ==> !named(#[trigger] list[i], name),
    ensures
        listed_at(list, name) == Some(at),
{
    lemma_listed_at(list, name);
}

/// A header that was set is read back, whatever the case of its name's
/// letters, unless it sets a cookie.
pub proof fn law_set_headers_are_read_back(
    headers: HeaderSlots,
    name: Seq<char>,
    value: Seq<char>,
)
    requires
        lower_all(name) != lower_all("set-cookie"@),
    ensures
        header_got(header_set(headers, name, value), name) == Some(value),
{
    lemma_inline_at(headers.inline, name);
    lemma_listed_at(headers.overflow, name);
    lemma_free_at(headers.inline);
    let after = header_set(headers, name, value);
    match inline_at(headers.inline, name) {
        Some(at) => {
            lemma_inline_is(after.inline, name, at);
        },
        None => match listed_at(headers.overflow, name) {
            Some(at) => {
                lemma_listed_is(after.overflow, name, at);
            },
            None => match free_at(headers.inline) {
                Some(at) => {
                    lemma_inline_is(after.inline, name, at);
                },
                None => {
                    lemma_listed_is(after.overflow, name, headers.overflow.len() as int);
                },
            },
        },
    }
}

/// Setting or removing a header leaves every header with another name as it
/// is.
pub proof fn law_other_headers_are_kept(
    headers: HeaderSlots,
    name: Seq<char>,
    value: Seq<char>,
    other: Seq<char>,
)
    requires
        lower_all(name) != lower_all(other),
    ensures
        header_got(header_set(headers, name, value), other) == header_got(headers, other),
        header_got(header_removed(headers, name), other) == header_got(headers, other),
{
    lemma_inline_at(headers.inline, name);
    lemma_listed_at(headers.overflow, name);
    lemma_free_at(headers.inline);
    lemma_inline_at(headers.inline, other);
    lemma_listed_at(headers.overflow, other);
    let set = header_set(headers, name, value);
    lemma_inline_at(set.inline, other);
    lemma_listed_at(set.overflow, other);
    match inline_at(headers.inline, other) {
        Some(at) => {
            assert(set.inline[at] == headers.inline[at]);
            assert forall|i: int| 0 <= i < at implies !(#[trigger] set.inline[i] matches Some(
                header,
            ) && named(header, other)) by {
                assert(!(headers.inline[i] matches Some(header) && named(header, other)));
            }
            lemma_inline_is(set.inline, other, at);
        },
        None => {
            assert forall|i: int| 0 <= i < set.inline.len() implies !(#[trigger] set.inline[i]
                matches Some(header) && named(header, other)) by {
                assert(!(headers.inline[i] matches Some(header) && named(header, other)));
            }
            match listed_at(headers.overflow, other) {
                Some(at) => {
                    assert(set.overflow[at] == headers.overflow[at]);
                    assert forall|i: int| 0 <= i < at implies !named(
                        #[trigger] set.overflow[i],
                        other,
                    ) by {
                        assert(!named(headers.overflow[i], other));
                    }
                    lemma_listed_is(set.overflow, other, at);
                },
                None => {
                    assert forall|i: int| 0 <= i < set.overflow.len() implies !named(
                        #[trigger] set.overflow[i],
                        other,
                    ) by {
                        if i < headers.overflow.len() {
                            assert(!named(headers.overflow[i], other));
                        }
                    }
                },
            }
        },
    }
    lemma_removed_keeps(headers, name, other);
}

proof fn lemma_filtered_keeps(list: Seq<HeaderView>, name: Seq<char>, other: Seq<char>)
    requires
        lower_all(name) != lower_all(other),
    ensures
        ({
            let kept = list.filter(|header: HeaderView| !named(header, name));
            match listed_at(list, other) {
                Some(at) => listed_at(kept, other) matches Some(there) && kept[there] == list[at],
                None => listed_at(kept, other) is None,
            }
        }),
    decreases list.len(),
{
    let test = |header: HeaderView| !named(header, name);
    reveal(Seq::filter);
    if list.len() > 0 {
        let init = list.drop_last();
        lemma_filtered_keeps(init, name, other);
        lemma_listed_at(init, other);
        lemma_listed_at(init.filter(test), other);
        let kept = list.filter(test);
        if test(list.last()) {
            assert(kept =~= init.filter(test).push(list.last()));
            assert(kept.drop_last() =~= init.filter(test));
        } else {
            assert(kept =~= init.filter(test));
            assert(named(list.last(), name));
        }
    }
}

proof fn lemma_removed_keeps(headers: HeaderSlots, name: Seq<char>, other: Seq<char>)
    requires
        lower_all(name) != lower_all(other),
    ensures
        header_got(header_removed(headers, name), other) == header_got(headers, other),
{
    let after = header_removed(headers, name);
    lemma_inline_at(headers.inline, other);
    lemma_inline_at(after.inline, other);
    lemma_filtered_keeps(headers.overflow, name, other);
    match inline_at(headers.inline, other) {
        Some(at) => {
            assert(after.inline[at] == headers.inline[at]);
            assert forall|i: int| 0 <= i < at implies !(#[trigger] after.inline[i] matches Some(
                header,
            ) && named(header, other)) by {
                assert(!(headers.inline[i] matches Some(header) && named(header, other)));
            }
            lemma_inline_is(after.inline, other, at);
        },
        None => {
            assert forall|i: int| 0 <= i < after.inline.len() implies !(#[trigger] after.inline[i]
                matches Some(header) && named(header, other)) by {
                assert(!(headers.inline[i] matches Some(header) && named(header, other)));
            }
        },
    }
}

/// A removed header is gone.
pub proof fn law_removed_headers_are_gone(headers: HeaderSlots, name: Seq<char>)
    ensures
        header_got(header_removed(headers, name), name) is None,
{
    let after = header_removed(headers, name);
    lemma_inline_at(after.inline, name);
    lemma_listed_at(after.overflow, name);
    match listed_at(after.overflow, name) {
        Some(at) => {
            let test = |header: HeaderView| !named(header, name);
            headers.overflow.lemma_filter_pred(test, at);
        },
        None => {},
    }
}

/// Setting a cookie adds a header and loses none: as many are sent as before
/// and one more, and every one that was sent still is.
pub proof fn law_cookies_are_added(headers: HeaderSlots, name: Seq<char>, value: Seq<char>)
    requires
        lower_all(name) == lower_all("set-cookie"@),
    ensures
        listed(header_set(headers, name, value)).to_multiset() == listed(
            headers,
        ).to_multiset().insert(HeaderView { name, value }),
{
    lemma_free_at(headers.inline);
    let header = HeaderView { name, value };
    let after = header_set(headers, name, value);
    broadcast use vstd::seq_lib::group_to_multiset_ensures;

    vstd::seq_lib::lemma_multiset_commutative(present(headers.inline), headers.overflow);
    vstd::seq_lib::lemma_multiset_commutative(present(after.inline), after.overflow);
    match free_at(headers.inline) {
        Some(at) => {
            lemma_present_filled(headers.inline, at, header);
        },
        None => {
            assert(listed(after) =~= listed(headers).push(header));
        },
    }
}

proof fn lemma_present_filled(inline: Seq<Option<HeaderView>>, at: int, header: HeaderView)
    requires
        0 <= at < inline.len(),
        inline[at] is None,
    ensures
        present(inline.update(at, Some(header))).to_multiset() == present(
            inline,
        ).to_multiset().insert(header),
    decreases inline.len(),
{
    broadcast use vstd::seq_lib::group_to_multiset_ensures;

    let filled = inline.update(at, Some(header));
    if at == inline.len() - 1 {
        assert(filled.drop_last() =~= inline.drop_last());
    } else {
        assert(filled.drop_last() =~= inline.drop_last().update(at, Some(header)));
        lemma_present_filled(inline.drop_last(), at, header);
        assert(filled.last() == inline.last());
    }
}

} // verus!
