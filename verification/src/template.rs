//! Texts with blanks to fill in.
use crate::text::{chars_of, eq_chars, find_char, index_of, string_from};
use vstd::prelude::*;
use vstd::string::*;

verus! {

/// What stands in a blank.
#[derive(Clone, Debug, PartialEq, Eq)]
pub struct Blank {
    pub name: &'static str,
    pub text: String,
}

/// Blanks and what stands in them.
pub open spec fn blanks_view(blanks: Seq<Blank>) -> Seq<(Seq<char>, Seq<char>)> {
    blanks.map_values(|blank: Blank| (blank.name@, blank.text@))
}

/// What stands in the blank with a name; nothing where there is none.
pub open spec fn blank_text(blanks: Seq<(Seq<char>, Seq<char>)>, name: Seq<char>) -> Seq<char>
    decreases blanks.len(),
{
    if blanks.len() == 0 {
        Seq::empty()
    } else if blanks[0].0 == name {
        blanks[0].1
    } else {
        blank_text(blanks.drop_first(), name)
    }
}

/// A template with its blanks filled in. A blank is written as its name in
/// braces, and a doubled brace stands for one.
pub open spec fn filled(template: Seq<char>, blanks: Seq<(Seq<char>, Seq<char>)>) -> Seq<char>
    decreases template.len(),
{
    if template.len() == 0 {
        Seq::empty()
    } else if template.len() > 1 && template[0] == template[1] && (template[0] == '{'
        || template[0] == '}') {
        seq![template[0]] + filled(template.skip(2), blanks)
    } else {
        match index_of(template, '}') {
            Some(end) => if template[0] == '{' && 0 < end < template.len() {
                blank_text(blanks, template.subrange(1, end)) + filled(
                    template.skip(end + 1),
                    blanks,
                )
            } else {
                seq![template[0]] + filled(template.skip(1), blanks)
            },
            None => seq![template[0]] + filled(template.skip(1), blanks),
        }
    }
}

fn text_in_blank(blanks: &Vec<Blank>, name: &[char]) -> (text: Vec<char>)
    ensures
        text@ == blank_text(blanks_view(blanks@), name@),
{
    let ghost views = blanks_view(blanks@);
    let mut index: usize = 0;
    assert(views.skip(0) =~= views);
    while index < blanks.len()
        invariant
            index <= blanks@.len(),
            views == blanks_view(blanks@),
            blank_text(views, name@) == blank_text(views.skip(index as int), name@),
        decreases blanks@.len() - index,
    {
        assert(views.skip(index as int)[0] == views[index as int]);
        assert(views.skip(index as int).drop_first() =~= views.skip(index + 1));
        if eq_chars(chars_of(blanks[index].name).as_slice(), name) {
            return chars_of(blanks[index].text.as_str());
        }
        index += 1;
    }
    Vec::new()
}

/// Fills in the blanks of a template.
#[must_use]
pub fn fill(template: &str, blanks: &Vec<Blank>) -> (text: String)
    ensures
        text@ == filled(template@, blanks_view(blanks@)),
{
    let characters = chars_of(template);
    let ghost views = blanks_view(blanks@);
    let mut output: Vec<char> = Vec::new();
    let mut at: usize = 0;
    assert(template@.skip(0) =~= template@);
    assert(output@ + filled(template@, views) =~= filled(template@, views));
    while at < characters.len()
        invariant
            at <= characters@.len(),
            characters@ == template@,
            views == blanks_view(blanks@),
            output@ + filled(template@.skip(at as int), views) == filled(template@, views),
        decreases characters@.len() - at,
    {
        let ghost rest = template@.skip(at as int);
        let ghost before = output@;
        let first = characters[at];
        let count: usize = characters.len();
        if count - at > 1 && characters[at + 1] == first && (first == '{' || first == '}') {
            output.push(first);
            proof {
                assert(rest[0] == first && rest[1] == first);
                assert(rest.skip(2) =~= template@.skip(at + 2));
                assert(before + (seq![first] + filled(rest.skip(2), views)) =~= output@ + filled(
                    template@.skip(at + 2),
                    views,
                ));
            }
            at += 2;
        } else {
            let found = find_char(vstd::slice::slice_subrange(characters.as_slice(), at, count), '}');
            let end: usize = match found {
                Some(end) => end,
                None => 0,
            };
            if first == '{' && end > 0 {
                let text = text_in_blank(
                    blanks,
                    vstd::slice::slice_subrange(characters.as_slice(), at + 1, at + end),
                );
                output.extend_from_slice(text.as_slice());
                proof {
                    assert(template@.subrange(at as int, count as int) =~= rest);
                    assert(template@.subrange(at + 1, at + end) =~= rest.subrange(1, end as int));
                    assert(rest.skip(end + 1) =~= template@.skip(at + end + 1));
                    assert(output@ =~= before + text@);
                    assert(before + (text@ + filled(rest.skip(end + 1), views)) =~= output@
                        + filled(template@.skip(at + end + 1), views));
                }
                at = at + end + 1;
            } else {
                output.push(first);
                proof {
                    assert(template@.subrange(at as int, count as int) =~= rest);
                    assert(rest.skip(1) =~= template@.skip(at + 1));
                    assert(before + (seq![first] + filled(rest.skip(1), views)) =~= output@
                        + filled(template@.skip(at + 1), views));
                }
                at += 1;
            }
        }
    }
    assert(template@.skip(at as int).len() == 0);
    assert(output@ + Seq::<char>::empty() =~= output@);
    string_from(output.as_slice())
}

/// Text without braces is filled in as it stands, before whatever follows it.
pub proof fn law_plain_text_is_kept(
    text: Seq<char>,
    rest: Seq<char>,
    blanks: Seq<(Seq<char>, Seq<char>)>,
)
    requires
        forall|i: int| 0 <= i < text.len() ==> #[trigger] text[i] != '{' && text[i] != '}',
    ensures
        filled(text + rest, blanks) == text + filled(rest, blanks),
    decreases text.len(),
{
    if text.len() == 0 {
        assert(text + rest =~= rest);
        assert(text + filled(rest, blanks) =~= filled(rest, blanks));
    } else {
        let tail = text.drop_first();
        law_plain_text_is_kept(tail, rest, blanks);
        assert((text + rest).skip(1) =~= tail + rest);
        assert((text + rest)[0] == text[0]);
        assert(text + filled(rest, blanks) =~= seq![text[0]] + (tail + filled(rest, blanks)));
    }
}

/// A blank, a name in braces, is filled with the first text under that name.
pub proof fn law_blanks_are_filled(
    name: Seq<char>,
    rest: Seq<char>,
    blanks: Seq<(Seq<char>, Seq<char>)>,
    at: int,
)
    requires
        name.len() > 0,
        forall|i: int| 0 <= i < name.len() ==> #[trigger] name[i] != '{' && name[i] != '}',
        0 <= at < blanks.len(),
        blanks[at].0 == name,
        forall|i: int| 0 <= i < at ==> (#[trigger] blanks[i]).0 != name,
    ensures
        filled(seq!['{'] + name + seq!['}'] + rest, blanks) == blanks[at].1 + filled(rest, blanks),
{
    let template = seq!['{'] + name + seq!['}'] + rest;
    let end = name.len() as int + 1;
    assert(template[0] == '{' && template[1] == name[0] && template[end] == '}');
    assert forall|i: int| 0 <= i < end implies template[i] != '}' by {
        if i > 0 {
            assert(template[i] == name[i - 1]);
        }
    }
    lemma_index_is(template, '}', end);
    assert(template.subrange(1, end) =~= name);
    assert(template.skip(end + 1) =~= rest);
    lemma_blank_text(blanks, name, at);
}

/// A doubled brace stands for one brace.
pub proof fn law_doubled_braces_are_braces(
    rest: Seq<char>,
    blanks: Seq<(Seq<char>, Seq<char>)>,
)
    ensures
        filled(seq!['{', '{'] + rest, blanks) == seq!['{'] + filled(rest, blanks),
        filled(seq!['}', '}'] + rest, blanks) == seq!['}'] + filled(rest, blanks),
{
    let opened = seq!['{', '{'] + rest;
    let closed = seq!['}', '}'] + rest;
    assert(opened[0] == '{' && opened[1] == '{' && closed[0] == '}' && closed[1] == '}');
    assert(opened.skip(2) =~= rest);
    assert(closed.skip(2) =~= rest);
}

pub proof fn lemma_blank_text(blanks: Seq<(Seq<char>, Seq<char>)>, name: Seq<char>, at: int)
    requires
        0 <= at < blanks.len(),
        blanks[at].0 == name,
        forall|i: int| 0 <= i < at ==> (#[trigger] blanks[i]).0 != name,
    ensures
        blank_text(blanks, name) == blanks[at].1,
    decreases at,
{
    if at > 0 {
        let rest = blanks.drop_first();
        assert forall|i: int| 0 <= i < at - 1 implies (#[trigger] rest[i]).0 != name by {
            assert(rest[i] == blanks[i + 1]);
        }
        assert(blanks[0].0 != name);
        lemma_blank_text(rest, name, at - 1);
    }
}

proof fn lemma_index_is(text: Seq<char>, wanted: char, at: int)
    requires
        0 <= at < text.len(),
        text[at] == wanted,
        forall|i: int| 0 <= i < at ==> #[trigger] text[i] != wanted,
    ensures
        index_of(text, wanted) == Some(at),
    decreases at,
{
    if at > 0 {
        let rest = text.drop_first();
        assert forall|i: int| 0 <= i < at - 1 implies #[trigger] rest[i] != wanted by {
            assert(rest[i] == text[i + 1]);
        }
        assert(text[0] != wanted);
        lemma_index_is(rest, wanted, at - 1);
    }
}

} // verus!
