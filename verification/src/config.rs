//! Settings read from configuration, with every problem reported at once.
use crate::contract::ValidationRule;
use crate::operation::{opt_text, texts};
use crate::text::{
    char_lists, chars_of, decimal, decimal_text, decimal_value, eq_text, joined_by,
    law_decimals_stand_for_their_number, law_joined_texts_are_split_again,
    law_trimming_takes_off_white_space, lower_all, lower_text, split_chars, split_spec,
    string_from, trim_end_spec, trim_spec, trim_start_spec, trimmed, white_spec,
};
use vstd::prelude::*;
use vstd::string::*;

verus! {

// ---------------------------------------------------------------------------
// Sources
// ---------------------------------------------------------------------------

/// Where a settings type reads its values from.
pub trait ConfigSource {
    /// The value of a key, if it has one.
    spec fn looked_up(&self, key: Seq<char>) -> Option<Seq<char>>;

    fn get(&self, key: &str) -> (value: Option<String>)
        ensures
            opt_text(value) == self.looked_up(key@),
    ;
}

/// One configured value.
#[derive(Clone, Debug, PartialEq, Eq)]
pub struct ConfigEntry {
    pub key: String,
    pub value: String,
}

/// The last value under a key.
pub open spec fn last_value(entries: Seq<ConfigEntry>, key: Seq<char>) -> Option<Seq<char>>
    decreases entries.len(),
{
    if entries.len() == 0 {
        None
    } else if entries.last().key@ == key {
        Some(entries.last().value@)
    } else {
        last_value(entries.drop_last(), key)
    }
}

/// A fixed set of values, for tests and for defaults layered under one.
#[derive(Clone, Debug)]
pub struct MapSource {
    values: Vec<ConfigEntry>,
}

impl Default for MapSource {
    fn default() -> (source: Self)
        ensures
            forall|key: Seq<char>| source.looked_up(key) is None,
    {
        MapSource::new()
    }
}

impl MapSource {
    #[must_use]
    pub fn new() -> (source: Self)
        ensures
            forall|key: Seq<char>| source.looked_up(key) is None,
    {
        MapSource { values: Vec::new() }
    }

    /// The values of entries, of which a later one counts.
    #[must_use]
    pub fn from_entries(entries: Vec<ConfigEntry>) -> (source: Self)
        ensures
            forall|key: Seq<char>| #[trigger]
                source.looked_up(key) == last_value(entries@, key),
    {
        MapSource { values: entries }
    }

    /// The values with one more, in place of one with the same key.
    #[must_use]
    pub fn with(self, key: &str, value: &str) -> (source: Self)
        ensures
            forall|wanted: Seq<char>| #[trigger]
                source.looked_up(wanted) == if wanted == key@ {
                    Some(value@)
                } else {
                    self.looked_up(wanted)
                },
    {
        let ghost before = self.values@;
        let mut updated = self;
        updated.values.push(ConfigEntry { key: key.to_owned(), value: value.to_owned() });
        proof {
            assert(updated.values@.drop_last() =~= before);
        }
        updated
    }
}

impl ConfigSource for MapSource {
    closed spec fn looked_up(&self, key: Seq<char>) -> Option<Seq<char>> {
        last_value(self.values@, key)
    }

    fn get(&self, key: &str) -> (value: Option<String>) {
        let mut left: usize = self.values.len();
        assert(self.values@.take(left as int) =~= self.values@);
        while left > 0
            invariant
                left <= self.values@.len(),
                last_value(self.values@, key@) == last_value(self.values@.take(left as int), key@),
            decreases left,
        {
            proof {
                let prefix = self.values@.take(left as int);
                assert(prefix.last() == self.values@[left - 1]);
                assert(prefix.drop_last() =~= self.values@.take(left - 1));
            }
            left -= 1;
            if eq_text(self.values[left].key.as_str(), key) {
                return Some(self.values[left].value.clone());
            }
        }
        None
    }
}

/// Reads from the first source that has the key.
pub struct Layered<'sources> {
    sources: Vec<&'sources dyn ConfigSource>,
}

/// The value of the first source that has one, from one on.
pub open spec fn first_layer(sources: Seq<&dyn ConfigSource>, key: Seq<char>, at: int) -> Option<
    Seq<char>,
>
    decreases sources.len() - at,
{
    if at < 0 || at >= sources.len() {
        None
    } else {
        match sources[at].looked_up(key) {
            Some(value) => Some(value),
            None => first_layer(sources, key, at + 1),
        }
    }
}

impl<'sources> Layered<'sources> {
    pub closed spec fn layers(self) -> Seq<&'sources dyn ConfigSource> {
        self.sources@
    }

    #[must_use]
    pub fn new() -> (layered: Self)
        ensures
            layered.layers().len() == 0,
    {
        Layered { sources: Vec::new() }
    }

    /// Adds a source below the ones already added, so earlier layers win.
    #[must_use]
    pub fn under(self, source: &'sources dyn ConfigSource) -> (layered: Self)
        ensures
            layered.layers() == self.layers().push(source),
    {
        let mut updated = self;
        updated.sources.push(source);
        updated
    }
}

impl<'sources> ConfigSource for Layered<'sources> {
    open spec fn looked_up(&self, key: Seq<char>) -> Option<Seq<char>> {
        first_layer(self.layers(), key, 0)
    }

    fn get(&self, key: &str) -> (value: Option<String>) {
        let mut at: usize = 0;
        while at < self.sources.len()
            invariant
                at <= self.sources@.len(),
                first_layer(self.sources@, key@, 0) == first_layer(self.sources@, key@, at as int),
            decreases self.sources@.len() - at,
        {
            match self.sources[at].get(key) {
                Some(value) => {
                    return Some(value);
                },
                None => {},
            }
            at += 1;
        }
        None
    }
}

proof fn lemma_first_layer(sources: Seq<&dyn ConfigSource>, key: Seq<char>, from: int, at: int)
    requires
        0 <= from <= at < sources.len(),
        sources[at].looked_up(key) is Some,
        forall|i: int| from <= i < at ==> (#[trigger] sources[i]).looked_up(key) is None,
    ensures
        first_layer(sources, key, from) == sources[at].looked_up(key),
    decreases at - from,
{
    if from < at {
        lemma_first_layer(sources, key, from + 1, at);
    }
}

/// Earlier layers win: where a layer has a key that none above it has, its
/// value is the one that is read.
pub proof fn law_earlier_layers_win(layered: Layered, key: Seq<char>, at: int)
    requires
        0 <= at < layered.layers().len(),
        layered.layers()[at].looked_up(key) is Some,
        forall|i: int| 0 <= i < at ==> (#[trigger] layered.layers()[i]).looked_up(key) is None,
    ensures
        layered.looked_up(key) == layered.layers()[at].looked_up(key),
{
    lemma_first_layer(layered.layers(), key, 0, at);
}

// ---------------------------------------------------------------------------
// Problems
// ---------------------------------------------------------------------------

/// What went wrong with one setting.
#[derive(Clone, Debug, PartialEq, Eq)]
pub enum ConfigProblem {
    /// The variable is not set and the field has no default.
    Missing,
    /// The value is set but is not of the expected type.
    Unparsable { value: String, expected: &'static str },
    /// The value parsed but broke a declared rule.
    Invalid { value: String, rule: String },
}

/// What a problem says.
pub enum ProblemView {
    Missing,
    Unparsable(Seq<char>, Seq<char>),
    Invalid(Seq<char>, Seq<char>),
}

impl View for ConfigProblem {
    type V = ProblemView;

    open spec fn view(&self) -> ProblemView {
        match self {
            ConfigProblem::Missing => ProblemView::Missing,
            ConfigProblem::Unparsable { value, expected } => ProblemView::Unparsable(
                value@,
                expected@,
            ),
            ConfigProblem::Invalid { value, rule } => ProblemView::Invalid(value@, rule@),
        }
    }
}

/// A problem as shown to people.
pub open spec fn problem_text(problem: ProblemView) -> Seq<char> {
    match problem {
        ProblemView::Missing => "is not set and has no default"@,
        ProblemView::Unparsable(value, expected) => "is `"@ + value + "`, which is not a valid "@
            + expected,
        ProblemView::Invalid(value, rule) => "is `"@ + value + "`, which "@ + rule,
    }
}

impl ConfigProblem {
    /// The problem as shown to people.
    #[must_use]
    pub fn to_string(&self) -> (text: String)
        ensures
            text@ == problem_text(self@),
    {
        let mut text = String::new();
        match self {
            ConfigProblem::Missing => {
                text.append("is not set and has no default");
            },
            ConfigProblem::Unparsable { value, expected } => {
                text.append("is `");
                text.append(value.as_str());
                text.append("`, which is not a valid ");
                text.append(*expected);
            },
            ConfigProblem::Invalid { value, rule } => {
                text.append("is `");
                text.append(value.as_str());
                text.append("`, which ");
                text.append(rule.as_str());
            },
        }
        assert(text@ =~= problem_text(self@));
        text
    }
}

/// Everything wrong with the configuration, not the first thing wrong with it.
#[derive(Clone, Debug, PartialEq, Eq)]
pub struct ConfigError {
    problems: Vec<(String, ConfigProblem)>,
}

/// What a problem of a variable says.
pub open spec fn entry_view(entry: (String, ConfigProblem)) -> (Seq<char>, ProblemView) {
    (entry.0@, entry.1@)
}

impl View for ConfigError {
    type V = Seq<(Seq<char>, ProblemView)>;

    closed spec fn view(&self) -> Seq<(Seq<char>, ProblemView)> {
        self.problems@.map_values(|entry: (String, ConfigProblem)| entry_view(entry))
    }
}

/// The variables among the first so many problems that were not set at all.
pub open spec fn missing_variables(problems: Seq<(Seq<char>, ProblemView)>, count: int) -> Seq<
    Seq<char>,
>
    decreases count,
{
    if count <= 0 {
        Seq::empty()
    } else {
        let before = missing_variables(problems, count - 1);
        if problems[count - 1].1 is Missing {
            before.push(problems[count - 1].0)
        } else {
            before
        }
    }
}

/// A text followed by the lines about the first so many problems.
pub open spec fn with_problems(
    out: Seq<char>,
    problems: Seq<(Seq<char>, ProblemView)>,
    count: int,
) -> Seq<char>
    decreases count,
{
    if count <= 0 {
        out
    } else {
        with_problems(out, problems, count - 1) + "  - "@ + problems[count - 1].0 + " "@
            + problem_text(problems[count - 1].1) + "\n"@
    }
}

/// A failure as shown to people.
pub open spec fn config_error_text(problems: Seq<(Seq<char>, ProblemView)>) -> Seq<char> {
    with_problems(
        decimal(problems.len()) + " setting(s) could not be read:\n"@,
        problems,
        problems.len() as int,
    )
}

impl Default for ConfigError {
    fn default() -> (error: Self)
        ensures
            error@ == Seq::<(Seq<char>, ProblemView)>::empty(),
    {
        ConfigError::new()
    }
}

impl ConfigError {
    #[must_use]
    pub fn new() -> (error: Self)
        ensures
            error@ == Seq::<(Seq<char>, ProblemView)>::empty(),
    {
        let error = ConfigError { problems: Vec::new() };
        assert(error@ =~= Seq::<(Seq<char>, ProblemView)>::empty());
        error
    }

    pub fn push(&mut self, variable: &str, problem: ConfigProblem)
        ensures
            final(self)@ == old(self)@.push((variable@, problem@)),
    {
        let ghost before = self@;
        self.problems.push((variable.to_owned(), problem));
        assert(self@ =~= before.push((variable@, problem@)));
    }

    #[must_use]
    pub fn is_empty(&self) -> (empty: bool)
        ensures
            empty == (self@.len() == 0),
    {
        self.problems.len() == 0
    }

    /// Every problem, as `(variable, problem)`.
    #[must_use]
    pub fn problems(&self) -> (problems: &[(String, ConfigProblem)])
        ensures
            problems@.map_values(|entry: (String, ConfigProblem)| entry_view(entry)) == self@,
    {
        self.problems.as_slice()
    }

    /// The variables that were not set at all.
    pub fn missing(&self) -> (variables: Vec<String>)
        ensures
            texts(variables@) == missing_variables(self@, self@.len() as int),
    {
        let ghost views = self@;
        let mut variables: Vec<String> = Vec::new();
        let mut index: usize = 0;
        assert(texts(variables@) =~= missing_variables(views, 0));
        while index < self.problems.len()
            invariant
                index <= self.problems@.len(),
                views == self@,
                texts(variables@) == missing_variables(views, index as int),
            decreases self.problems@.len() - index,
        {
            assert(views[index as int] == entry_view(self.problems@[index as int]));
            let ghost before = variables@;
            if let ConfigProblem::Missing = &self.problems[index].1 {
                variables.push(self.problems[index].0.clone());
                assert(texts(variables@) =~= texts(before).push(views[index as int].0));
            }
            index += 1;
        }
        variables
    }

    /// The value, unless there is a problem.
    pub fn into_result<T>(self, value: T) -> (result: Result<T, ConfigError>)
        ensures
            result == if self@.len() == 0 {
                Ok::<T, ConfigError>(value)
            } else {
                Err(self)
            },
    {
        if self.is_empty() {
            Ok(value)
        } else {
            Err(self)
        }
    }

    /// The failure as shown to people.
    #[must_use]
    pub fn to_string(&self) -> (text: String)
        ensures
            text@ == config_error_text(self@),
    {
        let ghost views = self@;
        let mut text = decimal_text(self.problems.len() as u64);
        text.append(" setting(s) could not be read:\n");
        let ghost start = text@;
        let mut index: usize = 0;
        while index < self.problems.len()
            invariant
                index <= self.problems@.len(),
                views == self@,
                text@ == with_problems(start, views, index as int),
            decreases self.problems@.len() - index,
        {
            assert(views[index as int] == entry_view(self.problems@[index as int]));
            text.append("  - ");
            text.append(self.problems[index].0.as_str());
            text.append(" ");
            text.append(self.problems[index].1.to_string().as_str());
            text.append("\n");
            index += 1;
        }
        text
    }
}

/// A type whose values come from configuration.
pub trait Settings: Sized {
    /// Reads every field, collecting every problem before failing.
    fn load(source: &dyn ConfigSource) -> Result<Self, ConfigError>;

    /// Every variable this type reads, in declaration order.
    fn variables() -> Vec<SettingDescriptor>;
}

/// One variable a settings type reads.
#[derive(Clone, Debug, PartialEq, Eq)]
pub struct SettingDescriptor {
    pub variable: String,
    pub field: &'static str,
    pub required: bool,
    pub has_default: bool,
    pub rules: Vec<ValidationRule>,
}

// ---------------------------------------------------------------------------
// Values
// ---------------------------------------------------------------------------

/// A configuration value that is not what its field needs.
#[derive(Clone, Copy, Debug, PartialEq, Eq)]
pub struct ValueError;

impl ValueError {
    /// The failure as shown to people.
    #[must_use]
    pub fn to_string(&self) -> (text: String)
        ensures
            text@ == "the value is not of the expected type"@,
    {
        "the value is not of the expected type".to_owned()
    }
}

/// A value that can be read from one configuration string.
pub trait FromConfigValue: Sized {
    /// What a value holds.
    type Held;

    /// What a value holds.
    spec fn held(self) -> Self::Held;

    /// What a text means as a value of this type, if it does.
    spec fn meant(text: Seq<char>) -> Option<Self::Held>;

    /// What to call this type when a value does not parse as one.
    spec fn expected_word() -> Seq<char>;

    /// What to call this type when a value does not parse as one.
    fn expected() -> (word: &'static str)
        ensures
            word@ == Self::expected_word(),
    ;

    /// Reads a value.
    fn from_config_value(value: &str) -> (read: Result<Self, ValueError>)
        ensures
            match read {
                Ok(value_read) => Self::meant(value@) == Some(value_read.held()),
                Err(_) => Self::meant(value@) is None,
            },
    ;
}

/// A decimal digit.
pub open spec fn is_digit(character: char) -> bool {
    '0' <= character <= '9'
}

/// The number that digits spell out.
pub open spec fn number_of(digits: Seq<char>) -> nat
    decreases digits.len(),
{
    if digits.len() == 0 {
        0
    } else {
        number_of(digits.drop_last()) * 10 + (digits.last() as nat - 48) as nat
    }
}

/// The number that a text of digits is, if it is one.
pub open spec fn natural(text: Seq<char>) -> Option<nat> {
    if text.len() > 0 && forall|i: int| 0 <= i < text.len() ==> is_digit(#[trigger] text[i]) {
        Some(number_of(text))
    } else {
        None
    }
}

/// The natural number up to a bound that a text is, possibly with a plus sign.
pub open spec fn bounded_natural(text: Seq<char>, most: int) -> Option<int> {
    let digits = if text.len() > 0 && text[0] == '+' {
        text.skip(1)
    } else {
        text
    };
    match natural(digits) {
        Some(number) => if number <= most {
            Some(number as int)
        } else {
            None
        },
        None => None,
    }
}

/// The integer between two bounds that a text is, possibly with a sign.
pub open spec fn bounded_integer(text: Seq<char>, least: int, most: int) -> Option<int> {
    if text.len() > 0 && text[0] == '-' {
        match natural(text.skip(1)) {
            Some(number) => if -number >= least {
                Some(-number)
            } else {
                None
            },
            None => None,
        }
    } else {
        bounded_natural(text, most)
    }
}

proof fn lemma_number_grows(digits: Seq<char>, count: int)
    requires
        0 <= count <= digits.len(),
        forall|i: int| 0 <= i < digits.len() ==> is_digit(#[trigger] digits[i]),
    ensures
        number_of(digits.take(count)) <= number_of(digits),
    decreases digits.len() - count,
{
    if count < digits.len() {
        lemma_number_grows(digits, count + 1);
        assert(digits.take(count + 1).drop_last() =~= digits.take(count));
        assert(digits.take(count + 1).last() == digits[count]);
    } else {
        assert(digits.take(count) =~= digits);
    }
}

/// Reads the natural number that a text of digits is. A number that is too
/// large to hold is told apart from a text that is none.
fn read_natural(text: &[char]) -> (number: Result<Option<u128>, ()>)
    ensures
        match number {
            Ok(Some(number)) => natural(text@) == Some(number as nat),
            Ok(None) => natural(text@) matches Some(number) && number > u128::MAX,
            Err(_) => natural(text@) is None,
        },
{
    if text.len() == 0 {
        return Err(());
    }
    let mut at: usize = 0;
    while at < text.len()
        invariant
            at <= text@.len(),
            forall|i: int| 0 <= i < at ==> is_digit(#[trigger] text@[i]),
        decreases text@.len() - at,
    {
        let character = text[at];
        if !('0' <= character && character <= '9') {
            assert(!is_digit(text@[at as int]));
            return Err(());
        }
        at += 1;
    }
    let mut number: u128 = 0;
    let mut index: usize = 0;
    while index < text.len()
        invariant
            index <= text@.len(),
            text@.len() > 0,
            forall|i: int| 0 <= i < text@.len() ==> is_digit(#[trigger] text@[i]),
            number == number_of(text@.take(index as int)),
        decreases text@.len() - index,
    {
        let character = text[index];
        assert(is_digit(text@[index as int]));
        let digit: u128 = (character as u32 - 48) as u128;
        proof {
            let prefix = text@.take(index + 1);
            assert(prefix.drop_last() =~= text@.take(index as int));
            assert(prefix.last() == character);
            lemma_number_grows(text@, index + 1);
        }
        number = match number.checked_mul(10) {
            Some(tens) => match tens.checked_add(digit) {
                Some(next) => next,
                None => {
                    return Ok(None);
                },
            },
            None => {
                return Ok(None);
            },
        };
        index += 1;
    }
    assert(text@.take(text@.len() as int) =~= text@);
    Ok(Some(number))
}

/// Reads the natural number up to a bound that a text is.
fn read_unsigned(text: &[char], most: u128) -> (number: Option<u128>)
    ensures
        match number {
            Some(number) => bounded_natural(text@, most as int) == Some(number as int),
            None => bounded_natural(text@, most as int) is None,
        },
{
    let digits = if text.len() > 0 && text[0] == '+' {
        vstd::slice::slice_subrange(text, 1, text.len())
    } else {
        text
    };
    proof {
        if text@.len() > 0 && text@[0] == '+' {
            assert(digits@ =~= text@.skip(1));
        }
    }
    match read_natural(digits) {
        Ok(Some(number)) => if number <= most {
            Some(number)
        } else {
            None
        },
        _ => None,
    }
}

/// Reads the integer between two bounds that a text is.
fn read_signed(text: &[char], least: i128, most: i128) -> (number: Option<i128>)
    requires
        least < 0 <= most,
    ensures
        match number {
            Some(number) => bounded_integer(text@, least as int, most as int) == Some(
                number as int,
            ),
            None => bounded_integer(text@, least as int, most as int) is None,
        },
{
    if text.len() > 0 && text[0] == '-' {
        let digits = vstd::slice::slice_subrange(text, 1, text.len());
        assert(digits@ =~= text@.skip(1));
        return match read_natural(digits) {
            Ok(Some(number)) => {
                let bound: u128 = (-(least + 1)) as u128;
                if number <= bound {
                    Some(-(number as i128))
                } else if number - 1 == bound {
                    Some(least)
                } else {
                    None
                }
            },
            _ => None,
        };
    }
    match read_unsigned(text, most as u128) {
        Some(number) => Some(number as i128),
        None => None,
    }
}

impl FromConfigValue for u8 {
    type Held = int;

    open spec fn held(self) -> int {
        self as int
    }

    open spec fn meant(text: Seq<char>) -> Option<int> {
        bounded_natural(trim_spec(text), u8::MAX as int)
    }

    open spec fn expected_word() -> Seq<char> {
        "8-bit unsigned integer"@
    }

    fn expected() -> (word: &'static str) {
        "8-bit unsigned integer"
    }

    fn from_config_value(value: &str) -> (read: Result<Self, ValueError>) {
        let text = trimmed(chars_of(value).as_slice());
        match read_unsigned(text.as_slice(), u8::MAX as u128) {
            Some(number) => Ok(number as u8),
            None => Err(ValueError),
        }
    }
}

impl FromConfigValue for u16 {
    type Held = int;

    open spec fn held(self) -> int {
        self as int
    }

    open spec fn meant(text: Seq<char>) -> Option<int> {
        bounded_natural(trim_spec(text), u16::MAX as int)
    }

    open spec fn expected_word() -> Seq<char> {
        "16-bit unsigned integer"@
    }

    fn expected() -> (word: &'static str) {
        "16-bit unsigned integer"
    }

    fn from_config_value(value: &str) -> (read: Result<Self, ValueError>) {
        let text = trimmed(chars_of(value).as_slice());
        match read_unsigned(text.as_slice(), u16::MAX as u128) {
            Some(number) => Ok(number as u16),
            None => Err(ValueError),
        }
    }
}

impl FromConfigValue for u32 {
    type Held = int;

    open spec fn held(self) -> int {
        self as int
    }

    open spec fn meant(text: Seq<char>) -> Option<int> {
        bounded_natural(trim_spec(text), u32::MAX as int)
    }

    open spec fn expected_word() -> Seq<char> {
        "32-bit unsigned integer"@
    }

    fn expected() -> (word: &'static str) {
        "32-bit unsigned integer"
    }

    fn from_config_value(value: &str) -> (read: Result<Self, ValueError>) {
        let text = trimmed(chars_of(value).as_slice());
        match read_unsigned(text.as_slice(), u32::MAX as u128) {
            Some(number) => Ok(number as u32),
            None => Err(ValueError),
        }
    }
}

impl FromConfigValue for u64 {
    type Held = int;

    open spec fn held(self) -> int {
        self as int
    }

    open spec fn meant(text: Seq<char>) -> Option<int> {
        bounded_natural(trim_spec(text), u64::MAX as int)
    }

    open spec fn expected_word() -> Seq<char> {
        "64-bit unsigned integer"@
    }

    fn expected() -> (word: &'static str) {
        "64-bit unsigned integer"
    }

    fn from_config_value(value: &str) -> (read: Result<Self, ValueError>) {
        let text = trimmed(chars_of(value).as_slice());
        match read_unsigned(text.as_slice(), u64::MAX as u128) {
            Some(number) => Ok(number as u64),
            None => Err(ValueError),
        }
    }
}

impl FromConfigValue for u128 {
    type Held = int;

    open spec fn held(self) -> int {
        self as int
    }

    open spec fn meant(text: Seq<char>) -> Option<int> {
        bounded_natural(trim_spec(text), u128::MAX as int)
    }

    open spec fn expected_word() -> Seq<char> {
        "128-bit unsigned integer"@
    }

    fn expected() -> (word: &'static str) {
        "128-bit unsigned integer"
    }

    fn from_config_value(value: &str) -> (read: Result<Self, ValueError>) {
        let text = trimmed(chars_of(value).as_slice());
        match read_unsigned(text.as_slice(), u128::MAX as u128) {
            Some(number) => Ok(number as u128),
            None => Err(ValueError),
        }
    }
}

impl FromConfigValue for usize {
    type Held = int;

    open spec fn held(self) -> int {
        self as int
    }

    open spec fn meant(text: Seq<char>) -> Option<int> {
        bounded_natural(trim_spec(text), usize::MAX as int)
    }

    open spec fn expected_word() -> Seq<char> {
        "unsigned integer"@
    }

    fn expected() -> (word: &'static str) {
        "unsigned integer"
    }

    fn from_config_value(value: &str) -> (read: Result<Self, ValueError>) {
        let text = trimmed(chars_of(value).as_slice());
        match read_unsigned(text.as_slice(), usize::MAX as u128) {
            Some(number) => Ok(number as usize),
            None => Err(ValueError),
        }
    }
}

impl FromConfigValue for i8 {
    type Held = int;

    open spec fn held(self) -> int {
        self as int
    }

    open spec fn meant(text: Seq<char>) -> Option<int> {
        bounded_integer(trim_spec(text), i8::MIN as int, i8::MAX as int)
    }

    open spec fn expected_word() -> Seq<char> {
        "8-bit signed integer"@
    }

    fn expected() -> (word: &'static str) {
        "8-bit signed integer"
    }

    fn from_config_value(value: &str) -> (read: Result<Self, ValueError>) {
        let text = trimmed(chars_of(value).as_slice());
        match read_signed(text.as_slice(), i8::MIN as i128, i8::MAX as i128) {
            Some(number) => Ok(number as i8),
            None => Err(ValueError),
        }
    }
}

impl FromConfigValue for i16 {
    type Held = int;

    open spec fn held(self) -> int {
        self as int
    }

    open spec fn meant(text: Seq<char>) -> Option<int> {
        bounded_integer(trim_spec(text), i16::MIN as int, i16::MAX as int)
    }

    open spec fn expected_word() -> Seq<char> {
        "16-bit signed integer"@
    }

    fn expected() -> (word: &'static str) {
        "16-bit signed integer"
    }

    fn from_config_value(value: &str) -> (read: Result<Self, ValueError>) {
        let text = trimmed(chars_of(value).as_slice());
        match read_signed(text.as_slice(), i16::MIN as i128, i16::MAX as i128) {
            Some(number) => Ok(number as i16),
            None => Err(ValueError),
        }
    }
}

impl FromConfigValue for i32 {
    type Held = int;

    open spec fn held(self) -> int {
        self as int
    }

    open spec fn meant(text: Seq<char>) -> Option<int> {
        bounded_integer(trim_spec(text), i32::MIN as int, i32::MAX as int)
    }

    open spec fn expected_word() -> Seq<char> {
        "32-bit signed integer"@
    }

    fn expected() -> (word: &'static str) {
        "32-bit signed integer"
    }

    fn from_config_value(value: &str) -> (read: Result<Self, ValueError>) {
        let text = trimmed(chars_of(value).as_slice());
        match read_signed(text.as_slice(), i32::MIN as i128, i32::MAX as i128) {
            Some(number) => Ok(number as i32),
            None => Err(ValueError),
        }
    }
}

impl FromConfigValue for i64 {
    type Held = int;

    open spec fn held(self) -> int {
        self as int
    }

    open spec fn meant(text: Seq<char>) -> Option<int> {
        bounded_integer(trim_spec(text), i64::MIN as int, i64::MAX as int)
    }

    open spec fn expected_word() -> Seq<char> {
        "64-bit signed integer"@
    }

    fn expected() -> (word: &'static str) {
        "64-bit signed integer"
    }

    fn from_config_value(value: &str) -> (read: Result<Self, ValueError>) {
        let text = trimmed(chars_of(value).as_slice());
        match read_signed(text.as_slice(), i64::MIN as i128, i64::MAX as i128) {
            Some(number) => Ok(number as i64),
            None => Err(ValueError),
        }
    }
}

impl FromConfigValue for i128 {
    type Held = int;

    open spec fn held(self) -> int {
        self as int
    }

    open spec fn meant(text: Seq<char>) -> Option<int> {
        bounded_integer(trim_spec(text), i128::MIN as int, i128::MAX as int)
    }

    open spec fn expected_word() -> Seq<char> {
        "128-bit signed integer"@
    }

    fn expected() -> (word: &'static str) {
        "128-bit signed integer"
    }

    fn from_config_value(value: &str) -> (read: Result<Self, ValueError>) {
        let text = trimmed(chars_of(value).as_slice());
        match read_signed(text.as_slice(), i128::MIN as i128, i128::MAX as i128) {
            Some(number) => Ok(number as i128),
            None => Err(ValueError),
        }
    }
}

impl FromConfigValue for isize {
    type Held = int;

    open spec fn held(self) -> int {
        self as int
    }

    open spec fn meant(text: Seq<char>) -> Option<int> {
        bounded_integer(trim_spec(text), isize::MIN as int, isize::MAX as int)
    }

    open spec fn expected_word() -> Seq<char> {
        "signed integer"@
    }

    fn expected() -> (word: &'static str) {
        "signed integer"
    }

    fn from_config_value(value: &str) -> (read: Result<Self, ValueError>) {
        let text = trimmed(chars_of(value).as_slice());
        match read_signed(text.as_slice(), isize::MIN as i128, isize::MAX as i128) {
            Some(number) => Ok(number as isize),
            None => Err(ValueError),
        }
    }
}

impl FromConfigValue for char {
    type Held = char;

    open spec fn held(self) -> char {
        self
    }

    open spec fn meant(text: Seq<char>) -> Option<char> {
        if trim_spec(text).len() == 1 {
            Some(trim_spec(text)[0])
        } else {
            None
        }
    }

    open spec fn expected_word() -> Seq<char> {
        "single character"@
    }

    fn expected() -> (word: &'static str) {
        "single character"
    }

    fn from_config_value(value: &str) -> (read: Result<Self, ValueError>) {
        let text = trimmed(chars_of(value).as_slice());
        if text.len() == 1 {
            Ok(text[0])
        } else {
            Err(ValueError)
        }
    }
}

/// A number that is not zero.
#[derive(Clone, Copy, Debug, PartialEq, Eq)]
pub struct Positive<T> {
    pub value: T,
}

/// The number above zero, up to a bound, that a text is.
pub open spec fn bounded_positive(text: Seq<char>, most: int) -> Option<int> {
    match bounded_natural(text, most) {
        Some(number) => if number > 0 {
            Some(number)
        } else {
            None
        },
        None => None,
    }
}

/// Reads the number above zero, up to a bound, that a text is.
fn read_positive(text: &[char], most: u128) -> (number: Option<u128>)
    ensures
        match number {
            Some(number) => bounded_positive(text@, most as int) == Some(number as int),
            None => bounded_positive(text@, most as int) is None,
        },
{
    match read_unsigned(text, most) {
        Some(number) => if number > 0 {
            Some(number)
        } else {
            None
        },
        None => None,
    }
}

impl FromConfigValue for Positive<usize> {
    type Held = int;

    open spec fn held(self) -> int {
        self.value as int
    }

    open spec fn meant(text: Seq<char>) -> Option<int> {
        bounded_positive(trim_spec(text), usize::MAX as int)
    }

    open spec fn expected_word() -> Seq<char> {
        "positive integer"@
    }

    fn expected() -> (word: &'static str) {
        "positive integer"
    }

    fn from_config_value(value: &str) -> (read: Result<Self, ValueError>) {
        let text = trimmed(chars_of(value).as_slice());
        match read_positive(text.as_slice(), usize::MAX as u128) {
            Some(number) => Ok(Positive { value: number as usize }),
            None => Err(ValueError),
        }
    }
}

impl FromConfigValue for Positive<u16> {
    type Held = int;

    open spec fn held(self) -> int {
        self.value as int
    }

    open spec fn meant(text: Seq<char>) -> Option<int> {
        bounded_positive(trim_spec(text), u16::MAX as int)
    }

    open spec fn expected_word() -> Seq<char> {
        "positive 16-bit integer"@
    }

    fn expected() -> (word: &'static str) {
        "positive 16-bit integer"
    }

    fn from_config_value(value: &str) -> (read: Result<Self, ValueError>) {
        let text = trimmed(chars_of(value).as_slice());
        match read_positive(text.as_slice(), u16::MAX as u128) {
            Some(number) => Ok(Positive { value: number as u16 }),
            None => Err(ValueError),
        }
    }
}

impl FromConfigValue for Positive<u32> {
    type Held = int;

    open spec fn held(self) -> int {
        self.value as int
    }

    open spec fn meant(text: Seq<char>) -> Option<int> {
        bounded_positive(trim_spec(text), u32::MAX as int)
    }

    open spec fn expected_word() -> Seq<char> {
        "positive 32-bit integer"@
    }

    fn expected() -> (word: &'static str) {
        "positive 32-bit integer"
    }

    fn from_config_value(value: &str) -> (read: Result<Self, ValueError>) {
        let text = trimmed(chars_of(value).as_slice());
        match read_positive(text.as_slice(), u32::MAX as u128) {
            Some(number) => Ok(Positive { value: number as u32 }),
            None => Err(ValueError),
        }
    }
}

impl FromConfigValue for Positive<u64> {
    type Held = int;

    open spec fn held(self) -> int {
        self.value as int
    }

    open spec fn meant(text: Seq<char>) -> Option<int> {
        bounded_positive(trim_spec(text), u64::MAX as int)
    }

    open spec fn expected_word() -> Seq<char> {
        "positive 64-bit integer"@
    }

    fn expected() -> (word: &'static str) {
        "positive 64-bit integer"
    }

    fn from_config_value(value: &str) -> (read: Result<Self, ValueError>) {
        let text = trimmed(chars_of(value).as_slice());
        match read_positive(text.as_slice(), u64::MAX as u128) {
            Some(number) => Ok(Positive { value: number as u64 }),
            None => Err(ValueError),
        }
    }
}

/// A path as configuration spells it.
#[derive(Clone, Debug, PartialEq, Eq)]
pub struct ConfigPath {
    pub text: String,
}

impl FromConfigValue for ConfigPath {
    type Held = Seq<char>;

    open spec fn held(self) -> Seq<char> {
        self.text@
    }

    open spec fn meant(text: Seq<char>) -> Option<Seq<char>> {
        Some(trim_spec(text))
    }

    open spec fn expected_word() -> Seq<char> {
        "path"@
    }

    fn expected() -> (word: &'static str) {
        "path"
    }

    fn from_config_value(value: &str) -> (read: Result<Self, ValueError>) {
        let text = trimmed(chars_of(value).as_slice());
        Ok(ConfigPath { text: string_from(text.as_slice()) })
    }
}

impl FromConfigValue for String {
    type Held = Seq<char>;

    open spec fn held(self) -> Seq<char> {
        self@
    }

    open spec fn meant(text: Seq<char>) -> Option<Seq<char>> {
        Some(text)
    }

    open spec fn expected_word() -> Seq<char> {
        "string"@
    }

    fn expected() -> (word: &'static str) {
        "string"
    }

    fn from_config_value(value: &str) -> (read: Result<Self, ValueError>) {
        Ok(value.to_owned())
    }
}

/// The flag that a word stands for.
pub open spec fn flag_meant(word: Seq<char>) -> Option<bool> {
    if word == "true"@ || word == "1"@ || word == "yes"@ || word == "y"@ || word == "on"@ {
        Some(true)
    } else if word == "false"@ || word == "0"@ || word == "no"@ || word == "n"@ || word == "off"@ {
        Some(false)
    } else {
        None
    }
}

impl FromConfigValue for bool {
    type Held = bool;

    open spec fn held(self) -> bool {
        self
    }

    open spec fn meant(text: Seq<char>) -> Option<bool> {
        flag_meant(lower_all(trim_spec(text)))
    }

    open spec fn expected_word() -> Seq<char> {
        "boolean (`true`/`false`, `1`/`0`, `yes`/`no`, `on`/`off`)"@
    }

    fn expected() -> (word: &'static str) {
        "boolean (`true`/`false`, `1`/`0`, `yes`/`no`, `on`/`off`)"
    }

    /// Configuration spells booleans more ways than Rust does, and a deployment
    /// that writes `ENABLED=1` should not be told that is not a boolean.
    fn from_config_value(value: &str) -> (read: Result<Self, ValueError>) {
        let text = string_from(trimmed(chars_of(value).as_slice()).as_slice());
        let word = lower_text(text.as_str());
        let flag = word.as_str();
        if eq_text(flag, "true") || eq_text(flag, "1") || eq_text(flag, "yes") || eq_text(flag, "y")
            || eq_text(flag, "on") {
            return Ok(true);
        }
        if eq_text(flag, "false") || eq_text(flag, "0") || eq_text(flag, "no") || eq_text(flag, "n")
            || eq_text(flag, "off") {
            return Ok(false);
        }
        Err(ValueError)
    }
}

/// A length of time as configuration spells it.
#[derive(Clone, Copy, Debug, PartialEq, Eq)]
pub struct ConfigDuration {
    pub milliseconds: u64,
}

/// A text split into the amount and the milliseconds of one unit. A bare number
/// is seconds, which is what most deployments mean.
pub open spec fn amount_and_unit(text: Seq<char>) -> (Seq<char>, int) {
    let count = text.len() as int;
    if count >= 2 && text[count - 2] == 'm' && text[count - 1] == 's' {
        (text.take(count - 2), 1)
    } else if count >= 1 && text[count - 1] == 's' {
        (text.take(count - 1), 1_000)
    } else if count >= 1 && text[count - 1] == 'm' {
        (text.take(count - 1), 60_000)
    } else if count >= 1 && text[count - 1] == 'h' {
        (text.take(count - 1), 3_600_000)
    } else {
        (text, 1_000)
    }
}

impl FromConfigValue for ConfigDuration {
    type Held = int;

    open spec fn held(self) -> int {
        self.milliseconds as int
    }

    open spec fn meant(text: Seq<char>) -> Option<int> {
        let (amount, unit) = amount_and_unit(trim_spec(text));
        match bounded_natural(trim_spec(amount), u64::MAX as int) {
            Some(number) => if number * unit <= u64::MAX {
                Some(number * unit)
            } else {
                None
            },
            None => None,
        }
    }

    open spec fn expected_word() -> Seq<char> {
        "duration (`30s`, `5m`, `2h`, `100ms`, or seconds)"@
    }

    fn expected() -> (word: &'static str) {
        "duration (`30s`, `5m`, `2h`, `100ms`, or seconds)"
    }

    fn from_config_value(value: &str) -> (read: Result<Self, ValueError>) {
        let text = trimmed(chars_of(value).as_slice());
        let count: usize = text.len();
        let (kept, unit): (usize, u64) = if count >= 2 && text[count - 2] == 'm' && text[count - 1]
            == 's' {
            (count - 2, 1)
        } else if count >= 1 && text[count - 1] == 's' {
            (count - 1, 1_000)
        } else if count >= 1 && text[count - 1] == 'm' {
            (count - 1, 60_000)
        } else if count >= 1 && text[count - 1] == 'h' {
            (count - 1, 3_600_000)
        } else {
            (count, 1_000)
        };
        let amount = vstd::slice::slice_subrange(text.as_slice(), 0, kept);
        proof {
            assert(amount@ =~= text@.take(kept as int));
            assert(text@.take(count as int) =~= text@);
            assert(amount_and_unit(text@) == (amount@, unit as int));
        }
        let digits = trimmed(amount);
        match read_unsigned(digits.as_slice(), u64::MAX as u128) {
            Some(number) => match (number as u64).checked_mul(unit) {
                Some(milliseconds) => Ok(ConfigDuration { milliseconds }),
                None => Err(ValueError),
            },
            None => Err(ValueError),
        }
    }
}

/// What the first so many entries of a list mean, if they all do.
pub open spec fn entries_meant<T: FromConfigValue>(entries: Seq<Seq<char>>, count: int) -> Option<
    Seq<T::Held>,
>
    decreases count,
{
    if count <= 0 {
        Some(Seq::empty())
    } else {
        match (
            entries_meant::<T>(entries, count - 1),
            T::meant(trim_spec(entries[count - 1])),
        ) {
            (Some(before), Some(held)) => Some(before.push(held)),
            _ => None,
        }
    }
}

proof fn lemma_entries_fail<T: FromConfigValue>(entries: Seq<Seq<char>>, at: int, count: int)
    requires
        0 <= at <= count,
        entries_meant::<T>(entries, at) is None,
    ensures
        entries_meant::<T>(entries, count) is None,
    decreases count - at,
{
    if at < count {
        lemma_entries_fail::<T>(entries, at + 1, count);
    }
}

impl<T: FromConfigValue> FromConfigValue for Vec<T> {
    type Held = Seq<T::Held>;

    open spec fn held(self) -> Seq<T::Held> {
        self@.map_values(|entry: T| entry.held())
    }

    open spec fn meant(text: Seq<char>) -> Option<Seq<T::Held>> {
        let kept = trim_spec(text);
        if kept.len() == 0 {
            Some(Seq::empty())
        } else {
            let entries = split_spec(kept, ',');
            entries_meant::<T>(entries, entries.len() as int)
        }
    }

    open spec fn expected_word() -> Seq<char> {
        T::expected_word()
    }

    fn expected() -> (word: &'static str) {
        T::expected()
    }

    /// Comma-separated, with surrounding whitespace trimmed and an empty text
    /// reading as an empty list rather than as one empty element.
    fn from_config_value(value: &str) -> (read: Result<Self, ValueError>) {
        let text = trimmed(chars_of(value).as_slice());
        let mut values: Vec<T> = Vec::new();
        if text.len() == 0 {
            assert(values.held() =~= Seq::<T::Held>::empty());
            return Ok(values);
        }
        let entries = split_chars(text.as_slice(), ',');
        let ghost views = char_lists(entries@);
        let mut index: usize = 0;
        assert(values.held() =~= Seq::<T::Held>::empty());
        while index < entries.len()
            invariant
                index <= entries@.len(),
                views == char_lists(entries@),
                text@ == trim_spec(value@),
                text@.len() > 0,
                views == split_spec(text@, ','),
                entries_meant::<T>(views, index as int) == Some(values.held()),
            decreases entries@.len() - index,
        {
            assert(views[index as int] == entries@[index as int]@);
            let entry = string_from(trimmed(entries[index].as_slice()).as_slice());
            let ghost before = values.held();
            match T::from_config_value(entry.as_str()) {
                Ok(held) => {
                    values.push(held);
                    assert(values.held() =~= before.push(held.held()));
                },
                Err(_) => {
                    proof {
                        lemma_entries_fail::<T>(views, index + 1, views.len() as int);
                    }
                    return Err(ValueError);
                },
            }
            index += 1;
        }
        Ok(values)
    }
}

// ---------------------------------------------------------------------------
// Reading
// ---------------------------------------------------------------------------

/// What reading a raw value gives, and the problems that are known from then
/// on.
pub open spec fn parsed_as<T: FromConfigValue>(
    raw: Seq<char>,
    variable: Seq<char>,
    known: Seq<(Seq<char>, ProblemView)>,
) -> (Option<T::Held>, Seq<(Seq<char>, ProblemView)>) {
    match T::meant(raw) {
        Some(held) => (Some(held), known),
        None => (
            None,
            known.push((variable, ProblemView::Unparsable(raw, T::expected_word()))),
        ),
    }
}

/// What an optional value holds.
pub open spec fn opt_held<T: FromConfigValue>(value: Option<T>) -> Option<T::Held> {
    match value {
        Some(value) => Some(value.held()),
        None => None,
    }
}

fn parse<T: FromConfigValue>(raw: String, variable: &str, errors: &mut ConfigError) -> (value: Option<
    T,
>)
    ensures
        (opt_held(value), final(errors)@) == parsed_as::<T>(raw@, variable@, old(errors)@),
{
    match T::from_config_value(raw.as_str()) {
        Ok(value) => Some(value),
        Err(_) => {
            errors.push(
                variable,
                ConfigProblem::Unparsable { value: raw, expected: T::expected() },
            );
            None
        },
    }
}

/// What reading a required field gives, and the problems that are known from
/// then on.
pub open spec fn read_as<T: FromConfigValue>(
    set: Option<Seq<char>>,
    default: Option<Seq<char>>,
    variable: Seq<char>,
    known: Seq<(Seq<char>, ProblemView)>,
) -> (Option<T::Held>, Seq<(Seq<char>, ProblemView)>) {
    match set {
        Some(raw) => parsed_as::<T>(raw, variable, known),
        None => match default {
            Some(raw) => parsed_as::<T>(raw, variable, known),
            None => (None, known.push((variable, ProblemView::Missing))),
        },
    }
}

/// Reads one required field, recording the problem instead of returning it so
/// that the caller can go on and find the rest.
pub fn read<T: FromConfigValue>(
    source: &(impl ConfigSource + ?Sized),
    variable: &str,
    default: Option<&str>,
    errors: &mut ConfigError,
) -> (value: Option<T>)
    ensures
        (opt_held(value), final(errors)@) == read_as::<T>(
            source.looked_up(variable@),
            match default {
                Some(default) => Some(default@),
                None => None,
            },
            variable@,
            old(errors)@,
        ),
{
    match source.get(variable) {
        Some(raw) => parse(raw, variable, errors),
        None => match default {
            Some(default) => parse(default.to_owned(), variable, errors),
            None => {
                errors.push(variable, ConfigProblem::Missing);
                None
            },
        },
    }
}

/// Reads one optional field. An unset variable is nothing; a set variable that
/// does not parse is still a problem.
pub fn read_optional<T: FromConfigValue>(
    source: &(impl ConfigSource + ?Sized),
    variable: &str,
    errors: &mut ConfigError,
) -> (value: Option<T>)
    ensures
        (opt_held(value), final(errors)@) == match source.looked_up(variable@) {
            Some(raw) => parsed_as::<T>(raw, variable@, old(errors)@),
            None => (None, old(errors)@),
        },
{
    match source.get(variable) {
        Some(raw) => parse(raw, variable, errors),
        None => None,
    }
}

/// The raw value of a required field: what is set, or else its default.
#[must_use]
pub fn raw_value(set: Option<String>, default: Option<&str>) -> (raw: Option<String>)
    ensures
        opt_text(raw) == match set {
            Some(set) => Some(set@),
            None => match default {
                Some(default) => Some(default@),
                None => None,
            },
        },
{
    match set {
        Some(set) => Some(set),
        None => match default {
            Some(default) => Some(default.to_owned()),
            None => None,
        },
    }
}

/// Decides on a required field whose type reads itself: without a raw value the
/// field is missing, and a value that was not read is a problem that names what
/// was expected.
pub fn read_as_parsed<V>(
    raw: Option<String>,
    parsed: Option<V>,
    variable: &str,
    expected: &'static str,
    errors: &mut ConfigError,
) -> (value: Option<V>)
    ensures
        value == match raw {
            Some(_) => parsed,
            None => None,
        },
        final(errors)@ == match raw {
            Some(raw) => if parsed is Some {
                old(errors)@
            } else {
                old(errors)@.push((variable@, ProblemView::Unparsable(raw@, expected@)))
            },
            None => old(errors)@.push((variable@, ProblemView::Missing)),
        },
{
    match raw {
        None => {
            errors.push(variable, ConfigProblem::Missing);
            None
        },
        Some(raw) => match parsed {
            Some(value) => Some(value),
            None => {
                errors.push(variable, ConfigProblem::Unparsable { value: raw, expected });
                None
            },
        },
    }
}

/// The problems known once a text was held against the least length it may have.
pub open spec fn min_length_checked(
    value: Seq<char>,
    minimum: usize,
    variable: Seq<char>,
    known: Seq<(Seq<char>, ProblemView)>,
) -> Seq<(Seq<char>, ProblemView)> {
    if value.len() < minimum {
        known.push(
            (
                variable,
                ProblemView::Invalid(
                    value,
                    "is shorter than the required "@ + decimal(minimum as nat) + " characters"@,
                ),
            ),
        )
    } else {
        known
    }
}

/// The problems known once a text was held against the greatest length it may
/// have.
pub open spec fn max_length_checked(
    value: Seq<char>,
    maximum: usize,
    variable: Seq<char>,
    known: Seq<(Seq<char>, ProblemView)>,
) -> Seq<(Seq<char>, ProblemView)> {
    if value.len() > maximum {
        known.push(
            (
                variable,
                ProblemView::Invalid(
                    value,
                    "is longer than the permitted "@ + decimal(maximum as nat) + " characters"@,
                ),
            ),
        )
    } else {
        known
    }
}

/// A length rule is broken exactly by the lengths that it excludes: the bound
/// itself is allowed, one less or one more is not, and a broken rule adds one
/// problem under the variable and keeps those known before.
pub proof fn law_length_bounds_are_allowed(
    value: Seq<char>,
    bound: usize,
    variable: Seq<char>,
    known: Seq<(Seq<char>, ProblemView)>,
)
    ensures
        ({
            let low = min_length_checked(value, bound, variable, known);
            let high = max_length_checked(value, bound, variable, known);
            &&& value.len() == bound ==> low == known && high == known
            &&& value.len() >= bound ==> low == known
            &&& value.len() <= bound ==> high == known
            &&& value.len() + 1 <= bound ==> low.len() == known.len() + 1 && low.drop_last()
                == known && low.last().0 == variable && low.last().1 is Invalid
            &&& value.len() >= bound + 1 ==> high.len() == known.len() + 1 && high.drop_last()
                == known && high.last().0 == variable && high.last().1 is Invalid
        }),
{
    assert(min_length_checked(value, bound, variable, known).drop_last() =~= known
        || value.len() >= bound);
    assert(max_length_checked(value, bound, variable, known).drop_last() =~= known
        || value.len() <= bound);
}

/// Records a text that is shorter than it may be.
pub fn check_min_length(value: &str, minimum: usize, variable: &str, errors: &mut ConfigError)
    ensures
        final(errors)@ == min_length_checked(value@, minimum, variable@, old(errors)@),
{
    if value.unicode_len() < minimum {
        let mut rule = "is shorter than the required ".to_owned();
        rule.append(decimal_text(minimum as u64).as_str());
        rule.append(" characters");
        errors.push(variable, ConfigProblem::Invalid { value: value.to_owned(), rule });
    }
}

/// Records a text that is longer than it may be.
pub fn check_max_length(value: &str, maximum: usize, variable: &str, errors: &mut ConfigError)
    ensures
        final(errors)@ == max_length_checked(value@, maximum, variable@, old(errors)@),
{
    if value.unicode_len() > maximum {
        let mut rule = "is longer than the permitted ".to_owned();
        rule.append(decimal_text(maximum as u64).as_str());
        rule.append(" characters");
        errors.push(variable, ConfigProblem::Invalid { value: value.to_owned(), rule });
    }
}

/// Problems are collected, not replaced: reading a field keeps every problem
/// that was known before.
pub proof fn law_problems_are_collected<T: FromConfigValue>(
    set: Option<Seq<char>>,
    default: Option<Seq<char>>,
    variable: Seq<char>,
    known: Seq<(Seq<char>, ProblemView)>,
)
    ensures
        ({
            let (value, after) = read_as::<T>(set, default, variable, known);
            &&& after.len() >= known.len()
            &&& after.take(known.len() as int) == known
            &&& value is Some ==> after == known
            &&& value is None ==> after.len() == known.len() + 1 && after.last().0 == variable
        }),
{
    let (value, after) = read_as::<T>(set, default, variable, known);
    assert(after.take(known.len() as int) =~= known);
}

// ---------------------------------------------------------------------------
// What values mean
// ---------------------------------------------------------------------------

proof fn lemma_digits(number: nat)
    ensures
        natural(decimal(number)) == Some(number),
        trim_spec(decimal(number)) == decimal(number),
        decimal(number)[0] != '+' && decimal(number)[0] != '-',
        decimal(number).len() > 0,
{
    law_decimals_stand_for_their_number(number);
    let text = decimal(number);
    lemma_number_of(text);
    assert forall|i: int| 0 <= i < text.len() implies is_digit(#[trigger] text[i]) by {}
    lemma_untrimmed(text);
}

proof fn lemma_untrimmed(text: Seq<char>)
    requires
        text.len() > 0,
        !white_spec(text[0]),
        !white_spec(text.last()),
    ensures
        trim_spec(text) == text,
{
    assert(trim_start_spec(text) == text);
    assert(trim_end_spec(text) == text);
}

proof fn lemma_number_of(digits: Seq<char>)
    requires
        forall|i: int| 0 <= i < digits.len() ==> '0' <= #[trigger] digits[i] <= '9',
    ensures
        number_of(digits) == decimal_value(digits),
    decreases digits.len(),
{
    if digits.len() > 0 {
        let head = digits.drop_last();
        assert forall|i: int| 0 <= i < head.len() implies '0' <= #[trigger] head[i] <= '9' by {
            assert(head[i] == digits[i]);
        }
        lemma_number_of(head);
        assert('0' <= digits[digits.len() - 1] <= '9');
    }
}

/// A number written in decimal notation is read back where it fits the type, and
/// is no value of the type where it does not.
pub proof fn law_numbers_are_read_back(number: nat)
    ensures
        u8::meant(decimal(number)) == fitting(number as int, 0, u8::MAX as int),
        u16::meant(decimal(number)) == fitting(number as int, 0, u16::MAX as int),
        u32::meant(decimal(number)) == fitting(number as int, 0, u32::MAX as int),
        u64::meant(decimal(number)) == fitting(number as int, 0, u64::MAX as int),
        u128::meant(decimal(number)) == fitting(number as int, 0, u128::MAX as int),
        usize::meant(decimal(number)) == fitting(number as int, 0, usize::MAX as int),
        i8::meant(decimal(number)) == fitting(number as int, i8::MIN as int, i8::MAX as int),
        i16::meant(decimal(number)) == fitting(number as int, i16::MIN as int, i16::MAX as int),
        i32::meant(decimal(number)) == fitting(number as int, i32::MIN as int, i32::MAX as int),
        i64::meant(decimal(number)) == fitting(number as int, i64::MIN as int, i64::MAX as int),
        i128::meant(decimal(number)) == fitting(number as int, i128::MIN as int, i128::MAX as int),
        isize::meant(decimal(number)) == fitting(
            number as int,
            isize::MIN as int,
            isize::MAX as int,
        ),
        Positive::<usize>::meant(decimal(number)) == fitting(number as int, 1, usize::MAX as int),
        Positive::<u16>::meant(decimal(number)) == fitting(number as int, 1, u16::MAX as int),
        Positive::<u32>::meant(decimal(number)) == fitting(number as int, 1, u32::MAX as int),
        Positive::<u64>::meant(decimal(number)) == fitting(number as int, 1, u64::MAX as int),
{
    lemma_digits(number);
}

/// A number between two bounds.
pub open spec fn fitting(number: int, least: int, most: int) -> Option<int> {
    if least <= number <= most {
        Some(number)
    } else {
        None
    }
}

/// A number with a sign is read with that sign: a minus is only for signed types,
/// a plus is for all.
pub proof fn law_signs_are_read(number: nat)
    ensures
        ({
            let minus = seq!['-'] + decimal(number);
            let plus = seq!['+'] + decimal(number);
            &&& i8::meant(minus) == fitting(-number, i8::MIN as int, i8::MAX as int)
            &&& i16::meant(minus) == fitting(-number, i16::MIN as int, i16::MAX as int)
            &&& i32::meant(minus) == fitting(-number, i32::MIN as int, i32::MAX as int)
            &&& i64::meant(minus) == fitting(-number, i64::MIN as int, i64::MAX as int)
            &&& i128::meant(minus) == fitting(-number, i128::MIN as int, i128::MAX as int)
            &&& isize::meant(minus) == fitting(-number, isize::MIN as int, isize::MAX as int)
            &&& u8::meant(minus) is None
            &&& u16::meant(minus) is None
            &&& u32::meant(minus) is None
            &&& u64::meant(minus) is None
            &&& u128::meant(minus) is None
            &&& usize::meant(minus) is None
            &&& u64::meant(plus) == fitting(number as int, 0, u64::MAX as int)
            &&& i64::meant(plus) == fitting(number as int, i64::MIN as int, i64::MAX as int)
        }),
{
    lemma_digits(number);
    let digits = decimal(number);
    law_decimals_stand_for_their_number(number);
    let minus = seq!['-'] + digits;
    let plus = seq!['+'] + digits;
    assert(minus[0] == '-' && plus[0] == '+');
    assert(minus.last() == digits.last() && plus.last() == digits.last());
    assert('0' <= digits[digits.len() - 1] <= '9');
    lemma_untrimmed(minus);
    lemma_untrimmed(plus);
    assert(minus.skip(1) =~= digits);
    assert(plus.skip(1) =~= digits);
    assert(natural(minus) is None) by {
        assert(!is_digit(minus[0]));
    }
}

/// White space around a value makes no difference to what it means, except for a
/// text, which means exactly what it is.
pub proof fn law_white_space_around_values_is_ignored(text: Seq<char>)
    ensures
        u64::meant(trim_spec(text)) == u64::meant(text),
        i64::meant(trim_spec(text)) == i64::meant(text),
        bool::meant(trim_spec(text)) == bool::meant(text),
        char::meant(trim_spec(text)) == char::meant(text),
        ConfigDuration::meant(trim_spec(text)) == ConfigDuration::meant(text),
        String::meant(text) == Some(text),
{
    let (start, end) = law_trimming_takes_off_white_space(text);
}

/// A flag is on for `true`, `1`, `yes`, `y` and `on`, off for `false`, `0`, `no`,
/// `n` and `off`, in any ASCII case, and nothing else is a flag.
pub proof fn law_flags_are_words(text: Seq<char>)
    ensures
        ({
            let word = lower_all(trim_spec(text));
            let on = word == "true"@ || word == "1"@ || word == "yes"@ || word == "y"@ || word
                == "on"@;
            let off = word == "false"@ || word == "0"@ || word == "no"@ || word == "n"@ || word
                == "off"@;
            &&& on ==> bool::meant(text) == Some(true)
            &&& off ==> bool::meant(text) == Some(false)
            &&& !on && !off ==> bool::meant(text) is None
        }),
{
    reveal_strlit("true");
    reveal_strlit("1");
    reveal_strlit("yes");
    reveal_strlit("y");
    reveal_strlit("on");
    reveal_strlit("false");
    reveal_strlit("0");
    reveal_strlit("no");
    reveal_strlit("n");
    reveal_strlit("off");
    assert("true"@[0] == 't' && "1"@[0] == '1' && "yes"@[0] == 'y' && "y"@[0] == 'y');
    assert("on"@[0] == 'o' && "on"@.len() == 2 && "off"@[0] == 'o' && "off"@.len() == 3);
    assert("false"@[0] == 'f' && "0"@[0] == '0' && "no"@[0] == 'n' && "n"@[0] == 'n');
}

/// A duration is an amount with a unit: milliseconds, seconds, minutes or hours,
/// and seconds where it has none.
pub proof fn law_durations_have_units(number: nat)
    requires
        number * 3_600_000 <= u64::MAX,
    ensures
        ConfigDuration::meant(decimal(number) + seq!['m', 's']) == Some(number as int),
        ConfigDuration::meant(decimal(number).push('s')) == Some(number * 1000int),
        ConfigDuration::meant(decimal(number).push('m')) == Some(number * 60int * 1000int),
        ConfigDuration::meant(decimal(number).push('h')) == Some(number * 60int * 60int * 1000int),
        ConfigDuration::meant(decimal(number)) == Some(number * 1000int),
{
    lemma_digits(number);
    law_decimals_stand_for_their_number(number);
    let digits = decimal(number);
    let count = digits.len() as int;
    assert('0' <= digits[0] <= '9');
    assert('0' <= digits[count - 1] <= '9');
    let ms = digits + seq!['m', 's'];
    assert(ms.last() == 's' && ms[0] == digits[0]);
    lemma_untrimmed(ms);
    assert(ms.len() == count + 2);
    assert(ms[count] == 'm' && ms[count + 1] == 's');
    assert(ms.take(count) =~= digits);
    assert(amount_and_unit(ms) == (digits, 1int));
    assert(number * 1 == number);
    let s = digits.push('s');
    assert(s.last() == 's' && s[0] == digits[0]);
    lemma_untrimmed(s);
    assert(s[count - 1] == digits[count - 1]);
    assert(s.take(count) =~= digits);
    let m = digits.push('m');
    assert(m.last() == 'm' && m[0] == digits[0]);
    lemma_untrimmed(m);
    assert(m.take(count) =~= digits);
    let h = digits.push('h');
    assert(h.last() == 'h' && h[0] == digits[0]);
    lemma_untrimmed(h);
    assert(h.take(count) =~= digits);
}

/// A list holds what its entries mean, in order, and means nothing where one of
/// them does.
pub proof fn law_lists_hold_their_entries<T: FromConfigValue>(entries: Seq<Seq<char>>)
    requires
        entries.len() > 0,
        forall|i: int, j: int|
            0 <= i < entries.len() && 0 <= j < entries[i].len() ==> #[trigger] entries[i][j] != ',',
        trim_spec(joined_by(entries, ',')) == joined_by(entries, ','),
        joined_by(entries, ',').len() > 0,
    ensures
        match Vec::<T>::meant(joined_by(entries, ',')) {
            Some(list) => list.len() == entries.len() && forall|i: int|
                0 <= i < entries.len() ==> T::meant(trim_spec(#[trigger] entries[i])) == Some(
                    list[i],
                ),
            None => exists|i: int|
                0 <= i < entries.len() && T::meant(trim_spec(#[trigger] entries[i])) is None,
        },
{
    law_joined_texts_are_split_again(entries, ',');
    lemma_entries_meant::<T>(entries, entries.len() as int);
}

proof fn lemma_entries_meant<T: FromConfigValue>(entries: Seq<Seq<char>>, count: int)
    requires
        0 <= count <= entries.len(),
    ensures
        match entries_meant::<T>(entries, count) {
            Some(list) => list.len() == count && forall|i: int|
                0 <= i < count ==> T::meant(trim_spec(#[trigger] entries[i])) == Some(list[i]),
            None => exists|i: int|
                0 <= i < count && T::meant(trim_spec(#[trigger] entries[i])) is None,
        },
    decreases count,
{
    if count > 0 {
        lemma_entries_meant::<T>(entries, count - 1);
        assert(entries[count - 1] == entries[count - 1]);
    }
}

/// A value that is set is read, whatever the default is; a default is read where
/// nothing is set, and a field with neither is reported as missing. A value that
/// means nothing is reported with what was given and what was expected.
pub proof fn law_set_values_come_before_defaults<T: FromConfigValue>(
    set: Seq<char>,
    default: Option<Seq<char>>,
    variable: Seq<char>,
    known: Seq<(Seq<char>, ProblemView)>,
)
    ensures
        read_as::<T>(Some(set), default, variable, known) == read_as::<T>(
            None,
            Some(set),
            variable,
            known,
        ),
        T::meant(set) is Some ==> read_as::<T>(Some(set), default, variable, known) == (
            T::meant(set),
            known,
        ),
        T::meant(set) is None ==> read_as::<T>(Some(set), default, variable, known) == (
            None::<T::Held>,
            known.push((variable, ProblemView::Unparsable(set, T::expected_word()))),
        ),
        read_as::<T>(None, None, variable, known) == (
            None::<T::Held>,
            known.push((variable, ProblemView::Missing)),
        ),
{
}

/// The missing variables of a list of problems are those that are reported as
/// missing, and nothing else.
pub proof fn law_missing_variables_are_those_reported(
    problems: Seq<(Seq<char>, ProblemView)>,
    variable: Seq<char>,
)
    ensures
        missing_variables(problems, problems.len() as int).contains(variable) <==> exists|i: int|
            0 <= i < problems.len() && (#[trigger] problems[i]).0 == variable
                && problems[i].1 is Missing,
{
    lemma_missing_variables(problems, problems.len() as int, variable);
}

proof fn lemma_missing_variables(
    problems: Seq<(Seq<char>, ProblemView)>,
    count: int,
    variable: Seq<char>,
)
    requires
        0 <= count <= problems.len(),
    ensures
        missing_variables(problems, count).contains(variable) <==> exists|i: int|
            0 <= i < count && (#[trigger] problems[i]).0 == variable && problems[i].1 is Missing,
    decreases count,
{
    if count > 0 {
        let before = missing_variables(problems, count - 1);
        let all = missing_variables(problems, count);
        lemma_missing_variables(problems, count - 1, variable);
        if before.contains(variable) {
            let i = choose|i: int| 0 <= i < before.len() && before[i] == variable;
            assert(all[i] == variable);
        }
        if problems[count - 1].1 is Missing {
            assert(all[all.len() - 1] == problems[count - 1].0);
        }
        if all.contains(variable) {
            let i = choose|i: int| 0 <= i < all.len() && all[i] == variable;
            if i < before.len() {
                assert(before[i] == variable);
            }
        }
    }
}

/// A later entry with the same key takes the place of an earlier one, and leaves
/// the other keys alone.
pub proof fn law_later_entries_win(
    entries: Seq<ConfigEntry>,
    entry: ConfigEntry,
    other: Seq<char>,
)
    ensures
        last_value(entries.push(entry), entry.key@) == Some(entry.value@),
        other != entry.key@ ==> last_value(entries.push(entry), other) == last_value(entries, other),
        last_value(Seq::empty(), other) is None,
{
    assert(entries.push(entry).drop_last() =~= entries);
}

} // verus!
