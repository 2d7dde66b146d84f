//! The options of a workspace: those it starts with, and those a client changes while it
//! runs.

use vstd::prelude::*;

use crate::conditional::{
    alias_pairs, conditional_name, fact_of, name_problem, option_name, parse_conditional_fact_value,
    validate_runtime_conditional_name, with_option, CompilerVersion, ConditionalContext,
    ConditionalFact, ConditionalView, ConstantValue, ConstantView,
};
use crate::json::{entry_of, get_entry, JsonValue};
use crate::paths::{parse_parts, FilePath, Parts};
use crate::strings::{
    byte_len, byte_length, concat, concat3, debug_text, decimal, quoted, texts, to_decimal,
};
use crate::strmap::StrMap;
use crate::uris::optional_text;

verus! {

pub const MAX_RUNTIME_LIST_ENTRIES: usize = 256;

pub const MAX_RUNTIME_STRING_BYTES: usize = 4 * 1024;

/// A setting that a client may leave out, take back, or set, and that may not be usable.
#[derive(Debug)]
pub enum RuntimeOption<T> {
    Absent,
    Reset,
    Value(T),
    Invalid(String),
}

/// What a setting stands for.
pub enum OptionView<T> {
    Absent,
    Reset,
    Value(T),
    Invalid(Seq<char>),
}

/// What a setting stands for, given what its value stands for.
pub open spec fn option_view<T, U>(option: RuntimeOption<T>, view: spec_fn(T) -> U) -> OptionView<U> {
    match option {
        RuntimeOption::Absent => OptionView::Absent,
        RuntimeOption::Reset => OptionView::Reset,
        RuntimeOption::Value(value) => OptionView::Value(view(value)),
        RuntimeOption::Invalid(error) => OptionView::Invalid(error@),
    }
}

pub open spec fn text_option(option: RuntimeOption<String>) -> OptionView<Seq<char>> {
    option_view(option, |s: String| s@)
}

pub open spec fn list_option(option: RuntimeOption<Vec<String>>) -> OptionView<Seq<Seq<char>>> {
    option_view(option, |v: Vec<String>| texts(v@))
}

pub open spec fn path_option(option: RuntimeOption<FilePath>) -> OptionView<Parts> {
    option_view(option, |p: FilePath| p@)
}

pub open spec fn plain_option<T>(option: RuntimeOption<T>) -> OptionView<T> {
    option_view(option, |t: T| t)
}

pub open spec fn facts_option(option: RuntimeOption<StrMap<ConditionalFact>>) -> OptionView<
    Map<Seq<char>, ConditionalFact>,
> {
    option_view(option, |m: StrMap<ConditionalFact>| m@)
}

pub open spec fn constants_option(option: RuntimeOption<StrMap<ConstantValue>>) -> OptionView<
    Map<Seq<char>, ConstantView>,
> {
    option_view(option, |m: StrMap<ConstantValue>| m.deep())
}

impl RuntimeOption<String> {
    /// The path that a text names.
    pub fn map_path_buf(self) -> (r: RuntimeOption<FilePath>)
        ensures
            path_option(r) == (match text_option(self) {
                OptionView::Absent => OptionView::Absent,
                OptionView::Reset => OptionView::Reset,
                OptionView::Value(text) => OptionView::Value(parse_parts(text)),
                OptionView::Invalid(error) => OptionView::Invalid(error),
            }),
    {
        match self {
            RuntimeOption::Absent => RuntimeOption::Absent,
            RuntimeOption::Reset => RuntimeOption::Reset,
            RuntimeOption::Value(value) => RuntimeOption::Value(FilePath::parse(value.as_str())),
            RuntimeOption::Invalid(error) => RuntimeOption::Invalid(error),
        }
    }
}

/// The object's entries.
pub type Entries = Seq<(String, JsonValue)>;

pub open spec fn too_long() -> Seq<char> {
    "is longer than "@ + decimal(MAX_RUNTIME_STRING_BYTES as nat) + " bytes"@
}

pub fn too_long_message() -> (r: String)
    ensures
        r@ == too_long(),
{
    concat3("is longer than ", to_decimal(MAX_RUNTIME_STRING_BYTES).as_str(), " bytes")
}

pub open spec fn too_many() -> Seq<char> {
    "contains more than "@ + decimal(MAX_RUNTIME_LIST_ENTRIES as nat) + " entries"@
}

pub fn too_many_message() -> (r: String)
    ensures
        r@ == too_many(),
{
    concat3("contains more than ", to_decimal(MAX_RUNTIME_LIST_ENTRIES).as_str(), " entries")
}

/// A setting that is a text.
pub open spec fn string_setting(object: Entries, name: Seq<char>) -> OptionView<Seq<char>> {
    match entry_of(object, name) {
        None => OptionView::Absent,
        Some(JsonValue::Null) => OptionView::Reset,
        Some(JsonValue::Text(text)) => if byte_len(text@) > MAX_RUNTIME_STRING_BYTES {
            OptionView::Invalid(too_long())
        } else {
            OptionView::Value(text@)
        },
        Some(_) => OptionView::Invalid("must be a string or null"@),
    }
}

/// A setting that is a text.
pub fn parse_runtime_string(object: &Vec<(String, JsonValue)>, name: &str) -> (r: RuntimeOption<
    String,
>)
    ensures
        text_option(r) == string_setting(object@, name@),
{
    match get_entry(object, name) {
        None => RuntimeOption::Absent,
        Some(JsonValue::Null) => RuntimeOption::Reset,
        Some(JsonValue::Text(text)) => {
            if byte_length(text.as_str()) > MAX_RUNTIME_STRING_BYTES {
                RuntimeOption::Invalid(too_long_message())
            } else {
                RuntimeOption::Value(text.clone())
            }
        },
        Some(_) => RuntimeOption::Invalid("must be a string or null".to_owned()),
    }
}

/// A setting that is a bound: a positive number, and never above `maximum`.
pub open spec fn limit_setting(object: Entries, name: Seq<char>, maximum: usize) -> OptionView<
    usize,
> {
    match entry_of(object, name) {
        None => OptionView::Absent,
        Some(JsonValue::Null) => OptionView::Reset,
        Some(JsonValue::Number(number)) => match number.unsigned {
            None => OptionView::Invalid("must be a positive integer or null"@),
            Some(value) => if value > usize::MAX {
                OptionView::Invalid("is too large for this platform"@)
            } else if value == 0 {
                OptionView::Invalid("must be at least 1"@)
            } else if value > maximum {
                OptionView::Value(maximum)
            } else {
                OptionView::Value(value as usize)
            },
        },
        Some(_) => OptionView::Invalid("must be a positive integer or null"@),
    }
}

/// A setting that is a bound.
pub fn parse_runtime_limit(object: &Vec<(String, JsonValue)>, name: &str, maximum: usize) -> (r:
    RuntimeOption<usize>)
    ensures
        plain_option(r) == limit_setting(object@, name@, maximum),
{
    match get_entry(object, name) {
        None => RuntimeOption::Absent,
        Some(JsonValue::Null) => RuntimeOption::Reset,
        Some(JsonValue::Number(number)) => match number.unsigned {
            None => RuntimeOption::Invalid("must be a positive integer or null".to_owned()),
            Some(value) => {
                if value > usize::MAX as u64 {
                    RuntimeOption::Invalid("is too large for this platform".to_owned())
                } else if value == 0 {
                    RuntimeOption::Invalid("must be at least 1".to_owned())
                } else if value as usize > maximum {
                    RuntimeOption::Value(maximum)
                } else {
                    RuntimeOption::Value(value as usize)
                }
            },
        },
        Some(_) => RuntimeOption::Invalid("must be a positive integer or null".to_owned()),
    }
}

/// What is wrong with one text of a list, if something is.
pub open spec fn item_problem(item: JsonValue, names: bool) -> Option<Seq<char>> {
    match item {
        JsonValue::Text(text) => if byte_len(text@) > MAX_RUNTIME_STRING_BYTES {
            Some(
                "contains a string longer than "@ + decimal(MAX_RUNTIME_STRING_BYTES as nat)
                    + " bytes"@,
            )
        } else if names && name_problem(text@) is Some {
            Some(
                "contains an invalid symbol "@ + debug_text(text@) + ": "@ + name_problem(
                    text@,
                )->0.text(),
            )
        } else {
            None
        },
        _ => Some("must contain only strings"@),
    }
}

/// The texts of the first `n` items, or what is wrong with the first that cannot be used.
pub open spec fn items_of(items: Seq<JsonValue>, names: bool, n: int) -> Result<
    Seq<Seq<char>>,
    Seq<char>,
>
    decreases n,
{
    if n <= 0 {
        Ok(seq![])
    } else {
        match items_of(items, names, n - 1) {
            Err(error) => Err(error),
            Ok(before) => match item_problem(items[n - 1], names) {
                Some(problem) => Err(problem),
                None => Ok(before.push(items[n - 1]->Text_0@)),
            },
        }
    }
}

/// A setting that is a list of texts, which have to be names where `names`.
pub open spec fn list_setting(object: Entries, name: Seq<char>, names: bool) -> OptionView<
    Seq<Seq<char>>,
> {
    match entry_of(object, name) {
        None => OptionView::Absent,
        Some(JsonValue::Null) => OptionView::Reset,
        Some(JsonValue::Array(items)) => if items@.len() > MAX_RUNTIME_LIST_ENTRIES {
            OptionView::Invalid(too_many())
        } else {
            match items_of(items@, names, items@.len() as int) {
                Ok(list) => OptionView::Value(list),
                Err(error) => OptionView::Invalid(error),
            }
        },
        Some(_) => OptionView::Invalid("must be an array of strings"@),
    }
}

proof fn lemma_items_stop(items: Seq<JsonValue>, names: bool, n: int)
    requires
        0 <= n <= items.len(),
        items_of(items, names, n) is Err,
    ensures
        items_of(items, names, items.len() as int) == items_of(items, names, n),
    decreases items.len() - n,
{
    if n < items.len() {
        lemma_items_stop(items, names, n + 1);
    }
}

fn parse_item(item: &JsonValue, names: bool) -> (r: Result<String, String>)
    ensures
        match r {
            Ok(text) => item_problem(*item, names) is None && item is Text && item->Text_0@
                == text@,
            Err(error) => item_problem(*item, names) == Some(error@),
        },
{
    match item {
        JsonValue::Text(text) => {
            if byte_length(text.as_str()) > MAX_RUNTIME_STRING_BYTES {
                return Err(
                    concat3(
                        "contains a string longer than ",
                        to_decimal(MAX_RUNTIME_STRING_BYTES).as_str(),
                        " bytes",
                    ),
                );
            }
            if names {
                if let Err(problem) = validate_runtime_conditional_name(text.as_str()) {
                    let head = concat3(
                        "contains an invalid symbol ",
                        quoted(text.as_str()).as_str(),
                        ": ",
                    );
                    return Err(concat(head.as_str(), problem.message()));
                }
            }
            Ok(text.clone())
        },
        _ => Err("must contain only strings".to_owned()),
    }
}

fn parse_items(items: &Vec<JsonValue>, names: bool) -> (r: Result<Vec<String>, String>)
    ensures
        match r {
            Ok(list) => items_of(items@, names, items@.len() as int) == Ok::<
                Seq<Seq<char>>,
                Seq<char>,
            >(texts(list@)),
            Err(error) => items_of(items@, names, items@.len() as int) == Err::<
                Seq<Seq<char>>,
                Seq<char>,
            >(error@),
        },
{
    let mut parsed: Vec<String> = Vec::new();
    let mut i: usize = 0;
    proof {
        assert(texts(parsed@) =~= seq![]);
    }
    while i < items.len()
        invariant
            i <= items@.len(),
            items_of(items@, names, i as int) == Ok::<Seq<Seq<char>>, Seq<char>>(texts(parsed@)),
        decreases items@.len() - i,
    {
        match parse_item(&items[i], names) {
            Ok(text) => {
                let ghost held = parsed@;
                let ghost added = text@;
                parsed.push(text);
                proof {
                    assert(texts(parsed@) =~= texts(held).push(added));
                }
            },
            Err(error) => {
                proof {
                    lemma_items_stop(items@, names, i + 1);
                }
                return Err(error);
            },
        }
        i += 1;
    }
    Ok(parsed)
}

fn parse_list_setting(object: &Vec<(String, JsonValue)>, name: &str, names: bool) -> (r:
    RuntimeOption<Vec<String>>)
    ensures
        list_option(r) == list_setting(object@, name@, names),
{
    match get_entry(object, name) {
        None => RuntimeOption::Absent,
        Some(JsonValue::Null) => RuntimeOption::Reset,
        Some(JsonValue::Array(items)) => {
            if items.len() > MAX_RUNTIME_LIST_ENTRIES {
                RuntimeOption::Invalid(too_many_message())
            } else {
                match parse_items(items, names) {
                    Ok(list) => RuntimeOption::Value(list),
                    Err(error) => RuntimeOption::Invalid(error),
                }
            }
        },
        Some(_) => RuntimeOption::Invalid("must be an array of strings".to_owned()),
    }
}

/// A setting that is a list of texts.
pub fn parse_runtime_list(object: &Vec<(String, JsonValue)>, name: &str) -> (r: RuntimeOption<
    Vec<String>,
>)
    ensures
        list_option(r) == list_setting(object@, name@, false),
{
    parse_list_setting(object, name, false)
}

/// A setting that is a list of names.
pub fn parse_runtime_conditional_symbols(object: &Vec<(String, JsonValue)>, name: &str) -> (r:
    RuntimeOption<Vec<String>>)
    ensures
        list_option(r) == list_setting(object@, name@, true),
{
    parse_list_setting(object, name, true)
}

/// The text of a version: a text or a number.
pub open spec fn version_text(value: JsonValue) -> Option<Seq<char>> {
    match value {
        JsonValue::Text(text) => Some(text@),
        JsonValue::Number(number) => Some(number.text@),
        _ => None,
    }
}

/// The text of a version, where a setting holds one that is to be read.
pub fn compiler_version_text(value: &JsonValue) -> (r: Option<String>)
    ensures
        optional_text(r) == version_text(*value),
{
    match value {
        JsonValue::Text(text) => Some(text.clone()),
        JsonValue::Number(number) => Some(number.text.clone()),
        _ => None,
    }
}

/// A setting that is a compiler's version, where `parsed` is what its text is read as.
pub open spec fn version_setting(object: Entries, parsed: Option<CompilerVersion>) -> OptionView<
    CompilerVersion,
> {
    match entry_of(object, "compilerVersion"@) {
        None => OptionView::Absent,
        Some(JsonValue::Null) => OptionView::Reset,
        Some(value) => match version_text(value) {
            None => OptionView::Invalid("must be a string or number"@),
            Some(text) => if byte_len(text) > MAX_RUNTIME_STRING_BYTES {
                OptionView::Invalid(too_long())
            } else {
                match parsed {
                    Some(version) => OptionView::Value(version),
                    None => OptionView::Invalid("must be a decimal version such as 24.0"@),
                }
            },
        },
    }
}

/// A setting that is a compiler's version, where `parsed` is what its text is read as.
pub fn parse_runtime_compiler_version(
    object: &Vec<(String, JsonValue)>,
    parsed: Option<CompilerVersion>,
) -> (r: RuntimeOption<CompilerVersion>)
    ensures
        plain_option(r) == version_setting(object@, parsed),
{
    match get_entry(object, "compilerVersion") {
        None => RuntimeOption::Absent,
        Some(JsonValue::Null) => RuntimeOption::Reset,
        Some(value) => match compiler_version_text(value) {
            None => RuntimeOption::Invalid("must be a string or number".to_owned()),
            Some(text) => {
                if byte_length(text.as_str()) > MAX_RUNTIME_STRING_BYTES {
                    RuntimeOption::Invalid(too_long_message())
                } else {
                    match parsed {
                        Some(version) => RuntimeOption::Value(version),
                        None => RuntimeOption::Invalid(
                            "must be a decimal version such as 24.0".to_owned(),
                        ),
                    }
                }
            },
        },
    }
}

/// What is wrong with an entry of an object: its name is too long, or what a text says.
pub enum EntryProblem {
    Overlong,
    Entry(Seq<char>),
}

/// What is wrong with an entry of an object: its name is too long, or what a text says.
#[derive(Debug)]
pub enum EntryError {
    Overlong,
    Entry(String),
}

impl View for EntryError {
    type V = EntryProblem;

    open spec fn view(&self) -> EntryProblem {
        match self {
            EntryError::Overlong => EntryProblem::Overlong,
            EntryError::Entry(text) => EntryProblem::Entry(text@),
        }
    }
}

impl EntryProblem {
    pub open spec fn text(self, overlong: Seq<char>) -> Seq<char> {
        match self {
            EntryProblem::Overlong => overlong,
            EntryProblem::Entry(text) => text,
        }
    }
}

impl EntryError {
    /// What to say of it, where `overlong` says that a name is too long.
    pub fn message(self, overlong: &str) -> (r: String)
        ensures
            r@ == self@.text(overlong@),
    {
        match self {
            EntryError::Overlong => overlong.to_owned(),
            EntryError::Entry(text) => text,
        }
    }
}

/// The fact that an entry of the compiler options states, or what is wrong with it.
pub open spec fn option_entry(name: Seq<char>, value: JsonValue) -> Result<
    ConditionalFact,
    EntryProblem,
> {
    if byte_len(name) > MAX_RUNTIME_STRING_BYTES {
        Err(EntryProblem::Overlong)
    } else if name_problem(name) is Some {
        Err(EntryProblem::Entry("compilerOptions."@ + name + " "@ + name_problem(name)->0.text()))
    } else {
        match fact_of(value) {
            Some(fact) => Ok(fact),
            None => Err(
                EntryProblem::Entry(
                    "compilerOptions."@ + name + " must be boolean, null, or on/off"@,
                ),
            ),
        }
    }
}

/// The options that the first `n` entries state.
pub open spec fn options_of(
    aliases: Seq<(Seq<char>, Seq<char>)>,
    entries: Entries,
    n: int,
) -> Result<Map<Seq<char>, ConditionalFact>, EntryProblem>
    decreases n,
{
    if n <= 0 {
        Ok(Map::empty())
    } else {
        match options_of(aliases, entries, n - 1) {
            Err(error) => Err(error),
            Ok(before) => match option_entry(entries[n - 1].0@, entries[n - 1].1) {
                Err(error) => Err(error),
                Ok(fact) => Ok(
                    with_option(before, option_name(aliases, entries[n - 1].0@), fact),
                ),
            },
        }
    }
}

proof fn lemma_options_stop(aliases: Seq<(Seq<char>, Seq<char>)>, entries: Entries, n: int)
    requires
        0 <= n <= entries.len(),
        options_of(aliases, entries, n) is Err,
    ensures
        options_of(aliases, entries, entries.len() as int) == options_of(aliases, entries, n),
    decreases entries.len() - n,
{
    if n < entries.len() {
        lemma_options_stop(aliases, entries, n + 1);
    }
}

fn parse_option_entry(name: &str, value: &JsonValue) -> (r: Result<ConditionalFact, EntryError>)
    ensures
        match r {
            Ok(fact) => option_entry(name@, *value) == Ok::<ConditionalFact, EntryProblem>(fact),
            Err(error) => option_entry(name@, *value) == Err::<ConditionalFact, EntryProblem>(error@),
        },
{
    if byte_length(name) > MAX_RUNTIME_STRING_BYTES {
        return Err(EntryError::Overlong);
    }
    if let Err(problem) = validate_runtime_conditional_name(name) {
        let head = concat3("compilerOptions.", name, " ");
        return Err(EntryError::Entry(concat(head.as_str(), problem.message())));
    }
    match parse_conditional_fact_value(value) {
        Some(fact) => Ok(fact),
        None => Err(
            EntryError::Entry(
                concat3("compilerOptions.", name, " must be boolean, null, or on/off"),
            ),
        ),
    }
}

pub fn parse_option_entries(
    aliases: &Vec<(String, String)>,
    entries: &Vec<(String, JsonValue)>,
    context: ConditionalContext,
) -> (r: Result<ConditionalContext, EntryError>)
    requires
        context@.options == Map::<Seq<char>, ConditionalFact>::empty(),
    ensures
        match r {
            Ok(stated) => options_of(alias_pairs(aliases@), entries@, entries@.len() as int)
                == Ok::<Map<Seq<char>, ConditionalFact>, EntryProblem>(stated@.options) && stated@ == (
            ConditionalView { options: stated@.options, ..context@ }),
            Err(error) => options_of(alias_pairs(aliases@), entries@, entries@.len() as int)
                == Err::<Map<Seq<char>, ConditionalFact>, EntryProblem>(error@),
        },
{
    let ghost before = context@;
    let mut stated = context;
    let mut i: usize = 0;
    while i < entries.len()
        invariant
            i <= entries@.len(),
            stated@ == (ConditionalView { options: stated@.options, ..before }),
            options_of(alias_pairs(aliases@), entries@, i as int) == Ok::<
                Map<Seq<char>, ConditionalFact>,
                EntryProblem,
            >(stated@.options),
        decreases entries@.len() - i,
    {
        match parse_option_entry(entries[i].0.as_str(), &entries[i].1) {
            Ok(fact) => {
                stated.set_option(aliases, entries[i].0.as_str(), fact);
            },
            Err(error) => {
                proof {
                    lemma_options_stop(alias_pairs(aliases@), entries@, i + 1);
                }
                return Err(error);
            },
        }
        i += 1;
    }
    Ok(stated)
}

/// A setting that states compiler options.
pub open spec fn options_setting(aliases: Seq<(Seq<char>, Seq<char>)>, object: Entries) -> OptionView<
    Map<Seq<char>, ConditionalFact>,
> {
    match entry_of(object, "compilerOptions"@) {
        None => OptionView::Absent,
        Some(JsonValue::Null) => OptionView::Reset,
        Some(JsonValue::Object(entries)) => if entries@.len() > MAX_RUNTIME_LIST_ENTRIES {
            OptionView::Invalid(too_many())
        } else {
            match options_of(aliases, entries@, entries@.len() as int) {
                Ok(options) => OptionView::Value(options),
                Err(error) => OptionView::Invalid(error.text("contains an overlong option name"@)),
            }
        },
        Some(_) => OptionView::Invalid("must be an object or null"@),
    }
}

/// A setting that states compiler options.
pub fn parse_runtime_conditional_options(
    aliases: &Vec<(String, String)>,
    object: &Vec<(String, JsonValue)>,
) -> (r: RuntimeOption<StrMap<ConditionalFact>>)
    ensures
        facts_option(r) == options_setting(alias_pairs(aliases@), object@),
{
    match get_entry(object, "compilerOptions") {
        None => RuntimeOption::Absent,
        Some(JsonValue::Null) => RuntimeOption::Reset,
        Some(JsonValue::Object(entries)) => {
            if entries.len() > MAX_RUNTIME_LIST_ENTRIES {
                RuntimeOption::Invalid(too_many_message())
            } else {
                match parse_option_entries(aliases, entries, ConditionalContext::new()) {
                    Ok(context) => RuntimeOption::Value(context.options),
                    Err(error) => RuntimeOption::Invalid(
                        error.message("contains an overlong option name"),
                    ),
                }
            }
        },
        Some(_) => RuntimeOption::Invalid("must be an object or null".to_owned()),
    }
}

/// The value that an entry of the constants states, or what is wrong with it.
pub open spec fn constant_entry(name: Seq<char>, value: JsonValue) -> Result<
    ConstantView,
    EntryProblem,
> {
    if byte_len(name) > MAX_RUNTIME_STRING_BYTES {
        Err(EntryProblem::Overlong)
    } else if name_problem(name) is Some {
        Err(
            EntryProblem::Entry(
                "conditionalConstants."@ + name + " "@ + name_problem(name)->0.text(),
            ),
        )
    } else {
        match value {
            JsonValue::Bool(value) => Ok(ConstantView::Boolean(value)),
            JsonValue::Text(text) => if byte_len(text@) <= MAX_RUNTIME_STRING_BYTES {
                Ok(ConstantView::Text(text@))
            } else {
                Err(EntryProblem::Entry("conditionalConstants."@ + name + " "@ + too_long()))
            },
            JsonValue::Number(number) => match number.signed {
                Some(value) => Ok(ConstantView::Integer(value)),
                None => Err(
                    EntryProblem::Entry("conditionalConstants."@ + name + " must be an integer"@),
                ),
            },
            _ => Err(
                EntryProblem::Entry(
                    "conditionalConstants."@ + name + " must be boolean, integer, or string"@,
                ),
            ),
        }
    }
}

/// The constants that the first `n` entries state.
pub open spec fn constants_of(entries: Entries, n: int) -> Result<
    Map<Seq<char>, ConstantView>,
    EntryProblem,
>
    decreases n,
{
    if n <= 0 {
        Ok(Map::empty())
    } else {
        match constants_of(entries, n - 1) {
            Err(error) => Err(error),
            Ok(before) => match constant_entry(entries[n - 1].0@, entries[n - 1].1) {
                Err(error) => Err(error),
                Ok(value) => Ok(before.insert(conditional_name(entries[n - 1].0@), value)),
            },
        }
    }
}

proof fn lemma_constants_stop(entries: Entries, n: int)
    requires
        0 <= n <= entries.len(),
        constants_of(entries, n) is Err,
    ensures
        constants_of(entries, entries.len() as int) == constants_of(entries, n),
    decreases entries.len() - n,
{
    if n < entries.len() {
        lemma_constants_stop(entries, n + 1);
    }
}

fn parse_constant_entry(name: &str, value: &JsonValue) -> (r: Result<ConstantValue, EntryError>)
    ensures
        match r {
            Ok(constant) => constant_entry(name@, *value) == Ok::<ConstantView, EntryProblem>(
                constant@,
            ),
            Err(error) => constant_entry(name@, *value) == Err::<ConstantView, EntryProblem>(error@),
        },
{
    if byte_length(name) > MAX_RUNTIME_STRING_BYTES {
        return Err(EntryError::Overlong);
    }
    if let Err(problem) = validate_runtime_conditional_name(name) {
        let head = concat3("conditionalConstants.", name, " ");
        return Err(EntryError::Entry(concat(head.as_str(), problem.message())));
    }
    match value {
        JsonValue::Bool(value) => Ok(ConstantValue::Boolean(*value)),
        JsonValue::Text(text) => {
            if byte_length(text.as_str()) <= MAX_RUNTIME_STRING_BYTES {
                Ok(ConstantValue::Text(text.clone()))
            } else {
                let head = concat3("conditionalConstants.", name, " ");
                Err(EntryError::Entry(concat(head.as_str(), too_long_message().as_str())))
            }
        },
        JsonValue::Number(number) => match number.signed {
            Some(value) => Ok(ConstantValue::Integer(value)),
            None => Err(
                EntryError::Entry(concat3("conditionalConstants.", name, " must be an integer")),
            ),
        },
        _ => Err(
            EntryError::Entry(
                concat3("conditionalConstants.", name, " must be boolean, integer, or string"),
            ),
        ),
    }
}

pub fn parse_constant_entries(entries: &Vec<(String, JsonValue)>, context: ConditionalContext) -> (r:
    Result<ConditionalContext, EntryError>)
    requires
        context@.constants == Map::<Seq<char>, ConstantView>::empty(),
    ensures
        match r {
            Ok(stated) => constants_of(entries@, entries@.len() as int) == Ok::<
                Map<Seq<char>, ConstantView>,
                EntryProblem,
            >(stated@.constants) && stated@ == (ConditionalView {
                constants: stated@.constants,
                ..context@
            }),
            Err(error) => constants_of(entries@, entries@.len() as int) == Err::<
                Map<Seq<char>, ConstantView>,
                EntryProblem,
            >(error@),
        },
{
    let ghost before = context@;
    let mut stated = context;
    let mut i: usize = 0;
    while i < entries.len()
        invariant
            i <= entries@.len(),
            stated@ == (ConditionalView { constants: stated@.constants, ..before }),
            constants_of(entries@, i as int) == Ok::<Map<Seq<char>, ConstantView>, EntryProblem>(
                stated@.constants,
            ),
        decreases entries@.len() - i,
    {
        match parse_constant_entry(entries[i].0.as_str(), &entries[i].1) {
            Ok(value) => {
                stated.set_constant(entries[i].0.as_str(), value);
            },
            Err(error) => {
                proof {
                    lemma_constants_stop(entries@, i + 1);
                }
                return Err(error);
            },
        }
        i += 1;
    }
    Ok(stated)
}

/// A setting that states constants.
pub open spec fn constants_setting(object: Entries) -> OptionView<Map<Seq<char>, ConstantView>> {
    match entry_of(object, "conditionalConstants"@) {
        None => OptionView::Absent,
        Some(JsonValue::Null) => OptionView::Reset,
        Some(JsonValue::Object(entries)) => if entries@.len() > MAX_RUNTIME_LIST_ENTRIES {
            OptionView::Invalid(too_many())
        } else {
            match constants_of(entries@, entries@.len() as int) {
                Ok(constants) => OptionView::Value(constants),
                Err(error) => OptionView::Invalid(
                    error.text("contains an overlong constant name"@),
                ),
            }
        },
        Some(_) => OptionView::Invalid("must be an object or null"@),
    }
}

/// A setting that states constants.
pub fn parse_runtime_conditional_constants(object: &Vec<(String, JsonValue)>) -> (r: RuntimeOption<
    StrMap<ConstantValue>,
>)
    ensures
        constants_option(r) == constants_setting(object@),
{
    match get_entry(object, "conditionalConstants") {
        None => RuntimeOption::Absent,
        Some(JsonValue::Null) => RuntimeOption::Reset,
        Some(JsonValue::Object(entries)) => {
            if entries.len() > MAX_RUNTIME_LIST_ENTRIES {
                RuntimeOption::Invalid(too_many_message())
            } else {
                match parse_constant_entries(entries, ConditionalContext::new()) {
                    Ok(context) => RuntimeOption::Value(context.constants),
                    Err(error) => RuntimeOption::Invalid(
                        error.message("contains an overlong constant name"),
                    ),
                }
            }
        },
        Some(_) => RuntimeOption::Invalid("must be an object or null".to_owned()),
    }
}

} // verus!
