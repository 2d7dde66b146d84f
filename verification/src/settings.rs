//! The options of a workspace, as it is started with them and as a client changes them.

use vstd::prelude::*;

use crate::conditional::{
    alias_pairs, name_problem, no_facts, validate_runtime_conditional_name, with_defines,
    CompilerVersion, ConditionalContext, ConditionalFact, ConditionalView, ConstantView,
};
use crate::json::{entry_of, get_entry, present, JsonValue};
use crate::limits::{
    ResourceLimits, DEFAULT_MAX_FILES, DEFAULT_MAX_FILE_BYTES, DEFAULT_MAX_TOTAL_BYTES,
};
use crate::options::{
    compiler_version_text, constants_of, options_of, parse_constant_entries, parse_option_entries,
    too_long, too_long_message, too_many, too_many_message, version_text, MAX_RUNTIME_LIST_ENTRIES,
    MAX_RUNTIME_STRING_BYTES,
};
use crate::paths::{FilePath, Parts};
use crate::strings::{
    byte_len, byte_length, concat, concat3, copy_list, debug_text, decimal, quoted, texts,
    to_decimal,
};
use crate::uris::{optional_parts, optional_text};

verus! {

/// What a list that may be missing holds.
pub open spec fn optional_texts(list: Option<Vec<String>>) -> Option<Seq<Seq<char>>> {
    match list {
        Some(list) => Some(texts(list@)),
        None => None,
    }
}

/// A copy of a text that may be missing.
pub fn copy_optional_text(text: &Option<String>) -> (r: Option<String>)
    ensures
        optional_text(r) == optional_text(*text),
{
    match text {
        Some(text) => Some(text.clone()),
        None => None,
    }
}

/// A copy of a path that may be missing.
pub fn copy_optional_path(path: &Option<FilePath>) -> (r: Option<FilePath>)
    ensures
        optional_parts(r) == optional_parts(*path),
{
    match path {
        Some(path) => Some(path.copy()),
        None => None,
    }
}

/// The options of a workspace.
#[derive(Debug)]
pub struct WorkspaceOptions {
    pub source_paths: Vec<String>,
    pub exclude: Vec<String>,
    pub project_file: Option<FilePath>,
    pub build_config: Option<String>,
    pub platform: Option<String>,
    pub conditional_context: ConditionalContext,
    pub limits: ResourceLimits,
}

/// What the options of a workspace stand for.
#[verifier::ext_equal]
pub struct WorkspaceOptionsView {
    pub source_paths: Seq<Seq<char>>,
    pub exclude: Seq<Seq<char>>,
    pub project_file: Option<Parts>,
    pub build_config: Option<Seq<char>>,
    pub platform: Option<Seq<char>>,
    pub conditional_context: ConditionalView,
    pub limits: ResourceLimits,
}

impl View for WorkspaceOptions {
    type V = WorkspaceOptionsView;

    open spec fn view(&self) -> WorkspaceOptionsView {
        WorkspaceOptionsView {
            source_paths: texts(self.source_paths@),
            exclude: texts(self.exclude@),
            project_file: optional_parts(self.project_file),
            build_config: optional_text(self.build_config),
            platform: optional_text(self.platform),
            conditional_context: self.conditional_context@,
            limits: self.limits,
        }
    }
}

/// The limits of a workspace that states none.
pub open spec fn default_limits() -> ResourceLimits {
    ResourceLimits {
        max_files: DEFAULT_MAX_FILES,
        max_file_bytes: DEFAULT_MAX_FILE_BYTES,
        max_total_bytes: DEFAULT_MAX_TOTAL_BYTES,
    }
}

/// The options of a workspace that states none.
pub open spec fn default_options() -> WorkspaceOptionsView {
    WorkspaceOptionsView {
        source_paths: Seq::empty(),
        exclude: Seq::empty(),
        project_file: None,
        build_config: None,
        platform: None,
        conditional_context: no_facts(),
        limits: default_limits(),
    }
}

impl Default for WorkspaceOptions {
    fn default() -> (r: Self)
        ensures
            r@ == default_options(),
    {
        let r = WorkspaceOptions {
            source_paths: Vec::new(),
            exclude: Vec::new(),
            project_file: None,
            build_config: None,
            platform: None,
            conditional_context: ConditionalContext::new(),
            limits: ResourceLimits::default(),
        };
        proof {
            assert(r@ =~= default_options());
        }
        r
    }
}

impl WorkspaceOptions {
    /// The same options.
    pub fn copy(&self) -> (r: Self)
        ensures
            r@ == self@,
    {
        WorkspaceOptions {
            source_paths: copy_list(&self.source_paths),
            exclude: copy_list(&self.exclude),
            project_file: copy_optional_path(&self.project_file),
            build_config: copy_optional_text(&self.build_config),
            platform: copy_optional_text(&self.platform),
            conditional_context: self.conditional_context.copy(),
            limits: self.limits,
        }
    }
}

/// The options as they were sent, field by field. `parsed_version` is what the text of
/// the compiler's version is read as.
#[derive(Debug)]
pub struct RawWorkspaceOptions {
    pub source_paths: Vec<String>,
    pub exclude: Vec<String>,
    pub project_file: Option<FilePath>,
    pub build_config: Option<String>,
    pub platform: Option<String>,
    pub compiler_version: Option<JsonValue>,
    pub parsed_version: Option<CompilerVersion>,
    pub compiler_options: Option<JsonValue>,
    pub conditional_defines: Option<JsonValue>,
    pub conditional_undefines: Option<JsonValue>,
    pub conditional_constants: Option<JsonValue>,
    pub max_files: Option<usize>,
    pub max_file_bytes: Option<usize>,
    pub max_total_bytes: Option<usize>,
}

/// What is wrong with one symbol of a list, if something is.
pub open spec fn symbol_problem(item: JsonValue, field: Seq<char>) -> Option<Seq<char>> {
    match item {
        JsonValue::Text(text) => if byte_len(text@) > MAX_RUNTIME_STRING_BYTES {
            Some(field + " contains an overlong symbol"@)
        } else if name_problem(text@) is Some {
            Some(
                field + " contains an invalid symbol "@ + debug_text(text@) + ": "@ + name_problem(
                    text@,
                )->0.text(),
            )
        } else {
            None
        },
        _ => Some(field + " must contain only strings"@),
    }
}

/// The symbols of the first `n` items, or what is wrong with the first that cannot be
/// used.
pub open spec fn symbols_of(items: Seq<JsonValue>, field: Seq<char>, n: int) -> Result<
    Seq<Seq<char>>,
    Seq<char>,
>
    decreases n,
{
    if n <= 0 {
        Ok(seq![])
    } else {
        match symbols_of(items, field, n - 1) {
            Err(error) => Err(error),
            Ok(before) => match symbol_problem(items[n - 1], field) {
                Some(problem) => Err(problem),
                None => Ok(before.push(items[n - 1]->Text_0@)),
            },
        }
    }
}

/// The symbols that a setting lists.
pub open spec fn symbol_list(value: Option<JsonValue>, field: Seq<char>) -> Result<
    Seq<Seq<char>>,
    Seq<char>,
> {
    match present(value) {
        None => Ok(seq![]),
        Some(JsonValue::Array(items)) => if items@.len() > MAX_RUNTIME_LIST_ENTRIES {
            Err(field + " "@ + too_many())
        } else {
            symbols_of(items@, field, items@.len() as int)
        },
        Some(_) => Err(field + " must be an array of strings or null"@),
    }
}

proof fn lemma_symbols_stop(items: Seq<JsonValue>, field: Seq<char>, n: int)
    requires
        0 <= n <= items.len(),
        symbols_of(items, field, n) is Err,
    ensures
        symbols_of(items, field, items.len() as int) == symbols_of(items, field, n),
    decreases items.len() - n,
{
    if n < items.len() {
        lemma_symbols_stop(items, field, n + 1);
    }
}

fn parse_symbol(item: &JsonValue, field: &str) -> (r: Result<String, String>)
    ensures
        match r {
            Ok(text) => symbol_problem(*item, field@) is None && item is Text && item->Text_0@
                == text@,
            Err(error) => symbol_problem(*item, field@) == Some(error@),
        },
{
    match item {
        JsonValue::Text(text) => {
            if byte_length(text.as_str()) > MAX_RUNTIME_STRING_BYTES {
                return Err(concat(field, " contains an overlong symbol"));
            }
            if let Err(problem) = validate_runtime_conditional_name(text.as_str()) {
                let head = concat3(
                    field,
                    " contains an invalid symbol ",
                    quoted(text.as_str()).as_str(),
                );
                return Err(concat3(head.as_str(), ": ", problem.message()));
            }
            Ok(text.clone())
        },
        _ => Err(concat(field, " must contain only strings")),
    }
}

fn parse_symbols(items: &Vec<JsonValue>, field: &str) -> (r: Result<Vec<String>, String>)
    ensures
        match r {
            Ok(list) => symbols_of(items@, field@, items@.len() as int) == Ok::<
                Seq<Seq<char>>,
                Seq<char>,
            >(texts(list@)),
            Err(error) => symbols_of(items@, field@, items@.len() as int) == Err::<
                Seq<Seq<char>>,
                Seq<char>,
            >(error@),
        },
{
    let mut parsed: Vec<String> = Vec::new();
    let mut i: usize = 0;
    proof {
        assert(texts(parsed@) =~= seq![]);
    }
    while i < items.len()
        invariant
            i <= items@.len(),
            symbols_of(items@, field@, i as int) == Ok::<Seq<Seq<char>>, Seq<char>>(
                texts(parsed@),
            ),
        decreases items@.len() - i,
    {
        match parse_symbol(&items[i], field) {
            Ok(text) => {
                let ghost held = parsed@;
                let ghost added = text@;
                parsed.push(text);
                proof {
                    assert(texts(parsed@) =~= texts(held).push(added));
                }
            },
            Err(error) => {
                proof {
                    lemma_symbols_stop(items@, field@, i + 1);
                }
                return Err(error);
            },
        }
        i += 1;
    }
    Ok(parsed)
}

fn set_defines(context: &mut ConditionalContext, names: &Vec<String>, fact: ConditionalFact)
    ensures
        final(context)@ == (ConditionalView {
            defines: with_defines(
                old(context)@.defines,
                texts(names@),
                fact,
                names@.len() as int,
            ),
            ..old(context)@
        }),
{
    let ghost before = context@;
    let mut i: usize = 0;
    while i < names.len()
        invariant
            i <= names@.len(),
            context@ == (ConditionalView {
                defines: with_defines(before.defines, texts(names@), fact, i as int),
                ..before
            }),
        decreases names@.len() - i,
    {
        proof {
            assert(texts(names@)[i as int] == names@[i as int]@);
        }
        context.set_define(names[i].as_str(), fact);
        i += 1;
    }
}

/// Gives each symbol that a setting lists a fact. A list that cannot be used changes
/// nothing.
pub fn parse_conditional_symbol_list(
    value: Option<&JsonValue>,
    field: &str,
    context: &mut ConditionalContext,
    fact: ConditionalFact,
) -> (r: Result<(), String>)
    ensures
        match symbol_list(owned(value), field@) {
            Ok(names) => r is Ok && final(context)@ == (ConditionalView {
                defines: with_defines(old(context)@.defines, names, fact, names.len() as int),
                ..old(context)@
            }),
            Err(error) => r is Err && r->Err_0@ == error && final(context)@ == old(context)@,
        },
{
    match value {
        None => Ok(()),
        Some(JsonValue::Null) => Ok(()),
        Some(JsonValue::Array(items)) => {
            if items.len() > MAX_RUNTIME_LIST_ENTRIES {
                return Err(concat3(field, " ", too_many_message().as_str()));
            }
            let names = parse_symbols(items, field)?;
            set_defines(context, &names, fact);
            Ok(())
        },
        Some(_) => Err(concat(field, " must be an array of strings or null")),
    }
}

/// The value behind a reference that may be missing.
pub open spec fn owned(value: Option<&JsonValue>) -> Option<JsonValue> {
    match value {
        Some(value) => Some(*value),
        None => None,
    }
}

/// The compiler's version that a setting states.
pub open spec fn stated_version(value: Option<JsonValue>, parsed: Option<CompilerVersion>) -> Result<
    Option<CompilerVersion>,
    Seq<char>,
> {
    match present(value) {
        None => Ok(None),
        Some(value) => match version_text(value) {
            None => Err("compilerVersion must be a string or number"@),
            Some(text) => if byte_len(text) > MAX_RUNTIME_STRING_BYTES {
                Err("compilerVersion "@ + too_long())
            } else {
                match parsed {
                    Some(version) => Ok(Some(version)),
                    None => Err("compilerVersion must be a decimal version such as 24.0"@),
                }
            },
        },
    }
}

fn parse_stated_version(value: Option<&JsonValue>, parsed: Option<CompilerVersion>) -> (r: Result<
    Option<CompilerVersion>,
    String,
>)
    ensures
        match r {
            Ok(version) => stated_version(owned(value), parsed) == Ok::<
                Option<CompilerVersion>,
                Seq<char>,
            >(version),
            Err(error) => stated_version(owned(value), parsed) == Err::<
                Option<CompilerVersion>,
                Seq<char>,
            >(error@),
        },
{
    match value {
        None => Ok(None),
        Some(JsonValue::Null) => Ok(None),
        Some(value) => match compiler_version_text(value) {
            None => Err("compilerVersion must be a string or number".to_owned()),
            Some(text) => {
                if byte_length(text.as_str()) > MAX_RUNTIME_STRING_BYTES {
                    Err(concat("compilerVersion ", too_long_message().as_str()))
                } else {
                    match parsed {
                        Some(version) => Ok(Some(version)),
                        None => Err(
                            "compilerVersion must be a decimal version such as 24.0".to_owned(),
                        ),
                    }
                }
            },
        },
    }
}

/// The options that a setting states.
pub open spec fn stated_options(
    aliases: Seq<(Seq<char>, Seq<char>)>,
    value: Option<JsonValue>,
) -> Result<Map<Seq<char>, ConditionalFact>, Seq<char>> {
    match present(value) {
        None => Ok(Map::empty()),
        Some(JsonValue::Object(entries)) => if entries@.len() > MAX_RUNTIME_LIST_ENTRIES {
            Err("compilerOptions "@ + too_many())
        } else {
            match options_of(aliases, entries@, entries@.len() as int) {
                Ok(options) => Ok(options),
                Err(error) => Err(error.text("compilerOptions contains an overlong option name"@)),
            }
        },
        Some(_) => Err("compilerOptions must be an object or null"@),
    }
}

/// The constants that a setting states.
pub open spec fn stated_constants(value: Option<JsonValue>) -> Result<
    Map<Seq<char>, ConstantView>,
    Seq<char>,
> {
    match present(value) {
        None => Ok(Map::empty()),
        Some(JsonValue::Object(entries)) => if entries@.len() > MAX_RUNTIME_LIST_ENTRIES {
            Err("conditionalConstants "@ + too_many())
        } else {
            match constants_of(entries@, entries@.len() as int) {
                Ok(constants) => Ok(constants),
                Err(error) => Err(
                    error.text("conditionalConstants contains an overlong constant name"@),
                ),
            }
        },
        Some(_) => Err("conditionalConstants must be an object or null"@),
    }
}

fn parse_stated_options(
    aliases: &Vec<(String, String)>,
    value: Option<&JsonValue>,
    context: ConditionalContext,
) -> (r: Result<ConditionalContext, String>)
    requires
        context@.options == Map::<Seq<char>, ConditionalFact>::empty(),
    ensures
        match r {
            Ok(stated) => stated_options(alias_pairs(aliases@), owned(value)) == Ok::<
                Map<Seq<char>, ConditionalFact>,
                Seq<char>,
            >(stated@.options) && stated@ == (ConditionalView {
                options: stated@.options,
                ..context@
            }),
            Err(error) => stated_options(alias_pairs(aliases@), owned(value)) == Err::<
                Map<Seq<char>, ConditionalFact>,
                Seq<char>,
            >(error@),
        },
{
    match value {
        None => Ok(context),
        Some(JsonValue::Null) => Ok(context),
        Some(JsonValue::Object(entries)) => {
            if entries.len() > MAX_RUNTIME_LIST_ENTRIES {
                return Err(concat("compilerOptions ", too_many_message().as_str()));
            }
            match parse_option_entries(aliases, entries, context) {
                Ok(stated) => Ok(stated),
                Err(error) => Err(
                    error.message("compilerOptions contains an overlong option name"),
                ),
            }
        },
        Some(_) => Err("compilerOptions must be an object or null".to_owned()),
    }
}

fn parse_stated_constants(value: Option<&JsonValue>, context: ConditionalContext) -> (r: Result<
    ConditionalContext,
    String,
>)
    requires
        context@.constants == Map::<Seq<char>, ConstantView>::empty(),
    ensures
        match r {
            Ok(stated) => stated_constants(owned(value)) == Ok::<
                Map<Seq<char>, ConstantView>,
                Seq<char>,
            >(stated@.constants) && stated@ == (ConditionalView {
                constants: stated@.constants,
                ..context@
            }),
            Err(error) => stated_constants(owned(value)) == Err::<
                Map<Seq<char>, ConstantView>,
                Seq<char>,
            >(error@),
        },
{
    match value {
        None => Ok(context),
        Some(JsonValue::Null) => Ok(context),
        Some(JsonValue::Object(entries)) => {
            if entries.len() > MAX_RUNTIME_LIST_ENTRIES {
                return Err(concat("conditionalConstants ", too_many_message().as_str()));
            }
            match parse_constant_entries(entries, context) {
                Ok(stated) => Ok(stated),
                Err(error) => Err(
                    error.message("conditionalConstants contains an overlong constant name"),
                ),
            }
        },
        Some(_) => Err("conditionalConstants must be an object or null".to_owned()),
    }
}

/// The facts that the settings state, or what is wrong with the first that cannot be
/// used.
pub open spec fn stated_context(
    aliases: Seq<(Seq<char>, Seq<char>)>,
    version: Option<JsonValue>,
    parsed: Option<CompilerVersion>,
    options: Option<JsonValue>,
    defines: Option<JsonValue>,
    undefines: Option<JsonValue>,
    constants: Option<JsonValue>,
) -> Result<ConditionalView, Seq<char>> {
    match stated_version(version, parsed) {
        Err(error) => Err(error),
        Ok(version) => match symbol_list(defines, "conditionalDefines"@) {
            Err(error) => Err(error),
            Ok(defined) => match symbol_list(undefines, "conditionalUndefines"@) {
                Err(error) => Err(error),
                Ok(undefined) => match stated_options(aliases, options) {
                    Err(error) => Err(error),
                    Ok(options) => match stated_constants(constants) {
                        Err(error) => Err(error),
                        Ok(constants) => Ok(
                            ConditionalView {
                                compiler_version: version,
                                options: options,
                                defines: with_defines(
                                    with_defines(
                                        Map::empty(),
                                        defined,
                                        ConditionalFact::True,
                                        defined.len() as int,
                                    ),
                                    undefined,
                                    ConditionalFact::False,
                                    undefined.len() as int,
                                ),
                                constants: constants,
                            },
                        ),
                    },
                },
            },
        },
    }
}

/// The facts that the settings state. `parsed` is what the text of the compiler's
/// version is read as.
pub fn parse_conditional_context_values(
    aliases: &Vec<(String, String)>,
    compiler_version: Option<&JsonValue>,
    parsed: Option<CompilerVersion>,
    compiler_options: Option<&JsonValue>,
    conditional_defines: Option<&JsonValue>,
    conditional_undefines: Option<&JsonValue>,
    conditional_constants: Option<&JsonValue>,
) -> (r: Result<ConditionalContext, String>)
    ensures
        match stated_context(
            alias_pairs(aliases@),
            owned(compiler_version),
            parsed,
            owned(compiler_options),
            owned(conditional_defines),
            owned(conditional_undefines),
            owned(conditional_constants),
        ) {
            Ok(context) => r is Ok && r->Ok_0@ == context,
            Err(error) => r is Err && r->Err_0@ == error,
        },
{
    let mut context = ConditionalContext::new();
    let version = parse_stated_version(compiler_version, parsed)?;
    context.compiler_version = version;
    parse_conditional_symbol_list(
        conditional_defines,
        "conditionalDefines",
        &mut context,
        ConditionalFact::True,
    )?;
    parse_conditional_symbol_list(
        conditional_undefines,
        "conditionalUndefines",
        &mut context,
        ConditionalFact::False,
    )?;
    let context = parse_stated_options(aliases, compiler_options, context)?;
    let context = parse_stated_constants(conditional_constants, context)?;
    Ok(context)
}

/// A bound that is at least `minimum`, cut down to `maximum`.
pub open spec fn bounded(value: usize, minimum: usize, maximum: usize, name: Seq<char>) -> Result<
    usize,
    Seq<char>,
> {
    if value < minimum {
        Err("initializationOptions."@ + name + " must be at least "@ + decimal(minimum as nat))
    } else if value > maximum {
        Ok(maximum)
    } else {
        Ok(value)
    }
}

/// A bound that is at least `minimum`, cut down to `maximum`.
pub fn bounded_limit(value: usize, minimum: usize, maximum: usize, name: &str) -> (r: Result<
    usize,
    String,
>)
    ensures
        match r {
            Ok(limit) => bounded(value, minimum, maximum, name@) == Ok::<usize, Seq<char>>(limit),
            Err(error) => bounded(value, minimum, maximum, name@) == Err::<usize, Seq<char>>(
                error@,
            ),
        },
{
    if value < minimum {
        let head = concat3("initializationOptions.", name, " must be at least ");
        return Err(concat(head.as_str(), to_decimal(minimum).as_str()));
    }
    if value > maximum {
        return Ok(maximum);
    }
    Ok(value)
}

/// A bound where one is stated, and the usual one where none is.
pub open spec fn stated_limit(value: Option<usize>, maximum: usize, name: Seq<char>) -> Result<
    usize,
    Seq<char>,
> {
    match value {
        Some(value) => bounded(value, 1, maximum, name),
        None => Ok(maximum),
    }
}

fn parse_stated_limit(value: Option<usize>, maximum: usize, name: &str) -> (r: Result<
    usize,
    String,
>)
    ensures
        match r {
            Ok(limit) => stated_limit(value, maximum, name@) == Ok::<usize, Seq<char>>(limit),
            Err(error) => stated_limit(value, maximum, name@) == Err::<usize, Seq<char>>(error@),
        },
{
    match value {
        Some(value) => bounded_limit(value, 1, maximum, name),
        None => Ok(maximum),
    }
}

/// The limits that the options state.
pub open spec fn stated_limits(raw: RawWorkspaceOptions) -> Result<ResourceLimits, Seq<char>> {
    match stated_limit(raw.max_files, DEFAULT_MAX_FILES, "maxFiles"@) {
        Err(error) => Err(error),
        Ok(max_files) => match stated_limit(
            raw.max_file_bytes,
            DEFAULT_MAX_FILE_BYTES,
            "maxFileBytes"@,
        ) {
            Err(error) => Err(error),
            Ok(max_file_bytes) => match stated_limit(
                raw.max_total_bytes,
                DEFAULT_MAX_TOTAL_BYTES,
                "maxTotalBytes"@,
            ) {
                Err(error) => Err(error),
                Ok(max_total_bytes) => Ok(
                    ResourceLimits { max_files, max_file_bytes, max_total_bytes },
                ),
            },
        },
    }
}

/// What the options as they were sent stand for.
pub open spec fn options_from(aliases: Seq<(Seq<char>, Seq<char>)>, raw: RawWorkspaceOptions) -> Result<
    WorkspaceOptionsView,
    Seq<char>,
> {
    match stated_limits(raw) {
        Err(error) => Err(error),
        Ok(limits) => match stated_context(
            aliases,
            raw.compiler_version,
            raw.parsed_version,
            raw.compiler_options,
            raw.conditional_defines,
            raw.conditional_undefines,
            raw.conditional_constants,
        ) {
            Err(error) => Err(error),
            Ok(context) => Ok(
                WorkspaceOptionsView {
                    source_paths: texts(raw.source_paths@),
                    exclude: texts(raw.exclude@),
                    project_file: optional_parts(raw.project_file),
                    build_config: optional_text(raw.build_config),
                    platform: optional_text(raw.platform),
                    conditional_context: context,
                    limits,
                },
            ),
        },
    }
}

/// The part of the sent value that holds the options of this server, where there is one.
pub open spec fn nested_part(value: JsonValue) -> Option<JsonValue> {
    match value {
        JsonValue::Object(entries) => {
            let found = match entry_of(entries@, "pascalLsp"@) {
                Some(nested) => Some(nested),
                None => entry_of(entries@, "pascal-lsp"@),
            };
            match found {
                Some(JsonValue::Object(nested)) => Some(JsonValue::Object(nested)),
                _ => None,
            }
        },
        _ => None,
    }
}

/// The part of the sent value that holds the options of this server, where there is one.
pub fn nested_settings(value: &JsonValue) -> (r: Option<&JsonValue>)
    ensures
        owned(r) == nested_part(*value),
{
    match value {
        JsonValue::Object(entries) => {
            let found = match get_entry(entries, "pascalLsp") {
                Some(nested) => Some(nested),
                None => get_entry(entries, "pascal-lsp"),
            };
            match found {
                Some(nested) => match nested {
                    JsonValue::Object(_) => Some(nested),
                    _ => None,
                },
                None => None,
            }
        },
        _ => None,
    }
}

/// What the sent value stands for, where `direct` is what it is decoded as and `nested`
/// is what its nested part is decoded as.
pub open spec fn parsed_options(
    aliases: Seq<(Seq<char>, Seq<char>)>,
    value: Option<JsonValue>,
    direct: Result<RawWorkspaceOptions, String>,
    nested: Result<RawWorkspaceOptions, String>,
) -> Result<WorkspaceOptionsView, Seq<char>> {
    match present(value) {
        None => Ok(default_options()),
        Some(value) => match direct {
            Err(error) => Err("invalid initializationOptions: "@ + error@),
            Ok(direct) => match nested_part(value) {
                None => options_from(aliases, direct),
                Some(_) => match nested {
                    Err(error) => Err("invalid initializationOptions.pascalLsp: "@ + error@),
                    Ok(nested) => options_from(aliases, nested),
                },
            },
        },
    }
}

impl WorkspaceOptions {
    fn from_raw(aliases: &Vec<(String, String)>, raw: RawWorkspaceOptions) -> (r: Result<
        Self,
        String,
    >)
        ensures
            match options_from(alias_pairs(aliases@), raw) {
                Ok(options) => r is Ok && r->Ok_0@ == options,
                Err(error) => r is Err && r->Err_0@ == error,
            },
    {
        let max_files = parse_stated_limit(raw.max_files, DEFAULT_MAX_FILES, "maxFiles")?;
        let max_file_bytes = parse_stated_limit(
            raw.max_file_bytes,
            DEFAULT_MAX_FILE_BYTES,
            "maxFileBytes",
        )?;
        let max_total_bytes = parse_stated_limit(
            raw.max_total_bytes,
            DEFAULT_MAX_TOTAL_BYTES,
            "maxTotalBytes",
        )?;
        let conditional_context = parse_conditional_context_values(
            aliases,
            raw.compiler_version.as_ref(),
            raw.parsed_version,
            raw.compiler_options.as_ref(),
            raw.conditional_defines.as_ref(),
            raw.conditional_undefines.as_ref(),
            raw.conditional_constants.as_ref(),
        )?;
        Ok(
            WorkspaceOptions {
                source_paths: raw.source_paths,
                exclude: raw.exclude,
                project_file: raw.project_file,
                build_config: raw.build_config,
                platform: raw.platform,
                conditional_context,
                limits: ResourceLimits { max_files, max_file_bytes, max_total_bytes },
            },
        )
    }

    /// The options that a client starts the workspace with. `direct` is what the value is
    /// decoded as, and `nested` is what its nested part is decoded as.
    pub fn parse(
        aliases: &Vec<(String, String)>,
        value: Option<&JsonValue>,
        direct: Result<RawWorkspaceOptions, String>,
        nested: Result<RawWorkspaceOptions, String>,
    ) -> (r: Result<Self, String>)
        ensures
            match parsed_options(alias_pairs(aliases@), owned(value), direct, nested) {
                Ok(options) => r is Ok && r->Ok_0@ == options,
                Err(error) => r is Err && r->Err_0@ == error,
            },
    {
        match value {
            None => Ok(WorkspaceOptions::default()),
            Some(JsonValue::Null) => Ok(WorkspaceOptions::default()),
            Some(value) => match direct {
                Err(error) => Err(concat("invalid initializationOptions: ", error.as_str())),
                Ok(direct) => match nested_settings(value) {
                    None => WorkspaceOptions::from_raw(aliases, direct),
                    Some(_) => match nested {
                        Err(error) => Err(
                            concat("invalid initializationOptions.pascalLsp: ", error.as_str()),
                        ),
                        Ok(nested) => WorkspaceOptions::from_raw(aliases, nested),
                    },
                },
            },
        }
    }
}

} // verus!
