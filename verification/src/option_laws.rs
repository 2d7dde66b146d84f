//! What the settings of a client amount to.

use vstd::prelude::*;

use crate::conditional::{
    bare_name, conditional_name, fact_of, name_problem, option_name, with_defines, with_option,
    without_fact, CompilerVersion, ConditionalFact, ConditionalView, ConstantView,
};
use crate::json::{entry_from, entry_of, JsonValue};
use crate::limits::{DEFAULT_MAX_FILES, DEFAULT_MAX_FILE_BYTES, DEFAULT_MAX_TOTAL_BYTES};
use crate::options::{
    constant_entry, constants_of, items_of, limit_setting, list_setting, option_entry, options_of,
    string_setting, version_setting, Entries, OptionView,
    MAX_RUNTIME_LIST_ENTRIES, MAX_RUNTIME_STRING_BYTES,
};
use crate::overrides::{
    applied, context_effective, effective_options, update_of, ContextOverrideView, OverrideView,
    UpdateView,
};
use crate::settings::{
    nested_part, stated_context, stated_limits, symbol_list, symbols_of, RawWorkspaceOptions,
    WorkspaceOptionsView,
};
use crate::strings::{byte_len, lower, trim_spec};

verus! {

/// What a field is after an update: what the update sets it to, what the workspace was started
/// with where the update says nothing of it or takes it back, and what it was before where the
/// update cannot be used.
pub open spec fn comes_to<T>(update: OptionView<T>, before: T, base: T) -> T {
    match update {
        OptionView::Value(value) => value,
        OptionView::Invalid(_) => before,
        OptionView::Absent => base,
        OptionView::Reset => base,
    }
}

/// What an update sets is in effect afterwards, field by field.
pub proof fn law_an_update_is_in_effect(
    changes: OverrideView,
    update: UpdateView,
    base: WorkspaceOptionsView,
)
    ensures
        ({
            let before = effective_options(changes, base);
            let after = effective_options(applied(changes, update), base);
            &&& after.source_paths == comes_to(
                update.source_paths,
                before.source_paths,
                base.source_paths,
            )
            &&& after.exclude == comes_to(update.exclude, before.exclude, base.exclude)
            &&& after.limits.max_files == comes_to(
                update.max_files,
                before.limits.max_files,
                base.limits.max_files,
            )
            &&& after.limits.max_file_bytes == comes_to(
                update.max_file_bytes,
                before.limits.max_file_bytes,
                base.limits.max_file_bytes,
            )
            &&& after.limits.max_total_bytes == comes_to(
                update.max_total_bytes,
                before.limits.max_total_bytes,
                base.limits.max_total_bytes,
            )
            &&& update.project_file is Value ==> after.project_file == Some(
                update.project_file->Value_0,
            )
            &&& update.project_file is Absent || update.project_file is Reset ==> after.project_file
                == base.project_file
            &&& update.project_file is Invalid ==> after.project_file == before.project_file
            &&& update.build_config is Value ==> after.build_config == Some(
                update.build_config->Value_0,
            )
            &&& update.build_config is Absent || update.build_config is Reset ==> after.build_config
                == base.build_config
            &&& update.build_config is Invalid ==> after.build_config == before.build_config
            &&& update.platform is Value ==> after.platform == Some(update.platform->Value_0)
            &&& update.platform is Absent || update.platform is Reset ==> after.platform
                == base.platform
            &&& update.platform is Invalid ==> after.platform == before.platform
            &&& update.conditional_context.compiler_version is Value
                ==> after.conditional_context.compiler_version == Some(
                update.conditional_context.compiler_version->Value_0,
            )
            &&& update.conditional_context.options is Value ==> after.conditional_context.options
                == update.conditional_context.options->Value_0
            &&& update.conditional_context.constants is Value
                ==> after.conditional_context.constants
                == update.conditional_context.constants->Value_0
        }),
{
}

/// One of the first `n` names is the name of a symbol, whatever its case.
pub open spec fn is_named(names: Seq<Seq<char>>, name: Seq<char>, n: int) -> bool {
    exists|i: int| 0 <= i < n && conditional_name(#[trigger] names[i]) == name
}

proof fn lemma_with_defines(
    defines: Map<Seq<char>, ConditionalFact>,
    names: Seq<Seq<char>>,
    fact: ConditionalFact,
    n: int,
    name: Seq<char>,
)
    requires
        0 <= n <= names.len(),
    ensures
        is_named(names, name, n) ==> with_defines(defines, names, fact, n).contains_key(name)
            && with_defines(defines, names, fact, n)[name] == fact,
        !is_named(names, name, n) ==> with_defines(defines, names, fact, n).contains_key(name)
            == defines.contains_key(name) && with_defines(defines, names, fact, n)[name]
            == defines[name],
    decreases n,
{
    if n > 0 {
        lemma_with_defines(defines, names, fact, n - 1, name);
        if is_named(names, name, n - 1) {
            let i = choose|i: int| 0 <= i < n - 1 && conditional_name(#[trigger] names[i]) == name;
            assert(conditional_name(names[i]) == name);
            assert(is_named(names, name, n));
        }
        if conditional_name(names[n - 1]) == name {
            assert(is_named(names, name, n));
        } else if is_named(names, name, n) {
            let i = choose|i: int| 0 <= i < n && conditional_name(#[trigger] names[i]) == name;
            assert(i < n - 1);
            assert(is_named(names, name, n - 1));
        }
    }
}

/// A symbol that a client undefines is false, and one that it defines and does not undefine is
/// true. A list of either takes the place of the one that the workspace was started with.
pub proof fn law_what_a_client_defines(
    changes: ContextOverrideView,
    base: ConditionalView,
    name: Seq<char>,
)
    ensures
        ({
            let after = context_effective(changes, base).defines;
            let defined = changes.defines is Some && is_named(
                changes.defines->0,
                name,
                changes.defines->0.len() as int,
            );
            let undefined = changes.undefines is Some && is_named(
                changes.undefines->0,
                name,
                changes.undefines->0.len() as int,
            );
            let known = base.defines.contains_key(name);
            &&& undefined ==> after.contains_key(name) && after[name] == ConditionalFact::False
            &&& defined && !undefined ==> after.contains_key(name) && after[name]
                == ConditionalFact::True
            &&& !defined && !undefined && known && base.defines[name] == ConditionalFact::True ==> (
            after.contains_key(name) <==> changes.defines is None)
            &&& !defined && !undefined && known && base.defines[name] == ConditionalFact::False
                ==> (after.contains_key(name) <==> changes.undefines is None)
            &&& !defined && !undefined && !known ==> !after.contains_key(name)
        }),
{
    let first = match changes.defines {
        Some(names) => {
            lemma_with_defines(
                without_fact(base.defines, ConditionalFact::True),
                names,
                ConditionalFact::True,
                names.len() as int,
                name,
            );
            with_defines(
                without_fact(base.defines, ConditionalFact::True),
                names,
                ConditionalFact::True,
                names.len() as int,
            )
        },
        None => base.defines,
    };
    match changes.undefines {
        Some(names) => {
            lemma_with_defines(
                without_fact(first, ConditionalFact::False),
                names,
                ConditionalFact::False,
                names.len() as int,
                name,
            );
        },
        None => {},
    }
}

/// A bound is taken as it is where it is positive and no larger than the largest, and as the
/// largest where it is larger. Zero and what is no number is not taken.
pub proof fn law_bounds_are_positive_and_bounded(object: Entries, name: Seq<char>, maximum: usize)
    requires
        maximum > 0,
    ensures
        ({
            let value = entry_of(object, name);
            let bound = limit_setting(object, name, maximum);
            &&& value is None ==> bound == OptionView::<usize>::Absent
            &&& value == Some(JsonValue::Null) ==> bound == OptionView::<usize>::Reset
            &&& bound is Value ==> 0 < bound->Value_0 <= maximum
            &&& value is Some && value->0 is Number && value->0->Number_0.unsigned is Some && 0
                < value->0->Number_0.unsigned->0 <= maximum ==> bound is Value && bound->Value_0
                == value->0->Number_0.unsigned->0
            &&& value is Some && value->0 is Number && value->0->Number_0.unsigned is Some
                && maximum < value->0->Number_0.unsigned->0 <= usize::MAX ==> bound
                == OptionView::Value(maximum)
            &&& value is Some && value->0 is Number && value->0->Number_0.unsigned == Some(0u64)
                ==> bound is Invalid
            &&& value is Some && !(value->0 is Number) && !(value->0 is Null) ==> bound is Invalid
        }),
{
}

/// A text is taken as it is unless it is too long, and nothing but a text is.
pub proof fn law_texts_are_taken_as_they_are(object: Entries, name: Seq<char>)
    ensures
        ({
            let value = entry_of(object, name);
            let text = string_setting(object, name);
            &&& text is Absent <==> value is None
            &&& text is Reset <==> value == Some(JsonValue::Null)
            &&& text is Value <==> value is Some && value->0 is Text && byte_len(
                value->0->Text_0@,
            ) <= MAX_RUNTIME_STRING_BYTES
            &&& text is Value ==> text->Value_0 == value->0->Text_0@
        }),
{
}

/// An item of a list can be used: it is a text that is not too long, and a symbol where it has
/// to be one.
pub open spec fn is_usable(item: JsonValue, names: bool) -> bool {
    &&& item is Text
    &&& byte_len(item->Text_0@) <= MAX_RUNTIME_STRING_BYTES
    &&& names ==> is_symbol(item->Text_0@)
}

/// A text is a symbol: but for white space around it and the mark of an escaped identifier, a
/// letter or an underscore, and then letters, digits, underscores and dots.
pub open spec fn is_symbol(text: Seq<char>) -> bool {
    let bare = bare_name(text);
    &&& bare.len() > 0
    &&& 'a' <= bare[0] <= 'z' || 'A' <= bare[0] <= 'Z' || bare[0] == '_'
    &&& forall|i: int|
        1 <= i < bare.len() ==> 'a' <= #[trigger] bare[i] <= 'z' || 'A' <= bare[i] <= 'Z' || '0'
            <= bare[i] <= '9' || bare[i] == '_' || bare[i] == '.'
}

/// Nothing is wrong with a name exactly where it is a symbol.
pub proof fn law_which_names_are_symbols(text: Seq<char>)
    ensures
        name_problem(text) is None <==> is_symbol(text),
{
}

proof fn lemma_items(items: Seq<JsonValue>, names: bool, n: int)
    requires
        0 <= n <= items.len(),
    ensures
        items_of(items, names, n) is Ok <==> forall|i: int|
            0 <= i < n ==> is_usable(#[trigger] items[i], names),
        items_of(items, names, n) is Ok ==> items_of(items, names, n)->Ok_0.len() == n && forall|
            i: int,
        |
            0 <= i < n ==> #[trigger] items_of(items, names, n)->Ok_0[i] == items[i]->Text_0@,
    decreases n,
{
    if n > 0 {
        lemma_items(items, names, n - 1);
        if items[n - 1] is Text {
            law_which_names_are_symbols(items[n - 1]->Text_0@);
        }
        if items_of(items, names, n) is Ok {
            assert forall|i: int| 0 <= i < n implies is_usable(#[trigger] items[i], names) by {
                if i == n - 1 {
                }
            }
        }
    }
}

/// A list is taken whole, in its order, exactly where it is not too long and every item can be
/// used; one that cannot be used spoils it.
pub proof fn law_lists_are_taken_whole(object: Entries, name: Seq<char>, names: bool)
    ensures
        ({
            let value = entry_of(object, name);
            let list = list_setting(object, name, names);
            let items = value->0->Array_0@;
            &&& list is Absent <==> value is None
            &&& list is Reset <==> value == Some(JsonValue::Null)
            &&& list is Value <==> value is Some && value->0 is Array && items.len()
                <= MAX_RUNTIME_LIST_ENTRIES && forall|i: int|
                0 <= i < items.len() ==> is_usable(#[trigger] items[i], names)
            &&& list is Value ==> list->Value_0.len() == items.len() && forall|i: int|
                0 <= i < items.len() ==> #[trigger] list->Value_0[i] == items[i]->Text_0@
        }),
{
    let value = entry_of(object, name);
    if value is Some && value->0 is Array {
        let items = value->0->Array_0@;
        lemma_items(items, names, items.len() as int);
    }
}

/// What a client states as a fact: a truth value is one, null is that nothing is known, and
/// texts are so by the usual words, whatever their case.
pub proof fn law_which_facts_are_stated(value: JsonValue)
    ensures
        value is Null ==> fact_of(value) == Some(ConditionalFact::Unknown),
        value is Bool ==> fact_of(value) == Some(
            if value->Bool_0 {
                ConditionalFact::True
            } else {
                ConditionalFact::False
            },
        ),
        value is Text ==> {
            let word = lower(trim_spec(value->Text_0@));
            let yes = word == "on"@ || word == "true"@ || word == "yes"@ || word == "+"@ || word
                == "1"@;
            let no = word == "off"@ || word == "false"@ || word == "no"@ || word == "-"@ || word
                == "0"@;
            &&& yes ==> fact_of(value) == Some(ConditionalFact::True)
            &&& no && !yes ==> fact_of(value) == Some(ConditionalFact::False)
            &&& word == "unknown"@ && !yes && !no ==> fact_of(value) == Some(
                ConditionalFact::Unknown,
            )
            &&& !yes && !no && word != "unknown"@ ==> fact_of(value) is None
        },
        !(value is Null) && !(value is Bool) && !(value is Text) ==> fact_of(value) is None,
{
}

/// An option that is stated once has its fact; one that is stated again with another is
/// unknown; and the others stay.
pub proof fn law_options_that_contradict_are_unknown(
    options: Map<Seq<char>, ConditionalFact>,
    name: Seq<char>,
    fact: ConditionalFact,
    other: Seq<char>,
)
    requires
        other != name,
    ensures
        with_option(options, name, fact).contains_key(name),
        !options.contains_key(name) || options[name] == fact ==> with_option(
            options,
            name,
            fact,
        )[name] == fact,
        options.contains_key(name) && options[name] != fact ==> with_option(
            options,
            name,
            fact,
        )[name] == ConditionalFact::Unknown,
        with_option(options, name, fact).contains_key(other) == options.contains_key(other),
        with_option(options, name, fact)[other] == options[other],
{
}

/// A limit of the options that a workspace is started with is the usual one where none is
/// stated, and never above it; none is taken where one is zero.
pub proof fn law_stated_limits_are_positive_and_bounded(raw: RawWorkspaceOptions)
    ensures
        stated_limits(raw) is Ok <==> raw.max_files != Some(0usize) && raw.max_file_bytes != Some(
            0usize,
        ) && raw.max_total_bytes != Some(0usize),
        stated_limits(raw) is Ok ==> {
            let limits = stated_limits(raw)->Ok_0;
            &&& limits.max_files == smaller(raw.max_files, DEFAULT_MAX_FILES)
            &&& limits.max_file_bytes == smaller(raw.max_file_bytes, DEFAULT_MAX_FILE_BYTES)
            &&& limits.max_total_bytes == smaller(raw.max_total_bytes, DEFAULT_MAX_TOTAL_BYTES)
        },
{
}

/// What is stated, but not more than the usual.
pub open spec fn smaller(stated: Option<usize>, usual: usize) -> usize {
    if stated is Some && stated->0 <= usual {
        stated->0
    } else {
        usual
    }
}

/// The options of the server are looked for under its own name first, and under the other one
/// only where there is nothing under that. What is no object there does not count.
pub proof fn law_where_the_options_of_the_server_stand(value: JsonValue)
    ensures
        !(value is Object) ==> nested_part(value) is None,
        value is Object ==> {
            let own = entry_of(value->Object_0@, "pascalLsp"@);
            let other = entry_of(value->Object_0@, "pascal-lsp"@);
            &&& own is Some && own->0 is Object ==> nested_part(value) == own
            &&& own is Some && !(own->0 is Object) ==> nested_part(value) is None
            &&& own is None && other is Some && other->0 is Object ==> nested_part(value) == other
            &&& own is None && !(other is Some && other->0 is Object) ==> nested_part(value) is None
        },
{
}

/// A setting that a client leaves out changes nothing, each under its own name, and one that it
/// gives is taken for its own field alone.
pub proof fn law_each_setting_has_its_own_name(
    aliases: Seq<(Seq<char>, Seq<char>)>,
    object: Entries,
    version: Option<CompilerVersion>,
)
    ensures
        ({
            let update = update_of(aliases, object, version);
            let context = update.conditional_context;
            &&& update.source_paths is Absent <==> entry_of(object, "sourcePaths"@) is None
            &&& update.exclude is Absent <==> entry_of(object, "exclude"@) is None
            &&& update.project_file is Absent <==> entry_of(object, "projectFile"@) is None
            &&& update.build_config is Absent <==> entry_of(object, "buildConfig"@) is None
            &&& update.platform is Absent <==> entry_of(object, "platform"@) is None
            &&& update.max_files is Absent <==> entry_of(object, "maxFiles"@) is None
            &&& update.max_file_bytes is Absent <==> entry_of(object, "maxFileBytes"@) is None
            &&& update.max_total_bytes is Absent <==> entry_of(object, "maxTotalBytes"@) is None
            &&& context.compiler_version is Absent <==> entry_of(object, "compilerVersion"@) is None
            &&& context.options is Absent <==> entry_of(object, "compilerOptions"@) is None
            &&& context.defines is Absent <==> entry_of(object, "conditionalDefines"@) is None
            &&& context.undefines is Absent <==> entry_of(object, "conditionalUndefines"@) is None
            &&& context.constants is Absent <==> entry_of(object, "conditionalConstants"@) is None
            &&& update.max_files is Value ==> update.max_files->Value_0 <= DEFAULT_MAX_FILES
            &&& update.max_file_bytes is Value ==> update.max_file_bytes->Value_0
                <= DEFAULT_MAX_FILE_BYTES
            &&& update.max_total_bytes is Value ==> update.max_total_bytes->Value_0
                <= DEFAULT_MAX_TOTAL_BYTES
            &&& update.build_config is Value ==> entry_of(object, "buildConfig"@) is Some
                && entry_of(object, "buildConfig"@)->0 is Text && update.build_config->Value_0
                == entry_of(object, "buildConfig"@)->0->Text_0@
            &&& update.platform is Value ==> entry_of(object, "platform"@) is Some && entry_of(
                object,
                "platform"@,
            )->0 is Text && update.platform->Value_0 == entry_of(object, "platform"@)->0->Text_0@
        }),
{
    law_texts_are_taken_as_they_are(object, "buildConfig"@);
    law_texts_are_taken_as_they_are(object, "platform"@);
    law_texts_are_taken_as_they_are(object, "projectFile"@);
}

/// A version is taken exactly where it is a text or a number that is not too long and can be
/// read as one.
pub proof fn law_which_versions_are_taken(object: Entries, parsed: Option<CompilerVersion>)
    ensures
        ({
            let value = entry_of(object, "compilerVersion"@);
            let version = version_setting(object, parsed);
            let written = if value->0 is Text {
                value->0->Text_0@
            } else {
                value->0->Number_0.text@
            };
            &&& version is Reset <==> value == Some(JsonValue::Null)
            &&& version is Value <==> value is Some && (value->0 is Text || value->0 is Number)
                && byte_len(written) <= MAX_RUNTIME_STRING_BYTES && parsed is Some
            &&& version is Value ==> version->Value_0 == parsed->0
        }),
{
}

/// An entry states an option: its name is a symbol that is not too long, and its value a fact.
pub open spec fn states_option(entry: (String, JsonValue)) -> bool {
    byte_len(entry.0@) <= MAX_RUNTIME_STRING_BYTES && is_symbol(entry.0@) && fact_of(entry.1) is Some
}

/// Options are taken only where every entry states one. An option is then known exactly where
/// an entry states it, and where it is known to hold or not to, all entries that state it say so.
pub proof fn law_options_are_those_that_are_stated(
    aliases: Seq<(Seq<char>, Seq<char>)>,
    entries: Entries,
    n: int,
    name: Seq<char>,
)
    requires
        0 <= n <= entries.len(),
    ensures
        options_of(aliases, entries, n) is Ok <==> forall|i: int|
            0 <= i < n ==> states_option(#[trigger] entries[i]),
        options_of(aliases, entries, n) is Ok ==> {
            let options = options_of(aliases, entries, n)->Ok_0;
            &&& options.contains_key(name) <==> exists|i: int|
                0 <= i < n && option_name(aliases, (#[trigger] entries[i]).0@) == name
            &&& options.contains_key(name) && options[name] != ConditionalFact::Unknown
                ==> forall|i: int|
                0 <= i < n && option_name(aliases, (#[trigger] entries[i]).0@) == name ==> fact_of(
                    entries[i].1,
                ) == Some(options[name])
        },
    decreases n,
{
    if n > 0 {
        law_options_are_those_that_are_stated(aliases, entries, n - 1, name);
        let last = entries[n - 1];
        law_which_names_are_symbols(last.0@);
        assert(option_entry(last.0@, last.1) is Ok <==> states_option(last));
        if options_of(aliases, entries, n) is Ok {
            assert forall|i: int| 0 <= i < n implies states_option(#[trigger] entries[i]) by {
                if i == n - 1 {
                }
            }
            let before = options_of(aliases, entries, n - 1)->Ok_0;
            let after = options_of(aliases, entries, n)->Ok_0;
            if option_name(aliases, last.0@) == name {
                assert(option_name(aliases, entries[n - 1].0@) == name);
            }
            if exists|i: int|
                0 <= i < n && option_name(aliases, (#[trigger] entries[i]).0@) == name {
                let i = choose|i: int|
                    0 <= i < n && option_name(aliases, (#[trigger] entries[i]).0@) == name;
                if i < n - 1 {
                    assert(option_name(aliases, entries[i].0@) == name);
                }
            }
            if after.contains_key(name) && after[name] != ConditionalFact::Unknown {
                assert forall|i: int|
                    0 <= i < n && option_name(aliases, (#[trigger] entries[i]).0@) == name implies fact_of(
                entries[i].1) == Some(after[name]) by {
                    if i < n - 1 {
                        assert(before.contains_key(name));
                    }
                }
            }
        }
    }
}

/// An entry states a constant: its name is a symbol that is not too long, and its value a truth
/// value, a text that is not too long, or a whole number.
pub open spec fn states_constant(entry: (String, JsonValue)) -> bool {
    &&& byte_len(entry.0@) <= MAX_RUNTIME_STRING_BYTES && is_symbol(entry.0@)
    &&& entry.1 is Bool || (entry.1 is Text && byte_len(entry.1->Text_0@)
        <= MAX_RUNTIME_STRING_BYTES) || (entry.1 is Number && entry.1->Number_0.signed is Some)
}

/// What an entry states of a constant.
pub open spec fn stated_value(value: JsonValue) -> ConstantView {
    if value is Bool {
        ConstantView::Boolean(value->Bool_0)
    } else if value is Text {
        ConstantView::Text(value->Text_0@)
    } else {
        ConstantView::Integer(value->Number_0.signed->0)
    }
}

/// Constants are taken only where every entry states one; the last entry of a name counts.
pub proof fn law_constants_are_those_that_are_stated(entries: Entries, n: int, name: Seq<char>)
    requires
        0 <= n <= entries.len(),
    ensures
        constants_of(entries, n) is Ok <==> forall|i: int|
            0 <= i < n ==> states_constant(#[trigger] entries[i]),
        constants_of(entries, n) is Ok ==> {
            let constants = constants_of(entries, n)->Ok_0;
            &&& constants.contains_key(name) <==> exists|i: int|
                0 <= i < n && conditional_name((#[trigger] entries[i]).0@) == name
            &&& constants.contains_key(name) ==> exists|i: int|
                0 <= i < n && conditional_name((#[trigger] entries[i]).0@) == name
                    && constants[name] == stated_value(entries[i].1) && forall|j: int|
                    i < j < n ==> conditional_name((#[trigger] entries[j]).0@) != name
        },
    decreases n,
{
    if n > 0 {
        law_constants_are_those_that_are_stated(entries, n - 1, name);
        let last = entries[n - 1];
        law_which_names_are_symbols(last.0@);
        assert(constant_entry(last.0@, last.1) is Ok <==> states_constant(last));
        if constants_of(entries, n) is Ok {
            assert forall|i: int| 0 <= i < n implies states_constant(#[trigger] entries[i]) by {
                if i == n - 1 {
                }
            }
            let before = constants_of(entries, n - 1)->Ok_0;
            let after = constants_of(entries, n)->Ok_0;
            if conditional_name(last.0@) == name {
                assert(after[name] == stated_value(entries[n - 1].1));
                assert(conditional_name(entries[n - 1].0@) == name);
            } else {
                assert(after.contains_key(name) == before.contains_key(name));
                if before.contains_key(name) {
                    let i = choose|i: int|
                        0 <= i < n - 1 && conditional_name((#[trigger] entries[i]).0@) == name
                            && before[name] == stated_value(entries[i].1) && forall|j: int|
                            i < j < n - 1 ==> conditional_name((#[trigger] entries[j]).0@) != name;
                    assert(conditional_name(entries[i].0@) == name);
                    assert forall|j: int| i < j < n implies conditional_name(
                        (#[trigger] entries[j]).0@,
                    ) != name by {
                        if j == n - 1 {
                        }
                    }
                }
                if exists|i: int|
                    0 <= i < n && conditional_name((#[trigger] entries[i]).0@) == name {
                    let i = choose|i: int|
                        0 <= i < n && conditional_name((#[trigger] entries[i]).0@) == name;
                    assert(i < n - 1 && conditional_name(entries[i].0@) == name);
                }
            }
        }
    }
}

/// The facts that a workspace is started with: what is undefined is false, what is defined and
/// not undefined is true, and nothing else is known. A list that cannot be used, and a version
/// that cannot be read, spoil them.
pub proof fn law_what_a_workspace_is_started_with(
    aliases: Seq<(Seq<char>, Seq<char>)>,
    version: Option<JsonValue>,
    parsed: Option<CompilerVersion>,
    options: Option<JsonValue>,
    defines: Option<JsonValue>,
    undefines: Option<JsonValue>,
    constants: Option<JsonValue>,
    name: Seq<char>,
)
    requires
        stated_context(aliases, version, parsed, options, defines, undefines, constants) is Ok,
    ensures
        ({
            let facts = stated_context(
                aliases,
                version,
                parsed,
                options,
                defines,
                undefines,
                constants,
            )->Ok_0;
            let given = version is Some && !(version->0 is Null);
            let no_defines = defines is None || defines->0 is Null;
            let no_undefines = undefines is None || undefines->0 is Null;
            let defined = !no_defines && is_listed_symbol(defines->0, name);
            let undefined = !no_undefines && is_listed_symbol(undefines->0, name);
            &&& given ==> facts.compiler_version == parsed && parsed is Some
            &&& !given ==> facts.compiler_version is None
            &&& !no_defines ==> defines->0 is Array
            &&& !no_undefines ==> undefines->0 is Array
            &&& facts.defines.contains_key(name) <==> defined || undefined
            &&& undefined ==> facts.defines[name] == ConditionalFact::False
            &&& defined && !undefined ==> facts.defines[name] == ConditionalFact::True
        }),
{
    let first = symbol_list(defines, "conditionalDefines"@)->Ok_0;
    let second = symbol_list(undefines, "conditionalUndefines"@)->Ok_0;
    let some = with_defines(Map::empty(), first, ConditionalFact::True, first.len() as int);
    lemma_with_defines(Map::empty(), first, ConditionalFact::True, first.len() as int, name);
    lemma_with_defines(some, second, ConditionalFact::False, second.len() as int, name);
    if defines is Some && defines->0 is Array {
        lemma_symbols(
            defines->0->Array_0@,
            "conditionalDefines"@,
            defines->0->Array_0@.len() as int,
        );
        lemma_listed_symbol(defines->0, first, name);
    }
    if undefines is Some && undefines->0 is Array {
        lemma_symbols(
            undefines->0->Array_0@,
            "conditionalUndefines"@,
            undefines->0->Array_0@.len() as int,
        );
        lemma_listed_symbol(undefines->0, second, name);
    }
}

proof fn lemma_listed_symbol(list: JsonValue, names: Seq<Seq<char>>, name: Seq<char>)
    requires
        list is Array,
        names.len() == list->Array_0@.len(),
        forall|i: int| 0 <= i < names.len() ==> #[trigger] names[i] == list->Array_0@[i]->Text_0@,
    ensures
        is_named(names, name, names.len() as int) <==> is_listed_symbol(list, name),
{
    if is_named(names, name, names.len() as int) {
        let i = choose|i: int|
            0 <= i < names.len() && conditional_name(#[trigger] names[i]) == name;
        assert(conditional_name(list->Array_0@[i]->Text_0@) == name);
    }
    if is_listed_symbol(list, name) {
        let i = choose|i: int|
            0 <= i < list->Array_0@.len() && conditional_name(
                (#[trigger] list->Array_0@[i])->Text_0@,
            ) == name;
        assert(names[i] == list->Array_0@[i]->Text_0@);
    }
}

/// A symbol is one of those that a list names, whatever its case.
pub open spec fn is_listed_symbol(list: JsonValue, name: Seq<char>) -> bool {
    exists|i: int|
        0 <= i < list->Array_0@.len() && conditional_name((#[trigger] list->Array_0@[i])->Text_0@)
            == name
}

proof fn lemma_symbols(items: Seq<JsonValue>, field: Seq<char>, n: int)
    requires
        0 <= n <= items.len(),
    ensures
        symbols_of(items, field, n) is Ok ==> symbols_of(items, field, n)->Ok_0.len() == n
            && forall|i: int|
            0 <= i < n ==> #[trigger] symbols_of(items, field, n)->Ok_0[i] == items[i]->Text_0@,
        symbols_of(items, field, n) is Ok <==> forall|i: int|
            0 <= i < n ==> is_usable(#[trigger] items[i], true),
    decreases n,
{
    if n > 0 {
        lemma_symbols(items, field, n - 1);
        if items[n - 1] is Text {
            law_which_names_are_symbols(items[n - 1]->Text_0@);
        }
        if symbols_of(items, field, n) is Ok {
            assert forall|i: int| 0 <= i < n implies is_usable(#[trigger] items[i], true) by {
                if i == n - 1 {
                }
            }
        }
    }
}

/// The value of a name is that of the first entry with this name, and there is none exactly
/// where no entry has it.
pub proof fn law_the_first_entry_of_a_name_counts(object: Entries, name: Seq<char>, i: int)
    ensures
        entry_of(object, name) is None <==> forall|k: int|
            0 <= k < object.len() ==> (#[trigger] object[k]).0@ != name,
        0 <= i < object.len() && object[i].0@ == name && (forall|k: int|
            0 <= k < i ==> (#[trigger] object[k]).0@ != name) ==> entry_of(object, name) == Some(
            object[i].1,
        ),
{
    lemma_entry_from(object, name, 0, i);
}

proof fn lemma_entry_from(object: Entries, name: Seq<char>, from: int, i: int)
    requires
        0 <= from <= object.len(),
    ensures
        entry_from(object, name, from) is None <==> forall|k: int|
            from <= k < object.len() ==> (#[trigger] object[k]).0@ != name,
        from <= i < object.len() && object[i].0@ == name && (forall|k: int|
            from <= k < i ==> (#[trigger] object[k]).0@ != name) ==> entry_from(object, name, from)
            == Some(object[i].1),
    decreases object.len() - from,
{
    if from < object.len() {
        lemma_entry_from(object, name, from + 1, i);
    }
}

} // verus!
