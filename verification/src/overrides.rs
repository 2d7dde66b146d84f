//! What a client changes in the options while the workspace runs.

use vstd::prelude::*;

use crate::conditional::{
    alias_pairs, copy_constants, copy_facts, with_defines, without_fact, CompilerVersion,
    ConditionalContext, ConditionalFact, ConditionalView, ConstantValue, ConstantView,
};
use crate::json::JsonValue;
use crate::limits::{
    ResourceLimits, DEFAULT_MAX_FILES, DEFAULT_MAX_FILE_BYTES, DEFAULT_MAX_TOTAL_BYTES,
};
use crate::options::{
    constants_option, constants_setting, facts_option, limit_setting, list_option, list_setting,
    options_setting, parse_runtime_compiler_version, parse_runtime_conditional_constants,
    parse_runtime_conditional_options, parse_runtime_conditional_symbols, parse_runtime_limit,
    parse_runtime_list, parse_runtime_string, path_option, plain_option, string_setting,
    text_option, version_setting, Entries, OptionView, RuntimeOption,
};
use crate::paths::{parse_parts, FilePath, Parts};
use crate::settings::{
    copy_optional_path, copy_optional_text, optional_texts, WorkspaceOptions, WorkspaceOptionsView,
};
use crate::strings::{concat, concat3, copy_list, texts};
use crate::strmap::StrMap;
use crate::uris::{optional_parts, optional_text};

verus! {

/// What a client asks of the facts for conditional source text.
#[derive(Debug)]
pub struct RuntimeConditionalContextUpdate {
    pub compiler_version: RuntimeOption<CompilerVersion>,
    pub options: RuntimeOption<StrMap<ConditionalFact>>,
    pub defines: RuntimeOption<Vec<String>>,
    pub undefines: RuntimeOption<Vec<String>>,
    pub constants: RuntimeOption<StrMap<ConstantValue>>,
}

/// What a client asks of the options.
#[derive(Debug)]
pub struct RuntimeOptionsUpdate {
    pub source_paths: RuntimeOption<Vec<String>>,
    pub exclude: RuntimeOption<Vec<String>>,
    pub project_file: RuntimeOption<FilePath>,
    pub build_config: RuntimeOption<String>,
    pub platform: RuntimeOption<String>,
    pub conditional_context: RuntimeConditionalContextUpdate,
    pub max_files: RuntimeOption<usize>,
    pub max_file_bytes: RuntimeOption<usize>,
    pub max_total_bytes: RuntimeOption<usize>,
}

/// What a client asks of the facts for conditional source text.
#[verifier::ext_equal]
pub struct ContextUpdateView {
    pub compiler_version: OptionView<CompilerVersion>,
    pub options: OptionView<Map<Seq<char>, ConditionalFact>>,
    pub defines: OptionView<Seq<Seq<char>>>,
    pub undefines: OptionView<Seq<Seq<char>>>,
    pub constants: OptionView<Map<Seq<char>, ConstantView>>,
}

/// What a client asks of the options.
#[verifier::ext_equal]
pub struct UpdateView {
    pub source_paths: OptionView<Seq<Seq<char>>>,
    pub exclude: OptionView<Seq<Seq<char>>>,
    pub project_file: OptionView<Parts>,
    pub build_config: OptionView<Seq<char>>,
    pub platform: OptionView<Seq<char>>,
    pub conditional_context: ContextUpdateView,
    pub max_files: OptionView<usize>,
    pub max_file_bytes: OptionView<usize>,
    pub max_total_bytes: OptionView<usize>,
}

impl View for RuntimeConditionalContextUpdate {
    type V = ContextUpdateView;

    open spec fn view(&self) -> ContextUpdateView {
        ContextUpdateView {
            compiler_version: plain_option(self.compiler_version),
            options: facts_option(self.options),
            defines: list_option(self.defines),
            undefines: list_option(self.undefines),
            constants: constants_option(self.constants),
        }
    }
}

impl View for RuntimeOptionsUpdate {
    type V = UpdateView;

    open spec fn view(&self) -> UpdateView {
        UpdateView {
            source_paths: list_option(self.source_paths),
            exclude: list_option(self.exclude),
            project_file: path_option(self.project_file),
            build_config: text_option(self.build_config),
            platform: text_option(self.platform),
            conditional_context: self.conditional_context@,
            max_files: plain_option(self.max_files),
            max_file_bytes: plain_option(self.max_file_bytes),
            max_total_bytes: plain_option(self.max_total_bytes),
        }
    }
}

/// The update that takes every fact back.
pub open spec fn context_reset() -> ContextUpdateView {
    ContextUpdateView {
        compiler_version: OptionView::Reset,
        options: OptionView::Reset,
        defines: OptionView::Reset,
        undefines: OptionView::Reset,
        constants: OptionView::Reset,
    }
}

/// The update that takes every change back.
pub open spec fn update_reset() -> UpdateView {
    UpdateView {
        source_paths: OptionView::Reset,
        exclude: OptionView::Reset,
        project_file: OptionView::Reset,
        build_config: OptionView::Reset,
        platform: OptionView::Reset,
        conditional_context: context_reset(),
        max_files: OptionView::Reset,
        max_file_bytes: OptionView::Reset,
        max_total_bytes: OptionView::Reset,
    }
}

impl RuntimeConditionalContextUpdate {
    pub fn reset() -> (r: Self)
        ensures
            r@ == context_reset(),
    {
        RuntimeConditionalContextUpdate {
            compiler_version: RuntimeOption::Reset,
            options: RuntimeOption::Reset,
            defines: RuntimeOption::Reset,
            undefines: RuntimeOption::Reset,
            constants: RuntimeOption::Reset,
        }
    }
}

impl RuntimeOptionsUpdate {
    pub fn reset() -> (r: Self)
        ensures
            r@ == update_reset(),
    {
        RuntimeOptionsUpdate {
            source_paths: RuntimeOption::Reset,
            exclude: RuntimeOption::Reset,
            project_file: RuntimeOption::Reset,
            build_config: RuntimeOption::Reset,
            platform: RuntimeOption::Reset,
            conditional_context: RuntimeConditionalContextUpdate::reset(),
            max_files: RuntimeOption::Reset,
            max_file_bytes: RuntimeOption::Reset,
            max_total_bytes: RuntimeOption::Reset,
        }
    }
}

/// The update that a client's settings ask for.
pub open spec fn update_of(
    aliases: Seq<(Seq<char>, Seq<char>)>,
    object: Entries,
    version: Option<CompilerVersion>,
) -> UpdateView {
    UpdateView {
        source_paths: list_setting(object, "sourcePaths"@, false),
        exclude: list_setting(object, "exclude"@, false),
        project_file: match string_setting(object, "projectFile"@) {
            OptionView::Absent => OptionView::Absent,
            OptionView::Reset => OptionView::Reset,
            OptionView::Value(text) => OptionView::Value(parse_parts(text)),
            OptionView::Invalid(error) => OptionView::Invalid(error),
        },
        build_config: string_setting(object, "buildConfig"@),
        platform: string_setting(object, "platform"@),
        conditional_context: ContextUpdateView {
            compiler_version: version_setting(object, version),
            options: options_setting(aliases, object),
            defines: list_setting(object, "conditionalDefines"@, true),
            undefines: list_setting(object, "conditionalUndefines"@, true),
            constants: constants_setting(object),
        },
        max_files: limit_setting(object, "maxFiles"@, DEFAULT_MAX_FILES),
        max_file_bytes: limit_setting(object, "maxFileBytes"@, DEFAULT_MAX_FILE_BYTES),
        max_total_bytes: limit_setting(object, "maxTotalBytes"@, DEFAULT_MAX_TOTAL_BYTES),
    }
}

/// The update that a client's settings ask for. `version` is what the text of the
/// compiler's version is read as.
pub fn parse_runtime_options(
    aliases: &Vec<(String, String)>,
    value: &JsonValue,
    version: Option<CompilerVersion>,
) -> (r: Result<RuntimeOptionsUpdate, String>)
    ensures
        match *value {
            JsonValue::Object(object) => r is Ok && r->Ok_0@ == update_of(
                alias_pairs(aliases@),
                object@,
                version,
            ),
            _ => r is Err && r->Err_0@
                == "runtime pascalLsp settings must be an object or null"@,
        },
{
    match value {
        JsonValue::Object(object) => Ok(
            RuntimeOptionsUpdate {
                source_paths: parse_runtime_list(object, "sourcePaths"),
                exclude: parse_runtime_list(object, "exclude"),
                project_file: parse_runtime_string(object, "projectFile").map_path_buf(),
                build_config: parse_runtime_string(object, "buildConfig"),
                platform: parse_runtime_string(object, "platform"),
                conditional_context: RuntimeConditionalContextUpdate {
                    compiler_version: parse_runtime_compiler_version(object, version),
                    options: parse_runtime_conditional_options(aliases, object),
                    defines: parse_runtime_conditional_symbols(object, "conditionalDefines"),
                    undefines: parse_runtime_conditional_symbols(object, "conditionalUndefines"),
                    constants: parse_runtime_conditional_constants(object),
                },
                max_files: parse_runtime_limit(object, "maxFiles", DEFAULT_MAX_FILES),
                max_file_bytes: parse_runtime_limit(
                    object,
                    "maxFileBytes",
                    DEFAULT_MAX_FILE_BYTES,
                ),
                max_total_bytes: parse_runtime_limit(
                    object,
                    "maxTotalBytes",
                    DEFAULT_MAX_TOTAL_BYTES,
                ),
            },
        ),
        _ => Err("runtime pascalLsp settings must be an object or null".to_owned()),
    }
}

/// A change after a setting: an unusable one leaves it, and one that is left out or taken
/// back ends it.
pub open spec fn changed_to<T>(target: Option<T>, value: OptionView<T>) -> Option<T> {
    match value {
        OptionView::Absent => None,
        OptionView::Reset => None,
        OptionView::Value(value) => Some(value),
        OptionView::Invalid(_) => target,
    }
}

/// A change that may be to nothing, after a setting.
pub open spec fn optional_changed_to<T>(target: Option<Option<T>>, value: OptionView<T>) -> Option<
    Option<T>,
> {
    match value {
        OptionView::Absent => None,
        OptionView::Reset => Some(None),
        OptionView::Value(value) => Some(Some(value)),
        OptionView::Invalid(_) => target,
    }
}

/// What a client is told of a setting.
pub open spec fn warned<T>(name: Seq<char>, value: OptionView<T>) -> Seq<Seq<char>> {
    match value {
        OptionView::Invalid(error) => seq!["ignoring runtime "@ + name + ": "@ + error],
        _ => seq![],
    }
}

fn add_warning(warnings: &mut Vec<String>, name: &str, error: &str)
    ensures
        texts(final(warnings)@) == texts(old(warnings)@) + seq![
            "ignoring runtime "@ + name@ + ": "@ + error@,
        ],
{
    let head = concat3("ignoring runtime ", name, ": ");
    let ghost before = warnings@;
    warnings.push(concat(head.as_str(), error));
    proof {
        assert(texts(warnings@) =~= texts(before) + seq![
            "ignoring runtime "@ + name@ + ": "@ + error@,
        ]);
    }
}

/// Changes a field as a setting asks.
pub fn apply_runtime_field<T>(
    target: &mut Option<T>,
    value: RuntimeOption<T>,
    name: &str,
    warnings: &mut Vec<String>,
)
    ensures
        *final(target) == changed_to(*old(target), plain_option(value)),
        texts(final(warnings)@) == texts(old(warnings)@) + warned(name@, plain_option(value)),
{
    proof {
        assert(texts(warnings@) + Seq::<Seq<char>>::empty() =~= texts(warnings@));
    }
    match value {
        RuntimeOption::Absent | RuntimeOption::Reset => {
            *target = None;
        },
        RuntimeOption::Value(value) => {
            *target = Some(value);
        },
        RuntimeOption::Invalid(error) => {
            add_warning(warnings, name, error.as_str());
        },
    }
}

/// Changes a field that may be empty as a setting asks.
pub fn apply_runtime_optional_field<T>(
    target: &mut Option<Option<T>>,
    value: RuntimeOption<T>,
    name: &str,
    warnings: &mut Vec<String>,
)
    ensures
        *final(target) == optional_changed_to(*old(target), plain_option(value)),
        texts(final(warnings)@) == texts(old(warnings)@) + warned(name@, plain_option(value)),
{
    proof {
        assert(texts(warnings@) + Seq::<Seq<char>>::empty() =~= texts(warnings@));
    }
    match value {
        RuntimeOption::Absent => {
            *target = None;
        },
        RuntimeOption::Reset => {
            *target = Some(None);
        },
        RuntimeOption::Value(value) => {
            *target = Some(Some(value));
        },
        RuntimeOption::Invalid(error) => {
            add_warning(warnings, name, error.as_str());
        },
    }
}

/// Changes a fact as a setting asks.
pub fn apply_runtime_optional_value<T>(
    target: &mut Option<T>,
    value: RuntimeOption<T>,
    name: &str,
    warnings: &mut Vec<String>,
)
    ensures
        *final(target) == changed_to(*old(target), plain_option(value)),
        texts(final(warnings)@) == texts(old(warnings)@) + warned(name@, plain_option(value)),
{
    proof {
        assert(texts(warnings@) + Seq::<Seq<char>>::empty() =~= texts(warnings@));
    }
    match value {
        RuntimeOption::Absent | RuntimeOption::Reset => {
            *target = None;
        },
        RuntimeOption::Value(value) => {
            *target = Some(value);
        },
        RuntimeOption::Invalid(error) => {
            add_warning(warnings, name, error.as_str());
        },
    }
}

/// The changes of a client to the facts for conditional source text.
#[derive(Debug)]
pub struct RuntimeConditionalContextOverride {
    pub compiler_version: Option<CompilerVersion>,
    pub options: Option<StrMap<ConditionalFact>>,
    pub defines: Option<Vec<String>>,
    pub undefines: Option<Vec<String>>,
    pub constants: Option<StrMap<ConstantValue>>,
}

/// The changes of a client to the facts for conditional source text.
#[verifier::ext_equal]
pub struct ContextOverrideView {
    pub compiler_version: Option<CompilerVersion>,
    pub options: Option<Map<Seq<char>, ConditionalFact>>,
    pub defines: Option<Seq<Seq<char>>>,
    pub undefines: Option<Seq<Seq<char>>>,
    pub constants: Option<Map<Seq<char>, ConstantView>>,
}

impl View for RuntimeConditionalContextOverride {
    type V = ContextOverrideView;

    open spec fn view(&self) -> ContextOverrideView {
        ContextOverrideView {
            compiler_version: self.compiler_version,
            options: match self.options {
                Some(options) => Some(options@),
                None => None,
            },
            defines: optional_texts(self.defines),
            undefines: optional_texts(self.undefines),
            constants: match self.constants {
                Some(constants) => Some(constants.deep()),
                None => None,
            },
        }
    }
}

/// No changes to the facts.
pub open spec fn no_context_changes() -> ContextOverrideView {
    ContextOverrideView {
        compiler_version: None,
        options: None,
        defines: None,
        undefines: None,
        constants: None,
    }
}

/// The changes to the facts after an update.
pub open spec fn context_applied(before: ContextOverrideView, update: ContextUpdateView) -> ContextOverrideView {
    ContextOverrideView {
        compiler_version: changed_to(before.compiler_version, update.compiler_version),
        options: changed_to(before.options, update.options),
        defines: changed_to(before.defines, update.defines),
        undefines: changed_to(before.undefines, update.undefines),
        constants: changed_to(before.constants, update.constants),
    }
}

/// What a client is told of an update to the facts.
pub open spec fn context_warned(update: ContextUpdateView) -> Seq<Seq<char>> {
    warned("compilerVersion"@, update.compiler_version) + warned(
        "compilerOptions"@,
        update.options,
    ) + warned("conditionalDefines"@, update.defines) + warned(
        "conditionalUndefines"@,
        update.undefines,
    ) + warned("conditionalConstants"@, update.constants)
}

/// The facts after the changes.
pub open spec fn context_effective(changes: ContextOverrideView, base: ConditionalView) -> ConditionalView {
    let defined = match changes.defines {
        Some(names) => with_defines(
            without_fact(base.defines, ConditionalFact::True),
            names,
            ConditionalFact::True,
            names.len() as int,
        ),
        None => base.defines,
    };
    ConditionalView {
        compiler_version: match changes.compiler_version {
            Some(version) => Some(version),
            None => base.compiler_version,
        },
        options: match changes.options {
            Some(options) => options,
            None => base.options,
        },
        constants: match changes.constants {
            Some(constants) => constants,
            None => base.constants,
        },
        defines: match changes.undefines {
            Some(names) => with_defines(
                without_fact(defined, ConditionalFact::False),
                names,
                ConditionalFact::False,
                names.len() as int,
            ),
            None => defined,
        },
    }
}

impl RuntimeConditionalContextOverride {
    /// No changes.
    pub fn new() -> (r: Self)
        ensures
            r@ == no_context_changes(),
    {
        RuntimeConditionalContextOverride {
            compiler_version: None,
            options: None,
            defines: None,
            undefines: None,
            constants: None,
        }
    }

    /// Changes what the update asks for, field by field.
    pub fn apply(&mut self, update: RuntimeConditionalContextUpdate, warnings: &mut Vec<String>)
        ensures
            final(self)@ == context_applied(old(self)@, update@),
            texts(final(warnings)@) == texts(old(warnings)@) + context_warned(update@),
    {
        let ghost before = texts(warnings@);
        apply_runtime_optional_value(
            &mut self.compiler_version,
            update.compiler_version,
            "compilerVersion",
            warnings,
        );
        apply_runtime_optional_value(
            &mut self.options,
            update.options,
            "compilerOptions",
            warnings,
        );
        apply_runtime_optional_value(
            &mut self.defines,
            update.defines,
            "conditionalDefines",
            warnings,
        );
        apply_runtime_optional_value(
            &mut self.undefines,
            update.undefines,
            "conditionalUndefines",
            warnings,
        );
        apply_runtime_optional_value(
            &mut self.constants,
            update.constants,
            "conditionalConstants",
            warnings,
        );
        proof {
            assert(texts(warnings@) =~= before + context_warned(update@));
        }
    }

    /// The facts after the changes.
    pub fn effective(&self, base: &ConditionalContext) -> (r: ConditionalContext)
        ensures
            r@ == context_effective(self@, base@),
    {
        let mut context = base.copy();
        if let Some(version) = self.compiler_version {
            context.compiler_version = Some(version);
        }
        if let Some(options) = &self.options {
            context.options = copy_facts(options);
        }
        if let Some(constants) = &self.constants {
            context.constants = copy_constants(constants);
        }
        if let Some(defines) = &self.defines {
            context.replace_defines(defines, ConditionalFact::True);
        }
        if let Some(undefines) = &self.undefines {
            context.replace_defines(undefines, ConditionalFact::False);
        }
        context
    }
}

/// The changes of a client to the options.
#[derive(Debug)]
pub struct RuntimeOptionsOverride {
    pub source_paths: Option<Vec<String>>,
    pub exclude: Option<Vec<String>>,
    pub project_file: Option<Option<FilePath>>,
    pub build_config: Option<Option<String>>,
    pub platform: Option<Option<String>>,
    pub conditional_context: RuntimeConditionalContextOverride,
    pub max_files: Option<usize>,
    pub max_file_bytes: Option<usize>,
    pub max_total_bytes: Option<usize>,
}

/// The changes of a client to the options.
#[verifier::ext_equal]
pub struct OverrideView {
    pub source_paths: Option<Seq<Seq<char>>>,
    pub exclude: Option<Seq<Seq<char>>>,
    pub project_file: Option<Option<Parts>>,
    pub build_config: Option<Option<Seq<char>>>,
    pub platform: Option<Option<Seq<char>>>,
    pub conditional_context: ContextOverrideView,
    pub max_files: Option<usize>,
    pub max_file_bytes: Option<usize>,
    pub max_total_bytes: Option<usize>,
}

pub open spec fn optional_texts_of(text: Option<Option<String>>) -> Option<Option<Seq<char>>> {
    match text {
        Some(text) => Some(optional_text(text)),
        None => None,
    }
}

pub open spec fn optional_path_of(path: Option<Option<FilePath>>) -> Option<Option<Parts>> {
    match path {
        Some(path) => Some(optional_parts(path)),
        None => None,
    }
}

impl View for RuntimeOptionsOverride {
    type V = OverrideView;

    open spec fn view(&self) -> OverrideView {
        OverrideView {
            source_paths: optional_texts(self.source_paths),
            exclude: optional_texts(self.exclude),
            project_file: optional_path_of(self.project_file),
            build_config: optional_texts_of(self.build_config),
            platform: optional_texts_of(self.platform),
            conditional_context: self.conditional_context@,
            max_files: self.max_files,
            max_file_bytes: self.max_file_bytes,
            max_total_bytes: self.max_total_bytes,
        }
    }
}

/// No changes.
pub open spec fn no_changes() -> OverrideView {
    OverrideView {
        source_paths: None,
        exclude: None,
        project_file: None,
        build_config: None,
        platform: None,
        conditional_context: no_context_changes(),
        max_files: None,
        max_file_bytes: None,
        max_total_bytes: None,
    }
}

/// The changes after an update.
pub open spec fn applied(before: OverrideView, update: UpdateView) -> OverrideView {
    OverrideView {
        source_paths: changed_to(before.source_paths, update.source_paths),
        exclude: changed_to(before.exclude, update.exclude),
        project_file: optional_changed_to(before.project_file, update.project_file),
        build_config: optional_changed_to(before.build_config, update.build_config),
        platform: optional_changed_to(before.platform, update.platform),
        conditional_context: context_applied(
            before.conditional_context,
            update.conditional_context,
        ),
        max_files: changed_to(before.max_files, update.max_files),
        max_file_bytes: changed_to(before.max_file_bytes, update.max_file_bytes),
        max_total_bytes: changed_to(before.max_total_bytes, update.max_total_bytes),
    }
}

/// What a client is told of an update.
pub open spec fn update_warned(update: UpdateView) -> Seq<Seq<char>> {
    warned("sourcePaths"@, update.source_paths) + warned("exclude"@, update.exclude) + warned(
        "projectFile"@,
        update.project_file,
    ) + warned("buildConfig"@, update.build_config) + warned("platform"@, update.platform)
        + context_warned(update.conditional_context) + warned("maxFiles"@, update.max_files)
        + warned("maxFileBytes"@, update.max_file_bytes) + warned(
        "maxTotalBytes"@,
        update.max_total_bytes,
    )
}

/// A value where it is changed to one, and the usual one elsewhere.
pub open spec fn or_base<T>(changed: Option<T>, base: T) -> T {
    match changed {
        Some(value) => value,
        None => base,
    }
}

/// A value where it is changed to one, and the usual one elsewhere, also where it is
/// changed to nothing.
pub open spec fn or_optional_base<T>(changed: Option<Option<T>>, base: Option<T>) -> Option<T> {
    match changed {
        Some(Some(value)) => Some(value),
        _ => base,
    }
}

/// The options after the changes.
pub open spec fn effective_options(changes: OverrideView, base: WorkspaceOptionsView) -> WorkspaceOptionsView {
    WorkspaceOptionsView {
        source_paths: or_base(changes.source_paths, base.source_paths),
        exclude: or_base(changes.exclude, base.exclude),
        project_file: or_optional_base(changes.project_file, base.project_file),
        build_config: or_optional_base(changes.build_config, base.build_config),
        platform: or_optional_base(changes.platform, base.platform),
        conditional_context: context_effective(
            changes.conditional_context,
            base.conditional_context,
        ),
        limits: ResourceLimits {
            max_files: or_base(changes.max_files, base.limits.max_files),
            max_file_bytes: or_base(changes.max_file_bytes, base.limits.max_file_bytes),
            max_total_bytes: or_base(changes.max_total_bytes, base.limits.max_total_bytes),
        },
    }
}

fn list_or_base(changed: &Option<Vec<String>>, base: &Vec<String>) -> (r: Vec<String>)
    ensures
        texts(r@) == or_base(optional_texts(*changed), texts(base@)),
{
    match changed {
        Some(list) => copy_list(list),
        None => copy_list(base),
    }
}

fn text_or_base(changed: &Option<Option<String>>, base: &Option<String>) -> (r: Option<String>)
    ensures
        optional_text(r) == or_optional_base(optional_texts_of(*changed), optional_text(*base)),
{
    match changed {
        Some(Some(text)) => Some(text.clone()),
        _ => copy_optional_text(base),
    }
}

fn path_or_base(changed: &Option<Option<FilePath>>, base: &Option<FilePath>) -> (r: Option<
    FilePath,
>)
    ensures
        optional_parts(r) == or_optional_base(optional_path_of(*changed), optional_parts(*base)),
{
    match changed {
        Some(Some(path)) => Some(path.copy()),
        _ => copy_optional_path(base),
    }
}

fn number_or_base(changed: Option<usize>, base: usize) -> (r: usize)
    ensures
        r == or_base(changed, base),
{
    match changed {
        Some(value) => value,
        None => base,
    }
}

impl RuntimeOptionsOverride {
    /// No changes.
    pub fn new() -> (r: Self)
        ensures
            r@ == no_changes(),
    {
        RuntimeOptionsOverride {
            source_paths: None,
            exclude: None,
            project_file: None,
            build_config: None,
            platform: None,
            conditional_context: RuntimeConditionalContextOverride::new(),
            max_files: None,
            max_file_bytes: None,
            max_total_bytes: None,
        }
    }

    /// The options after the changes.
    pub fn effective(&self, base: &WorkspaceOptions) -> (r: WorkspaceOptions)
        ensures
            r@ == effective_options(self@, base@),
    {
        WorkspaceOptions {
            source_paths: list_or_base(&self.source_paths, &base.source_paths),
            exclude: list_or_base(&self.exclude, &base.exclude),
            project_file: path_or_base(&self.project_file, &base.project_file),
            build_config: text_or_base(&self.build_config, &base.build_config),
            platform: text_or_base(&self.platform, &base.platform),
            conditional_context: self.conditional_context.effective(&base.conditional_context),
            limits: ResourceLimits {
                max_files: number_or_base(self.max_files, base.limits.max_files),
                max_file_bytes: number_or_base(self.max_file_bytes, base.limits.max_file_bytes),
                max_total_bytes: number_or_base(
                    self.max_total_bytes,
                    base.limits.max_total_bytes,
                ),
            },
        }
    }

    /// Changes what the update asks for, field by field, and says which fields could not
    /// be used.
    pub fn apply(&mut self, update: RuntimeOptionsUpdate) -> (r: Vec<String>)
        ensures
            final(self)@ == applied(old(self)@, update@),
            texts(r@) == update_warned(update@),
    {
        let mut warnings: Vec<String> = Vec::new();
        let ghost before = self@;
        apply_runtime_field(
            &mut self.source_paths,
            update.source_paths,
            "sourcePaths",
            &mut warnings,
        );
        apply_runtime_field(&mut self.exclude, update.exclude, "exclude", &mut warnings);
        apply_runtime_optional_field(
            &mut self.project_file,
            update.project_file,
            "projectFile",
            &mut warnings,
        );
        apply_runtime_optional_field(
            &mut self.build_config,
            update.build_config,
            "buildConfig",
            &mut warnings,
        );
        apply_runtime_optional_field(
            &mut self.platform,
            update.platform,
            "platform",
            &mut warnings,
        );
        self.conditional_context.apply(update.conditional_context, &mut warnings);
        apply_runtime_field(&mut self.max_files, update.max_files, "maxFiles", &mut warnings);
        apply_runtime_field(
            &mut self.max_file_bytes,
            update.max_file_bytes,
            "maxFileBytes",
            &mut warnings,
        );
        apply_runtime_field(
            &mut self.max_total_bytes,
            update.max_total_bytes,
            "maxTotalBytes",
            &mut warnings,
        );
        proof {
            assert(texts(warnings@) =~= update_warned(update@));
            assert(self@ =~= applied(before, update@));
        }
        warnings
    }
}

/// An update that takes everything back gives the options that the workspace was started
/// with, whatever was changed before.
pub proof fn law_reset_restores_the_base(changes: OverrideView, base: WorkspaceOptionsView)
    ensures
        effective_options(applied(changes, update_reset()), base) == base,
        update_warned(update_reset()) == Seq::<Seq<char>>::empty(),
{
    assert(effective_options(applied(changes, update_reset()), base) =~= base);
    assert(update_warned(update_reset()) =~= Seq::<Seq<char>>::empty());
}

/// Of two updates where the second has no unusable setting, only the second counts.
pub proof fn law_a_usable_update_replaces_the_one_before(
    changes: OverrideView,
    first: UpdateView,
    second: UpdateView,
)
    requires
        update_warned(second) == Seq::<Seq<char>>::empty(),
    ensures
        applied(applied(changes, first), second) == applied(no_changes(), second),
{
    let c = second.conditional_context;
    let parts = seq![
        warned("sourcePaths"@, second.source_paths).len(),
        warned("exclude"@, second.exclude).len(),
        warned("projectFile"@, second.project_file).len(),
        warned("buildConfig"@, second.build_config).len(),
        warned("platform"@, second.platform).len(),
        context_warned(c).len(),
        warned("maxFiles"@, second.max_files).len(),
        warned("maxFileBytes"@, second.max_file_bytes).len(),
        warned("maxTotalBytes"@, second.max_total_bytes).len(),
    ];
    assert(update_warned(second).len() == 0);
    assert(update_warned(second).len() == parts[0] + parts[1] + parts[2] + parts[3] + parts[4]
        + parts[5] + parts[6] + parts[7] + parts[8]);
    assert(context_warned(c).len() == warned("compilerVersion"@, c.compiler_version).len() + warned(
        "compilerOptions"@,
        c.options,
    ).len() + warned("conditionalDefines"@, c.defines).len() + warned(
        "conditionalUndefines"@,
        c.undefines,
    ).len() + warned("conditionalConstants"@, c.constants).len());
}

/// A setting that cannot be used leaves its field as it was, whatever the other settings
/// of the same update do, and the client is told.
pub proof fn law_an_unusable_setting_leaves_its_field<T>(
    before: Option<T>,
    optional: Option<Option<T>>,
    name: Seq<char>,
    error: Seq<char>,
)
    ensures
        changed_to(before, OptionView::Invalid(error)) == before,
        optional_changed_to(optional, OptionView::Invalid(error)) == optional,
        warned(name, OptionView::<T>::Invalid(error)) == seq![
            "ignoring runtime "@ + name + ": "@ + error,
        ],
{
}

} // verus!
