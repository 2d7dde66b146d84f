//! Facts about the compiler that conditional source text depends on.

use vstd::prelude::*;

use crate::json::JsonValue;
use crate::strings::{
    chars_of, lower, same_str, string_from, to_lower, to_upper, trim, trim_spec, upper,
};
use crate::strmap::{lemma_deep_insert, lemma_take_set, StrMap};

verus! {

/// What is known of a condition.
#[derive(Clone, Copy, Debug, PartialEq, Eq, Structural)]
pub enum ConditionalFact {
    True,
    False,
    Unknown,
}

impl View for ConditionalFact {
    type V = ConditionalFact;

    open spec fn view(&self) -> ConditionalFact {
        *self
    }
}

/// A compiler's version.
#[derive(Clone, Copy, Debug, PartialEq, Eq, Structural)]
pub struct CompilerVersion {
    pub major: u32,
    pub minor: u32,
}

impl CompilerVersion {
    pub fn new(major: u32, minor: u32) -> (r: Self)
        ensures
            r == (CompilerVersion { major, minor }),
    {
        CompilerVersion { major, minor }
    }
}

/// The value of a constant that conditions may compare with.
#[derive(Debug, PartialEq)]
pub enum ConstantValue {
    Boolean(bool),
    Integer(i64),
    Text(String),
}

/// What the value of a constant stands for.
pub enum ConstantView {
    Boolean(bool),
    Integer(i64),
    Text(Seq<char>),
}

impl View for ConstantValue {
    type V = ConstantView;

    open spec fn view(&self) -> ConstantView {
        match self {
            ConstantValue::Boolean(b) => ConstantView::Boolean(*b),
            ConstantValue::Integer(i) => ConstantView::Integer(*i),
            ConstantValue::Text(s) => ConstantView::Text(s@),
        }
    }
}

impl ConstantValue {
    /// A value that stands for the same.
    pub fn copy(&self) -> (r: ConstantValue)
        ensures
            r@ == self@,
    {
        match self {
            ConstantValue::Boolean(b) => ConstantValue::Boolean(*b),
            ConstantValue::Integer(i) => ConstantValue::Integer(*i),
            ConstantValue::Text(s) => ConstantValue::Text(s.clone()),
        }
    }

    /// Whether both stand for the same.
    pub fn same(&self, other: &ConstantValue) -> (r: bool)
        ensures
            r == (self@ == other@),
    {
        match (self, other) {
            (ConstantValue::Boolean(a), ConstantValue::Boolean(b)) => *a == *b,
            (ConstantValue::Integer(a), ConstantValue::Integer(b)) => *a == *b,
            (ConstantValue::Text(a), ConstantValue::Text(b)) => same_str(a.as_str(), b.as_str()),
            _ => false,
        }
    }
}

/// A name without white space around it and without the mark of an escaped identifier.
pub open spec fn bare_name(name: Seq<char>) -> Seq<char> {
    let trimmed = trim_spec(name);
    if trimmed.len() > 0 && trimmed[0] == '&' {
        trimmed.drop_first()
    } else {
        trimmed
    }
}

/// The form of a name in which differences of case are gone.
pub open spec fn conditional_name(name: Seq<char>) -> Seq<char> {
    upper(bare_name(name))
}

fn to_bare_name(name: &str) -> (r: String)
    ensures
        r@ == bare_name(name@),
{
    let trimmed = trim(name);
    let chars = chars_of(trimmed.as_str());
    let length: usize = chars.len();
    if length > 0 && chars[0] == '&' {
        let r = string_from(&chars, 1, length);
        proof {
            assert(chars@.subrange(1, length as int) =~= chars@.drop_first());
        }
        r
    } else {
        trimmed
    }
}

/// The form of a name in which differences of case are gone.
pub fn to_conditional_name(name: &str) -> (r: String)
    ensures
        r@ == conditional_name(name@),
{
    to_upper(to_bare_name(name).as_str())
}

/// What is wrong with a name.
#[derive(Clone, Copy, Debug, PartialEq, Eq, Structural)]
pub enum NameProblem {
    Empty,
    Start,
    Characters,
}

impl NameProblem {
    pub open spec fn text(&self) -> Seq<char> {
        match self {
            NameProblem::Empty => "must not be empty"@,
            NameProblem::Start => "must start with an ASCII letter or underscore"@,
            NameProblem::Characters => "contains unsupported characters"@,
        }
    }

    /// How the problem reads.
    pub fn message(&self) -> (r: &'static str)
        ensures
            r@ == self.text(),
    {
        match self {
            NameProblem::Empty => "must not be empty",
            NameProblem::Start => "must start with an ASCII letter or underscore",
            NameProblem::Characters => "contains unsupported characters",
        }
    }
}

pub open spec fn ascii_letter(c: char) -> bool {
    'a' <= c <= 'z' || 'A' <= c <= 'Z'
}

pub open spec fn name_start(c: char) -> bool {
    ascii_letter(c) || c == '_'
}

pub open spec fn name_part(c: char) -> bool {
    ascii_letter(c) || '0' <= c <= '9' || c == '_' || c == '.'
}

/// What is wrong with a name, if something is.
pub open spec fn name_problem(name: Seq<char>) -> Option<NameProblem> {
    let bare = bare_name(name);
    if bare.len() == 0 {
        Some(NameProblem::Empty)
    } else if !name_start(bare[0]) {
        Some(NameProblem::Start)
    } else if exists|i: int| 1 <= i < bare.len() && !name_part(#[trigger] bare[i]) {
        Some(NameProblem::Characters)
    } else {
        None
    }
}

/// Whether a name can be that of a condition.
pub fn validate_runtime_conditional_name(name: &str) -> (r: Result<(), NameProblem>)
    ensures
        match r {
            Ok(_) => name_problem(name@) is None,
            Err(problem) => name_problem(name@) == Some(problem),
        },
{
    let bare = to_bare_name(name);
    let chars = chars_of(bare.as_str());
    if chars.len() == 0 {
        return Err(NameProblem::Empty);
    }
    let first = chars[0];
    if !(('a' <= first && first <= 'z') || ('A' <= first && first <= 'Z') || first == '_') {
        return Err(NameProblem::Start);
    }
    let mut i: usize = 1;
    while i < chars.len()
        invariant
            chars@ == bare_name(name@),
            1 <= i <= chars@.len(),
            name_start(chars@[0]),
            forall|j: int| 1 <= j < i ==> name_part(#[trigger] chars@[j]),
        decreases chars@.len() - i,
    {
        let c = chars[i];
        if !(('a' <= c && c <= 'z') || ('A' <= c && c <= 'Z') || ('0' <= c && c <= '9') || c == '_'
            || c == '.') {
            proof {
                assert(!name_part(chars@[i as int]));
            }
            return Err(NameProblem::Characters);
        }
        i += 1;
    }
    Ok(())
}

/// The fact that a setting states, if it states one.
pub open spec fn fact_of(value: JsonValue) -> Option<ConditionalFact> {
    match value {
        JsonValue::Null => Some(ConditionalFact::Unknown),
        JsonValue::Bool(value) => Some(
            if value {
                ConditionalFact::True
            } else {
                ConditionalFact::False
            },
        ),
        JsonValue::Text(text) => {
            let word = lower(trim_spec(text@));
            if word == "on"@ || word == "true"@ || word == "yes"@ || word == "+"@ || word == "1"@ {
                Some(ConditionalFact::True)
            } else if word == "off"@ || word == "false"@ || word == "no"@ || word == "-"@ || word
                == "0"@ {
                Some(ConditionalFact::False)
            } else if word == "unknown"@ {
                Some(ConditionalFact::Unknown)
            } else {
                None
            }
        },
        _ => None,
    }
}

/// The fact that a setting states, if it states one.
pub fn parse_conditional_fact_value(value: &JsonValue) -> (r: Option<ConditionalFact>)
    ensures
        r == fact_of(*value),
{
    match value {
        JsonValue::Null => Some(ConditionalFact::Unknown),
        JsonValue::Bool(value) => {
            if *value {
                Some(ConditionalFact::True)
            } else {
                Some(ConditionalFact::False)
            }
        },
        JsonValue::Text(text) => {
            let word = to_lower(trim(text.as_str()).as_str());
            let w = word.as_str();
            if same_str(w, "on") || same_str(w, "true") || same_str(w, "yes") || same_str(w, "+")
                || same_str(w, "1") {
                Some(ConditionalFact::True)
            } else if same_str(w, "off") || same_str(w, "false") || same_str(w, "no") || same_str(
                w,
                "-",
            ) || same_str(w, "0") {
                Some(ConditionalFact::False)
            } else if same_str(w, "unknown") {
                Some(ConditionalFact::Unknown)
            } else {
                None
            }
        },
        _ => None,
    }
}

/// Names of compiler options: each long name with the name it stands for, both in the
/// form without differences of case.
pub open spec fn alias_pairs(aliases: Seq<(String, String)>) -> Seq<(Seq<char>, Seq<char>)> {
    aliases.map_values(|a: (String, String)| (a.0@, a.1@))
}

/// What the first alias `name` from `i` on stands for; the name itself where there is none.
pub open spec fn alias_target(
    aliases: Seq<(Seq<char>, Seq<char>)>,
    name: Seq<char>,
    i: int,
) -> Seq<char>
    decreases aliases.len() - i,
{
    if i < 0 || i >= aliases.len() {
        name
    } else if aliases[i].0 == name {
        aliases[i].1
    } else {
        alias_target(aliases, name, i + 1)
    }
}

/// The name under which an option is kept.
pub open spec fn option_name(aliases: Seq<(Seq<char>, Seq<char>)>, name: Seq<char>) -> Seq<char> {
    alias_target(aliases, conditional_name(name), 0)
}

/// The name under which an option is kept.
pub fn to_option_name(aliases: &Vec<(String, String)>, name: &str) -> (r: String)
    ensures
        r@ == option_name(alias_pairs(aliases@), name@),
{
    let plain = to_conditional_name(name);
    let mut i: usize = 0;
    while i < aliases.len()
        invariant
            i <= aliases@.len(),
            plain@ == conditional_name(name@),
            option_name(alias_pairs(aliases@), name@) == alias_target(
                alias_pairs(aliases@),
                plain@,
                i as int,
            ),
        decreases aliases@.len() - i,
    {
        if same_str(aliases[i].0.as_str(), plain.as_str()) {
            return aliases[i].1.clone();
        }
        i += 1;
    }
    plain
}

/// The facts that conditional source text is read with. What is not stated is unknown.
#[derive(Debug)]
pub struct ConditionalContext {
    pub compiler_version: Option<CompilerVersion>,
    pub options: StrMap<ConditionalFact>,
    pub defines: StrMap<ConditionalFact>,
    pub constants: StrMap<ConstantValue>,
}

/// What the facts stand for.
#[verifier::ext_equal]
pub struct ConditionalView {
    pub compiler_version: Option<CompilerVersion>,
    pub options: Map<Seq<char>, ConditionalFact>,
    pub defines: Map<Seq<char>, ConditionalFact>,
    pub constants: Map<Seq<char>, ConstantView>,
}

impl View for ConditionalContext {
    type V = ConditionalView;

    open spec fn view(&self) -> ConditionalView {
        ConditionalView {
            compiler_version: self.compiler_version,
            options: self.options@,
            defines: self.defines@,
            constants: self.constants.deep(),
        }
    }
}

/// No facts.
pub open spec fn no_facts() -> ConditionalView {
    ConditionalView {
        compiler_version: None,
        options: Map::empty(),
        defines: Map::empty(),
        constants: Map::empty(),
    }
}

/// Options with one more: an option that is stated twice with different facts is
/// unknown.
pub open spec fn with_option(
    options: Map<Seq<char>, ConditionalFact>,
    name: Seq<char>,
    fact: ConditionalFact,
) -> Map<Seq<char>, ConditionalFact> {
    if options.contains_key(name) && options[name] != fact {
        options.insert(name, ConditionalFact::Unknown)
    } else {
        options.insert(name, fact)
    }
}

/// Defines without those that have the fact.
pub open spec fn without_fact(
    defines: Map<Seq<char>, ConditionalFact>,
    fact: ConditionalFact,
) -> Map<Seq<char>, ConditionalFact> {
    defines.remove_keys(
        defines.dom().filter(|name: Seq<char>| defines[name] == fact),
    )
}

/// Defines with the fact for each of the first `n` names.
pub open spec fn with_defines(
    defines: Map<Seq<char>, ConditionalFact>,
    names: Seq<Seq<char>>,
    fact: ConditionalFact,
    n: int,
) -> Map<Seq<char>, ConditionalFact>
    decreases n,
{
    if n <= 0 {
        defines
    } else {
        with_defines(defines, names, fact, n - 1).insert(conditional_name(names[n - 1]), fact)
    }
}

/// A copy of a map of facts.
pub fn copy_facts(map: &StrMap<ConditionalFact>) -> (r: StrMap<ConditionalFact>)
    ensures
        r@ == map@,
{
    let n = map.len();
    let ghost keys = map.keys();
    let mut r: StrMap<ConditionalFact> = StrMap::new();
    let mut i: usize = 0;
    proof {
        assert(map@.restrict(keys.take(0).to_set()) =~= r@);
    }
    while i < n
        invariant
            keys == map.keys(),
            n == keys.len(),
            i <= n,
            map@.dom() == keys.to_set(),
            r@ == map@.restrict(keys.take(i as int).to_set()),
        decreases n - i,
    {
        let _none = r.insert(map.key_at(i).clone(), *map.value_at(i));
        proof {
            lemma_take_set(keys, i as int);
            assert(r@ =~= map@.restrict(keys.take(i + 1).to_set()));
        }
        i += 1;
    }
    proof {
        assert(keys.take(n as int) =~= keys);
        assert(map@.restrict(keys.to_set()) =~= map@);
    }
    r
}

/// A copy of a map of constants.
pub fn copy_constants(map: &StrMap<ConstantValue>) -> (r: StrMap<ConstantValue>)
    ensures
        r.deep() == map.deep(),
{
    let n = map.len();
    let ghost keys = map.keys();
    let mut r: StrMap<ConstantValue> = StrMap::new();
    let mut i: usize = 0;
    proof {
        assert(map.deep().restrict(keys.take(0).to_set()) =~= r.deep());
    }
    while i < n
        invariant
            keys == map.keys(),
            n == keys.len(),
            i <= n,
            map@.dom() == keys.to_set(),
            r.deep() == map.deep().restrict(keys.take(i as int).to_set()),
        decreases n - i,
    {
        let value = map.value_at(i).copy();
        let ghost view = value@;
        let ghost held = r@;
        proof {
            lemma_deep_insert(held, keys[i as int], value);
        }
        let _none = r.insert(map.key_at(i).clone(), value);
        proof {
            lemma_take_set(keys, i as int);
            assert(r.deep() =~= map.deep().restrict(keys.take(i + 1).to_set()));
        }
        i += 1;
    }
    proof {
        assert(keys.take(n as int) =~= keys);
        assert(map.deep().restrict(keys.to_set()) =~= map.deep());
    }
    r
}

/// Whether two maps of facts are the same.
pub fn same_facts(a: &StrMap<ConditionalFact>, b: &StrMap<ConditionalFact>) -> (r: bool)
    ensures
        r == (a@ == b@),
{
    let n = a.len();
    if n != b.len() {
        return false;
    }
    let ghost keys = a.keys();
    let mut i: usize = 0;
    while i < n
        invariant
            keys == a.keys(),
            n == keys.len(),
            i <= n,
            a@.dom().len() == b@.dom().len(),
            forall|j: int|
                0 <= j < i ==> b@.contains_key(#[trigger] keys[j]) && b@[keys[j]] == a@[keys[j]],
        decreases n - i,
    {
        match b.get(a.key_at(i).as_str()) {
            Some(fact) => {
                if *fact != *a.value_at(i) {
                    return false;
                }
            },
            None => {
                return false;
            },
        }
        i += 1;
    }
    proof {
        assert forall|k: Seq<char>| a@.contains_key(k) implies b@.contains_key(k) && a@[k]
            == b@[k] by {
            assert(keys.contains(k));
            let j = choose|j: int| 0 <= j < keys.len() && keys[j] == k;
        }
        assert(a@.dom().subset_of(b@.dom()));
        vstd::set_lib::lemma_subset_equality(a@.dom(), b@.dom());
        assert(a@ =~= b@);
    }
    true
}

/// Whether two maps of constants are the same.
pub fn same_constants(a: &StrMap<ConstantValue>, b: &StrMap<ConstantValue>) -> (r: bool)
    ensures
        r == (a.deep() == b.deep()),
{
    let n = a.len();
    proof {
        assert(a.deep().dom() =~= a@.dom());
        assert(b.deep().dom() =~= b@.dom());
    }
    if n != b.len() {
        return false;
    }
    let ghost keys = a.keys();
    let mut i: usize = 0;
    while i < n
        invariant
            keys == a.keys(),
            n == keys.len(),
            i <= n,
            a@.dom().len() == b@.dom().len(),
            forall|j: int|
                0 <= j < i ==> b.deep().contains_key(#[trigger] keys[j]) && b.deep()[keys[j]]
                    == a.deep()[keys[j]],
        decreases n - i,
    {
        match b.get(a.key_at(i).as_str()) {
            Some(value) => {
                if !value.same(a.value_at(i)) {
                    proof {
                        assert(a.deep()[keys[i as int]] != b.deep()[keys[i as int]]);
                    }
                    return false;
                }
            },
            None => {
                proof {
                    assert(a.deep().contains_key(keys[i as int]));
                    assert(!b.deep().contains_key(keys[i as int]));
                }
                return false;
            },
        }
        i += 1;
    }
    proof {
        assert forall|k: Seq<char>| a.deep().contains_key(k) implies b.deep().contains_key(k)
            && a.deep()[k] == b.deep()[k] by {
            assert(keys.contains(k));
            let j = choose|j: int| 0 <= j < keys.len() && keys[j] == k;
        }
        assert(a@.dom().subset_of(b@.dom())) by {
            assert forall|k: Seq<char>| a@.dom().contains(k) implies b@.dom().contains(k) by {
                assert(a.deep().contains_key(k));
            }
        }
        vstd::set_lib::lemma_subset_equality(a@.dom(), b@.dom());
        assert(a.deep() =~= b.deep());
    }
    true
}

impl ConditionalContext {
    /// No facts.
    pub fn new() -> (r: Self)
        ensures
            r@ == no_facts(),
    {
        let r = ConditionalContext {
            compiler_version: None,
            options: StrMap::new(),
            defines: StrMap::new(),
            constants: StrMap::new(),
        };
        proof {
            assert(r@.constants =~= Map::empty());
        }
        r
    }

    /// The same facts.
    pub fn copy(&self) -> (r: Self)
        ensures
            r@ == self@,
    {
        ConditionalContext {
            compiler_version: self.compiler_version,
            options: copy_facts(&self.options),
            defines: copy_facts(&self.defines),
            constants: copy_constants(&self.constants),
        }
    }

    /// Whether the facts are the same.
    pub fn same(&self, other: &Self) -> (r: bool)
        ensures
            r == (self@ == other@),
    {
        self.compiler_version == other.compiler_version && same_facts(&self.options, &other.options)
            && same_facts(&self.defines, &other.defines) && same_constants(
            &self.constants,
            &other.constants,
        )
    }

    /// States an option.
    pub fn set_option(&mut self, aliases: &Vec<(String, String)>, name: &str, fact: ConditionalFact)
        ensures
            final(self)@ == (ConditionalView {
                options: with_option(
                    old(self)@.options,
                    option_name(alias_pairs(aliases@), name@),
                    fact,
                ),
                ..old(self)@
            }),
    {
        let key = to_option_name(aliases, name);
        let stated = match self.options.get(key.as_str()) {
            Some(previous) => {
                if *previous != fact {
                    ConditionalFact::Unknown
                } else {
                    fact
                }
            },
            None => fact,
        };
        let _previous = self.options.insert(key, stated);
    }

    /// States a define.
    pub fn set_define(&mut self, name: &str, fact: ConditionalFact)
        ensures
            final(self)@ == (ConditionalView {
                defines: old(self)@.defines.insert(conditional_name(name@), fact),
                ..old(self)@
            }),
    {
        let _previous = self.defines.insert(to_conditional_name(name), fact);
    }

    /// States the value of a constant.
    pub fn set_constant(&mut self, name: &str, value: ConstantValue)
        ensures
            final(self)@ == (ConditionalView {
                constants: old(self)@.constants.insert(conditional_name(name@), value@),
                ..old(self)@
            }),
    {
        proof {
            lemma_deep_insert(self.constants@, conditional_name(name@), value);
        }
        let _previous = self.constants.insert(to_conditional_name(name), value);
    }

    /// What is known of an option.
    pub fn option(&self, aliases: &Vec<(String, String)>, name: &str) -> (r: ConditionalFact)
        ensures
            ({
                let key = option_name(alias_pairs(aliases@), name@);
                r == (if self@.options.contains_key(key) {
                    self@.options[key]
                } else {
                    ConditionalFact::Unknown
                })
            }),
    {
        match self.options.get(to_option_name(aliases, name).as_str()) {
            Some(fact) => *fact,
            None => ConditionalFact::Unknown,
        }
    }

    /// Forgets the defines that have the fact.
    fn drop_defines(&mut self, fact: ConditionalFact)
        ensures
            final(self)@ == (ConditionalView {
                defines: without_fact(old(self)@.defines, fact),
                ..old(self)@
            }),
    {
        let n = self.defines.len();
        let ghost before = self.defines@;
        let ghost keys = self.defines.keys();
        let mut kept: StrMap<ConditionalFact> = StrMap::new();
        let mut i: usize = 0;
        let ghost want = without_fact(before, fact);
        proof {
            assert(kept@ =~= want.restrict(keys.take(0).to_set()));
        }
        while i < n
            invariant
                before == self.defines@,
                keys == self.defines.keys(),
                n == keys.len(),
                i <= n,
                want == without_fact(before, fact),
                kept@ == want.restrict(keys.take(i as int).to_set()),
            decreases n - i,
        {
            let value = *self.defines.value_at(i);
            let ghost k = keys[i as int];
            proof {
                lemma_take_set(keys, i as int);
                assert(before.contains_key(k));
                assert(want.contains_key(k) == (before[k] != fact));
            }
            if value != fact {
                let _none = kept.insert(self.defines.key_at(i).clone(), value);
            }
            proof {
                assert(kept@ =~= want.restrict(keys.take(i + 1).to_set()));
            }
            i += 1;
        }
        proof {
            assert(keys.take(n as int) =~= keys);
            assert(want.restrict(keys.to_set()) =~= want) by {
                assert forall|k: Seq<char>| want.contains_key(k) implies keys.to_set().contains(
                    k,
                ) by {
                    assert(before.contains_key(k));
                    assert(keys.contains(k));
                }
            }
        }
        self.defines = kept;
    }

    /// Replaces the defines that have the fact by those of a list.
    pub fn replace_defines(&mut self, names: &Vec<String>, fact: ConditionalFact)
        ensures
            final(self)@ == (ConditionalView {
                defines: with_defines(
                    without_fact(old(self)@.defines, fact),
                    crate::strings::texts(names@),
                    fact,
                    names@.len() as int,
                ),
                ..old(self)@
            }),
    {
        let ghost before = self@;
        self.drop_defines(fact);
        let ghost base = without_fact(before.defines, fact);
        let mut i: usize = 0;
        while i < names.len()
            invariant
                i <= names@.len(),
                self@ == (ConditionalView {
                    defines: with_defines(
                        base,
                        crate::strings::texts(names@),
                        fact,
                        i as int,
                    ),
                    ..before
                }),
            decreases names@.len() - i,
        {
            proof {
                assert(crate::strings::texts(names@)[i as int] == names@[i as int]@);
            }
            self.set_define(names[i].as_str(), fact);
            i += 1;
        }
    }
}

} // verus!
