//! The rules file: which features are enabled, and which keys are replaced
//! by which values.
//!
//! A rule may take its value from a shell command. The parser runs nothing:
//! `Config::shell_command` says which command a line asks for, and the caller
//! hands the command's output to the parser.

use crate::text::{
    chars_match_at, find_char_in, lemma_position, lemma_position_is, matches_at, position, str_eq,
    to_chars, trim, trim_str,
};
use vstd::prelude::*;
use vstd::seq_lib::seq_to_set_is_finite;

verus! {

/// What one line of a rules file declares.
#[derive(Debug, PartialEq, Eq)]
pub enum ConfigValue {
    /// The feature of this name is enabled.
    Feature(String),
    /// `key` is replaced by `value`.
    Substitution { key: String, value: String },
}

/// A `ConfigValue` as text.
pub enum ConfigValueView {
    Feature(Seq<char>),
    Substitution { key: Seq<char>, value: Seq<char> },
}

impl View for ConfigValue {
    type V = ConfigValueView;

    open spec fn view(&self) -> ConfigValueView {
        match self {
            ConfigValue::Feature(name) => ConfigValueView::Feature(name@),
            ConfigValue::Substitution { key, value } => ConfigValueView::Substitution {
                key: key@,
                value: value@,
            },
        }
    }
}

/// Why a rules file could not be parsed.
#[derive(PartialEq, Eq, Structural, Debug, Clone, Copy)]
pub enum ParseError {
    /// A rule asks for the output of a shell command, and there is none.
    ShellExecution,
}

impl ParseError {
    /// The error in words.
    pub fn message(&self) -> (text: String)
        ensures
            text@ == "a shell command gave no output"@,
    {
        match self {
            ParseError::ShellExecution => "a shell command gave no output".to_owned(),
        }
    }
}

/// How a line of a rules file reads, before any command has run.
pub enum Rule {
    /// A blank line or a comment.
    Skip,
    Feature(Seq<char>),
    Substitution { key: Seq<char>, value: Seq<char> },
    /// A substitution whose value is the output of `command`.
    Shell { key: Seq<char>, command: Seq<char> },
}

/// What a value begins with when the rest of it is a shell command.
pub open spec fn shell_prefix() -> Seq<char> {
    "SHELL "@
}

/// How `line` reads. The line is trimmed; an empty line and one that begins
/// with `#` say nothing; a line without `=` names a feature; otherwise the
/// first `=` parts the key from the value. The key is what stands before
/// it, trimmed; the value is what stands after it, as it stands.
pub open spec fn parse_rule(line: Seq<char>) -> Rule {
    let t = trim(line);
    let eq = position(t, '=') as int;
    if t.len() == 0 || t[0] == '#' {
        Rule::Skip
    } else if eq == t.len() {
        Rule::Feature(t)
    } else if matches_at(t, shell_prefix(), eq + 1) {
        Rule::Shell { key: trim(t.take(eq)), command: t.skip(eq + 1 + shell_prefix().len()) }
    } else {
        Rule::Substitution { key: trim(t.take(eq)), value: t.skip(eq + 1) }
    }
}

/// The command whose output `line` asks for, if it asks for one.
pub open spec fn shell_command(line: Seq<char>) -> Option<Seq<char>> {
    match parse_rule(line) {
        Rule::Shell { key, command } => Some(command),
        _ => None,
    }
}

/// What `line` declares, given the output of the command it asks for.
/// The output is trimmed. A line that asks for a command and gets no output
/// is an error; on any other line the output is not looked at.
pub open spec fn parse_line(line: Seq<char>, output: Option<Seq<char>>) -> Result<
    Option<ConfigValueView>,
    ParseError,
> {
    match parse_rule(line) {
        Rule::Skip => Ok(None),
        Rule::Feature(name) => Ok(Some(ConfigValueView::Feature(name))),
        Rule::Substitution { key, value } => Ok(
            Some(ConfigValueView::Substitution { key, value }),
        ),
        Rule::Shell { key, command } => match output {
            Some(text) => Ok(Some(ConfigValueView::Substitution { key, value: trim(text) })),
            None => Err(ParseError::ShellExecution),
        },
    }
}

/// How a line reads: a `Rule` with its texts.
enum Parsed {
    Skip,
    Feature(String),
    Substitution { key: String, value: String },
    Shell { key: String, command: String },
}

impl View for Parsed {
    type V = Rule;

    closed spec fn view(&self) -> Rule {
        match self {
            Parsed::Skip => Rule::Skip,
            Parsed::Feature(name) => Rule::Feature(name@),
            Parsed::Substitution { key, value } => Rule::Substitution { key: key@, value: value@ },
            Parsed::Shell { key, command } => Rule::Shell { key: key@, command: command@ },
        }
    }
}

/// How `line` reads.
fn classify(line: &str) -> (parsed: Parsed)
    ensures
        parsed@ == parse_rule(line@),
{
    let trimmed = trim_str(line);
    let chars = to_chars(trimmed);
    let n = chars.len();
    if n == 0 || chars[0] == '#' {
        return Parsed::Skip;
    }
    let eq = find_char_in(&chars, '=');
    if eq == n {
        return Parsed::Feature(trimmed.to_owned());
    }
    let key = trim_str(trimmed.substring_char(0, eq)).to_owned();
    let prefix = to_chars("SHELL ");
    proof {
        reveal_strlit("SHELL ");
    }
    if chars_match_at(&chars, &prefix, eq + 1) {
        Parsed::Shell { key, command: trimmed.substring_char(eq + 1 + prefix.len(), n).to_owned() }
    } else {
        Parsed::Substitution { key, value: trimmed.substring_char(eq + 1, n).to_owned() }
    }
}

/// The keys of `substitutions`, in order.
pub open spec fn keys_of(substitutions: Seq<(Seq<char>, Seq<char>)>) -> Seq<Seq<char>> {
    substitutions.map_values(|s: (Seq<char>, Seq<char>)| s.0)
}

/// A configuration as text: the enabled features, and the substitutions
/// in the order in which their keys were first declared.
pub struct ConfigView {
    pub features: Set<Seq<char>>,
    pub substitutions: Seq<(Seq<char>, Seq<char>)>,
}

impl ConfigView {
    /// The configuration that declares nothing.
    pub open spec fn empty() -> ConfigView {
        ConfigView { features: Set::empty(), substitutions: Seq::empty() }
    }

    /// The keys of the substitutions, in order.
    pub open spec fn keys(self) -> Seq<Seq<char>> {
        keys_of(self.substitutions)
    }

    /// Whether `name` is an enabled feature.
    pub open spec fn is_enabled(self, name: Seq<char>) -> bool {
        self.features.contains(name)
    }

    /// The value that `key` is replaced by, if it has a substitution.
    pub open spec fn value(self, key: Seq<char>) -> Option<Seq<char>> {
        let at = position(self.keys(), key) as int;
        if at < self.substitutions.len() {
            Some(self.substitutions[at].1)
        } else {
            None
        }
    }

    /// The configuration with `value` declared too. A feature joins the
    /// set. A substitution whose key is new goes to the end; one whose key
    /// was declared before takes the place and overwrites the value.
    pub open spec fn declare(self, value: ConfigValueView) -> ConfigView {
        match value {
            ConfigValueView::Feature(name) => ConfigView {
                features: self.features.insert(name),
                substitutions: self.substitutions,
            },
            ConfigValueView::Substitution { key, value } => {
                let at = position(self.keys(), key) as int;
                ConfigView {
                    features: self.features,
                    substitutions: if at < self.substitutions.len() {
                        self.substitutions.update(at, (key, value))
                    } else {
                        self.substitutions.push((key, value))
                    },
                }
            },
        }
    }

    /// No key has two substitutions, and the features are finitely many.
    pub open spec fn well_formed(self) -> bool {
        &&& self.features.finite()
        &&& self.keys().no_duplicates()
    }
}

/// The output that goes with line `i`: `outputs[i]`, or none where
/// `outputs` is too short.
pub open spec fn output_at(outputs: Seq<Option<Seq<char>>>, i: int) -> Option<Seq<char>> {
    if 0 <= i < outputs.len() {
        outputs[i]
    } else {
        None
    }
}

/// The configuration that `lines` declare, line by line from the first,
/// where `outputs[i]` is the output of the command that `lines[i]` asks
/// for. The first line that cannot be parsed gives the error.
pub open spec fn parse_rules(lines: Seq<Seq<char>>, outputs: Seq<Option<Seq<char>>>) -> Result<
    ConfigView,
    ParseError,
>
    decreases lines.len(),
{
    if lines.len() == 0 {
        Ok(ConfigView::empty())
    } else {
        match parse_rules(lines.drop_last(), outputs) {
            Err(e) => Err(e),
            Ok(config) => match parse_line(lines.last(), output_at(outputs, lines.len() - 1)) {
                Err(e) => Err(e),
                Ok(None) => Ok(config),
                Ok(Some(value)) => Ok(config.declare(value)),
            },
        }
    }
}

/// Whether every line that asks for a shell command has an output.
pub open spec fn outputs_suffice(lines: Seq<Seq<char>>, outputs: Seq<Option<Seq<char>>>) -> bool {
    forall|i: int|
        0 <= i < lines.len() && shell_command(#[trigger] lines[i]) is Some ==> output_at(
            outputs,
            i,
        ) is Some
}

/// A rules file parses if and only if every line that asks for a shell
/// command has an output.
pub proof fn lemma_parse_rules_succeeds(lines: Seq<Seq<char>>, outputs: Seq<Option<Seq<char>>>)
    ensures
        parse_rules(lines, outputs) is Ok <==> outputs_suffice(lines, outputs),
    decreases lines.len(),
{
    if lines.len() > 0 {
        let before = lines.drop_last();
        let last = lines.len() - 1;
        lemma_parse_rules_succeeds(before, outputs);
        if outputs_suffice(lines, outputs) {
            assert forall|i: int|
                0 <= i < before.len() && shell_command(#[trigger] before[i]) is Some implies output_at(
                outputs,
                i,
            ) is Some by {
                assert(before[i] == lines[i]);
            }
            assert(shell_command(lines[last]) is Some ==> output_at(outputs, last) is Some);
        } else {
            let i = choose|i: int|
                0 <= i < lines.len() && shell_command(#[trigger] lines[i]) is Some && output_at(
                    outputs,
                    i,
                ) is None;
            if i < last {
                assert(before[i] == lines[i]);
            }
        }
    }
}

/// Parsing is a function of the text alone where no line asks for a shell
/// command: such lines always parse, and to the same configuration whatever
/// outputs stand beside them. Two runs of `Config::new` on them give equal
/// configurations.
pub proof fn lemma_parse_rules_deterministic(
    lines: Seq<Seq<char>>,
    first: Seq<Option<Seq<char>>>,
    second: Seq<Option<Seq<char>>>,
)
    requires
        forall|i: int| 0 <= i < lines.len() ==> shell_command(#[trigger] lines[i]) is None,
    ensures
        parse_rules(lines, first) is Ok,
        parse_rules(lines, first) == parse_rules(lines, second),
    decreases lines.len(),
{
    if lines.len() > 0 {
        let before = lines.drop_last();
        assert forall|i: int| 0 <= i < before.len() implies shell_command(
            #[trigger] before[i],
        ) is None by {
            assert(before[i] == lines[i]);
        }
        lemma_parse_rules_deterministic(before, first, second);
        assert(shell_command(lines[lines.len() - 1]) is None);
    }
}

/// Features make a set: a declared feature is enabled, every other
/// feature is enabled as before, and the substitutions stay as they are.
/// Declaring a feature again changes nothing.
pub proof fn lemma_declare_feature(config: ConfigView, name: Seq<char>, other: Seq<char>)
    ensures
        config.declare(ConfigValueView::Feature(name)).is_enabled(other) <==> other == name
            || config.is_enabled(other),
        config.declare(ConfigValueView::Feature(name)).substitutions == config.substitutions,
        config.declare(ConfigValueView::Feature(name)).declare(ConfigValueView::Feature(name))
            == config.declare(ConfigValueView::Feature(name)),
{
    let once = config.declare(ConfigValueView::Feature(name));
    assert(once.features.insert(name) =~= once.features);
}

/// Substitutions make a map: a declared key has the declared value,
/// whatever it had before, and every other key has what it had.
pub proof fn lemma_declare_substitution(
    config: ConfigView,
    key: Seq<char>,
    value: Seq<char>,
    other: Seq<char>,
)
    ensures
        config.declare(ConfigValueView::Substitution { key, value }).value(key) == Some(value),
        other != key ==> config.declare(ConfigValueView::Substitution { key, value }).value(other)
            == config.value(other),
        config.declare(ConfigValueView::Substitution { key, value }).features == config.features,
{
    let after = config.declare(ConfigValueView::Substitution { key, value });
    let at = position(config.keys(), key) as int;
    lemma_position(config.keys(), key);
    if at < config.substitutions.len() {
        assert(after.keys() =~= config.keys());
        if other != key {
            let there = position(config.keys(), other) as int;
            lemma_position(config.keys(), other);
            if there < config.keys().len() {
                assert(config.keys()[there] == other && config.keys()[at] == key);
            }
        }
    } else {
        assert(after.keys() =~= config.keys().push(key));
        lemma_position_is(after.keys(), key, at);
        if other != key {
            let there = position(config.keys(), other) as int;
            lemma_position(config.keys(), other);
            assert forall|i: int| 0 <= i < there implies after.keys()[i] != other by {
                assert(after.keys()[i] == config.keys()[i]);
            }
            if there < config.keys().len() {
                assert(after.keys()[there] == config.keys()[there]);
                lemma_position_is(after.keys(), other, there);
            } else {
                lemma_position_is(after.keys(), other, there + 1);
            }
        }
    }
}

/// Declaring a value keeps a configuration well formed.
pub proof fn lemma_declare_well_formed(config: ConfigView, value: ConfigValueView)
    requires
        config.well_formed(),
    ensures
        config.declare(value).well_formed(),
{
    match value {
        ConfigValueView::Feature(name) => {},
        ConfigValueView::Substitution { key, value } => {
            let at = position(config.keys(), key) as int;
            lemma_position(config.keys(), key);
            let after = config.declare(ConfigValueView::Substitution { key, value });
            if at < config.substitutions.len() {
                assert(after.keys() =~= config.keys());
            } else {
                assert(after.keys() =~= config.keys().push(key));
            }
        },
    }
}

/// Every configuration that a rules file declares is well formed: no key
/// has two substitutions.
pub proof fn lemma_parse_rules_well_formed(
    lines: Seq<Seq<char>>,
    outputs: Seq<Option<Seq<char>>>,
)
    ensures
        parse_rules(lines, outputs) matches Ok(config) ==> config.well_formed(),
    decreases lines.len(),
{
    if lines.len() > 0 {
        lemma_parse_rules_well_formed(lines.drop_last(), outputs);
        match parse_rules(lines.drop_last(), outputs) {
            Ok(config) => {
                match parse_line(lines.last(), output_at(outputs, lines.len() - 1)) {
                    Ok(Some(value)) => {
                        lemma_declare_well_formed(config, value);
                    },
                    _ => {},
                }
            },
            Err(_) => {},
        }
    } else {
        assert(ConfigView::empty().keys() =~= Seq::empty());
    }
}

/// Once a prefix of the lines has failed, the whole fails in the same way.
proof fn lemma_parse_rules_fails(
    lines: Seq<Seq<char>>,
    outputs: Seq<Option<Seq<char>>>,
    k: int,
)
    requires
        0 <= k <= lines.len(),
        parse_rules(lines.take(k), outputs) is Err,
    ensures
        parse_rules(lines, outputs) == parse_rules(lines.take(k), outputs),
    decreases lines.len() - k,
{
    if k < lines.len() {
        assert(lines.drop_last().take(k) =~= lines.take(k));
        lemma_parse_rules_fails(lines.drop_last(), outputs, k);
    } else {
        assert(lines.take(k) =~= lines);
    }
}

/// What a parser's result declares, as text.
pub open spec fn declared(result: Result<Option<ConfigValue>, ParseError>) -> Result<
    Option<ConfigValueView>,
    ParseError,
> {
    match result {
        Ok(Some(value)) => Ok(Some(value@)),
        Ok(None) => Ok(None),
        Err(e) => Err(e),
    }
}

/// The configuration that a parser's result holds, as text.
pub open spec fn configured(result: Result<Config, ParseError>) -> Result<ConfigView, ParseError> {
    match result {
        Ok(config) => Ok(config@),
        Err(e) => Err(e),
    }
}

/// The enabled features and the substitutions that a rules file declares.
#[derive(Debug)]
pub struct Config {
    features: Vec<String>,
    substitutions: Vec<(String, String)>,
}

impl View for Config {
    type V = ConfigView;

    closed spec fn view(&self) -> ConfigView {
        ConfigView {
            features: self.features.deep_view().to_set(),
            substitutions: self.substitutions.deep_view(),
        }
    }
}

impl Config {
    #[verifier::type_invariant]
    spec fn inv(&self) -> bool {
        &&& self.features.deep_view().no_duplicates()
        &&& self@.keys().no_duplicates()
    }

    /// The configuration that declares nothing.
    pub fn empty() -> (config: Config)
        ensures
            config@ == ConfigView::empty(),
    {
        let config = Config { features: Vec::new(), substitutions: Vec::new() };
        proof {
            assert(config.features.deep_view() =~= Seq::empty());
            assert(config.features.deep_view().to_set() =~= Set::empty());
            assert(config.substitutions.deep_view() =~= Seq::empty());
        }
        config
    }

    /// The enabled features, each once.
    pub fn features(&self) -> (features: &Vec<String>)
        ensures
            features.deep_view().to_set() == self@.features,
            features.deep_view().no_duplicates(),
            self@.well_formed(),
    {
        proof {
            use_type_invariant(self);
            seq_to_set_is_finite(self.features.deep_view());
        }
        &self.features
    }

    /// The substitutions as pairs of key and value, in the order in which
    /// they are applied.
    pub fn substitutions(&self) -> (substitutions: &Vec<(String, String)>)
        ensures
            substitutions.deep_view() == self@.substitutions,
            self@.well_formed(),
    {
        proof {
            use_type_invariant(self);
            seq_to_set_is_finite(self.features.deep_view());
        }
        &self.substitutions
    }

    /// The command whose output `line` asks for, if it asks for one.
    pub fn shell_command(line: &str) -> (command: Option<String>)
        ensures
            command.deep_view() == shell_command(line@),
    {
        match classify(line) {
            Parsed::Shell { key, command } => Some(command),
            _ => None,
        }
    }

    /// What `line` declares, where `output` is the output of the command
    /// that `shell_command` names for it.
    pub fn parse_line(line: &str, output: Option<&str>) -> (result: Result<
        Option<ConfigValue>,
        ParseError,
    >)
        ensures
            declared(result) == parse_line(line@, output.deep_view()),
    {
        match classify(line) {
            Parsed::Skip => Ok(None),
            Parsed::Feature(name) => Ok(Some(ConfigValue::Feature(name))),
            Parsed::Substitution { key, value } => Ok(
                Some(ConfigValue::Substitution { key, value }),
            ),
            Parsed::Shell { key, command } => match output {
                Some(text) => Ok(
                    Some(ConfigValue::Substitution { key, value: trim_str(text).to_owned() }),
                ),
                None => Err(ParseError::ShellExecution),
            },
        }
    }

    /// The configuration that `lines` declare, where `outputs[i]` is the
    /// output of the command that `lines[i]` asks for.
    pub fn new(lines: Vec<String>, outputs: Vec<Option<String>>) -> (result: Result<
        Config,
        ParseError,
    >)
        ensures
            configured(result) == parse_rules(lines.deep_view(), outputs.deep_view()),
            result is Ok <==> outputs_suffice(lines.deep_view(), outputs.deep_view()),
            result matches Ok(config) ==> config@.well_formed(),
    {
        proof {
            lemma_parse_rules_succeeds(lines.deep_view(), outputs.deep_view());
            lemma_parse_rules_well_formed(lines.deep_view(), outputs.deep_view());
        }
        let mut config = Config::empty();
        let n = lines.len();
        let mut i: usize = 0;
        proof {
            assert(lines.deep_view().take(0) =~= Seq::empty());
        }
        while i < n
            invariant
                i <= n,
                n == lines.len(),
                parse_rules(lines.deep_view().take(i as int), outputs.deep_view()) == Ok::<
                    ConfigView,
                    ParseError,
                >(config@),
            decreases n - i,
        {
            let output = if i < outputs.len() {
                match &outputs[i] {
                    Some(text) => Some(text.as_str()),
                    None => None,
                }
            } else {
                None
            };
            proof {
                let done = lines.deep_view().take(i + 1);
                assert(done.drop_last() =~= lines.deep_view().take(i as int));
                assert(done.last() == lines[i as int]@);
                assert(output.deep_view() == output_at(outputs.deep_view(), i as int));
            }
            match Config::parse_line(lines[i].as_str(), output) {
                Err(e) => {
                    proof {
                        lemma_parse_rules_fails(
                            lines.deep_view(),
                            outputs.deep_view(),
                            i + 1,
                        );
                    }
                    return Err(e);
                },
                Ok(None) => {},
                Ok(Some(value)) => {
                    config = config.declare(value);
                },
            }
            i += 1;
        }
        proof {
            assert(lines.deep_view().take(n as int) =~= lines.deep_view());
        }
        Ok(config)
    }

    /// The configuration with `value` declared too.
    pub fn declare(self, value: ConfigValue) -> (config: Config)
        ensures
            config@ == self@.declare(value@),
    {
        proof {
            use_type_invariant(&self);
        }
        match value {
            ConfigValue::Feature(name) => {
                let enabled = self.is_enabled(name.as_str());
                let Config { mut features, substitutions } = self;
                if enabled {
                    proof {
                        assert(self@.features.insert(name@) =~= self@.features);
                    }
                } else {
                    features.push(name);
                    proof {
                        let before = self.features.deep_view();
                        assert(features.deep_view() =~= before.push(name@));
                        before.lemma_push_to_set_commute(name@);
                    }
                }
                Config { features, substitutions }
            },
            ConfigValue::Substitution { key, value } => {
                let Config { features, mut substitutions } = self;
                let n = substitutions.len();
                let mut at: usize = 0;
                while at < n && !str_eq(substitutions[at].0.as_str(), key.as_str())
                    invariant
                        at <= n,
                        n == substitutions.len(),
                        forall|j: int| 0 <= j < at ==> substitutions.deep_view()[j].0 != key@,
                    decreases n - at,
                {
                    at += 1;
                }
                proof {
                    lemma_position_is(self@.keys(), key@, at as int);
                }
                if at < n {
                    substitutions.set(at, (key, value));
                } else {
                    substitutions.push((key, value));
                }
                proof {
                    let after = self@.declare(
                        ConfigValueView::Substitution { key: key@, value: value@ },
                    );
                    assert(substitutions.deep_view() =~= after.substitutions);
                    assert(keys_of(after.substitutions) =~= if at < n {
                        self@.keys()
                    } else {
                        self@.keys().push(key@)
                    });
                }
                Config { features, substitutions }
            },
        }
    }

    /// Whether `feature` is enabled.
    pub fn is_enabled(&self, feature: &str) -> (enabled: bool)
        ensures
            enabled == self@.is_enabled(feature@),
    {
        let n = self.features.len();
        let mut i: usize = 0;
        while i < n
            invariant
                i <= n,
                n == self.features.len(),
                forall|j: int| 0 <= j < i ==> self.features.deep_view()[j] != feature@,
            decreases n - i,
        {
            if str_eq(self.features[i].as_str(), feature) {
                proof {
                    assert(self.features.deep_view()[i as int] == feature@);
                }
                return true;
            }
            i += 1;
        }
        false
    }
}

} // verus!
