//! Rendering of one template file: feature markers open and close regions,
//! the lines outside disabled regions are kept, and the substitutions are
//! applied to the lines that are kept.

use crate::rules::{Config, ConfigView};
use crate::text::{
    is_whitespace, lemma_replace_absent, lemma_trailing_whitespace, occurs, replace, replace_str,
    str_eq, trailing_whitespace, trim, trim_start, trim_str,
};
use regex::Regex;
use vstd::prelude::*;

verus! {

/// Whether `line` is a feature marker: after any leading whitespace stand
/// three `#` and a whitespace character.
pub open spec fn is_marker(line: Seq<char>) -> bool {
    let t = trim_start(line);
    t.len() >= 4 && t[0] == '#' && t[1] == '#' && t[2] == '#' && is_whitespace(t[3])
}

/// The feature that a marker names: what follows the three `#` of the
/// trimmed line, trimmed again.
pub open spec fn marker_name(line: Seq<char>) -> Seq<char> {
    trim(trim(line).skip(3))
}

/// The feature that `line` names if it is a marker.
pub open spec fn get_feature(line: Seq<char>) -> Option<Seq<char>> {
    if is_marker(line) {
        Some(marker_name(line))
    } else {
        None
    }
}

/// The regular expression that finds a marker: the start of the text, any
/// number of whitespace characters, three `#`, one whitespace character.
pub open spec fn marker_pattern() -> Seq<char> {
    "^\\s*###\\s"@
}

/// Compiles `pattern` with `regex::Regex::new` and searches `line` with
/// `Regex::is_match`.
///
/// Trusted, for the marker pattern alone: `^` stands for the start of the
/// text, `\s` for one character with the property `White_Space`, `*` for any
/// number of repetitions, `#` for itself; `is_match` tells whether the
/// pattern matches anywhere in the text. No `#` is whitespace, so a match
/// takes all the leading whitespace of the line.
#[verifier::external_body]
fn is_match(pattern: &str, line: &str) -> (matched: bool)
    requires
        pattern@ == marker_pattern(),
    ensures
        matched == is_marker(line@),
{
    match Regex::new(pattern) {
        Ok(re) => re.is_match(line),
        Err(_) => false,
    }
}

/// A marker keeps its three `#` when it is trimmed.
pub proof fn lemma_marker_trimmed(line: Seq<char>)
    requires
        is_marker(line),
    ensures
        trim(line).len() >= 3,
        trim(line)[0] == '#',
        trim(line)[1] == '#',
        trim(line)[2] == '#',
{
    let t = trim_start(line);
    lemma_trailing_whitespace(t);
    if trailing_whitespace(t) > t.len() - 3 {
        assert(is_whitespace(t[2]));
    }
}

/// The stack of open regions after a line. A marker that names the region
/// on top closes it; any other marker opens a region, enabled if its feature
/// is; a line that is no marker leaves the stack as it is.
pub open spec fn step(
    features: Set<Seq<char>>,
    stack: Seq<(Seq<char>, bool)>,
    line: Seq<char>,
) -> Seq<(Seq<char>, bool)> {
    match get_feature(line) {
        Some(name) => if stack.len() > 0 && stack.last().0 == name {
            stack.drop_last()
        } else {
            stack.push((name, features.contains(name)))
        },
        None => stack,
    }
}

/// The stack of open regions after `lines`, from an empty stack.
pub open spec fn stack_after(features: Set<Seq<char>>, lines: Seq<Seq<char>>) -> Seq<
    (Seq<char>, bool),
>
    decreases lines.len(),
{
    if lines.len() == 0 {
        Seq::empty()
    } else {
        step(features, stack_after(features, lines.drop_last()), lines.last())
    }
}

/// Whether every open region is enabled.
pub open spec fn all_enabled(stack: Seq<(Seq<char>, bool)>) -> bool {
    forall|i: int| 0 <= i < stack.len() ==> (#[trigger] stack[i]).1
}

/// `line` after each substitution in turn, the first one first.
pub open spec fn substitute(substitutions: Seq<(Seq<char>, Seq<char>)>, line: Seq<char>) -> Seq<
    char,
>
    decreases substitutions.len(),
{
    if substitutions.len() == 0 {
        line
    } else {
        replace(
            substitute(substitutions.drop_last(), line),
            substitutions.last().0,
            substitutions.last().1,
        )
    }
}

/// What `line` adds to the output when it comes on `stack`: nothing if it
/// is a marker or if some open region is disabled, else the line with the
/// substitutions applied and a line feed.
pub open spec fn emit(config: ConfigView, stack: Seq<(Seq<char>, bool)>, line: Seq<char>) -> Seq<
    char,
> {
    if get_feature(line) is None && all_enabled(stack) {
        substitute(config.substitutions, line).push('\n')
    } else {
        Seq::empty()
    }
}

/// The text that `lines` render to under `config`.
pub open spec fn render(config: ConfigView, lines: Seq<Seq<char>>) -> Seq<char>
    decreases lines.len(),
{
    if lines.len() == 0 {
        Seq::empty()
    } else {
        render(config, lines.drop_last()) + emit(
            config,
            stack_after(config.features, lines.drop_last()),
            lines.last(),
        )
    }
}

/// Whether no line of `lines` is a marker.
pub open spec fn all_content(lines: Seq<Seq<char>>) -> bool {
    forall|i: int| 0 <= i < lines.len() ==> get_feature(#[trigger] lines[i]) is None
}

/// Whether `stack` can come from markers: each region is enabled if and
/// only if its feature is, and no region lies directly on one of the same
/// name.
pub open spec fn well_nested(features: Set<Seq<char>>, stack: Seq<(Seq<char>, bool)>) -> bool {
    &&& forall|i: int|
        0 <= i < stack.len() ==> (#[trigger] stack[i]).1 == features.contains(stack[i].0)
    &&& forall|i: int, j: int|
        0 <= i < stack.len() && j == i + 1 && j < stack.len() ==> (#[trigger] stack[i]).0 != (
        #[trigger] stack[j]).0
}

/// The stack after any lines is well nested.
pub proof fn lemma_stack_well_nested(features: Set<Seq<char>>, lines: Seq<Seq<char>>)
    ensures
        well_nested(features, stack_after(features, lines)),
    decreases lines.len(),
{
    if lines.len() > 0 {
        lemma_stack_well_nested(features, lines.drop_last());
    }
}

/// A line in which no key occurs comes through the substitutions unchanged.
pub proof fn lemma_substitute_absent(substitutions: Seq<(Seq<char>, Seq<char>)>, line: Seq<char>)
    requires
        forall|i: int|
            0 <= i < substitutions.len() ==> !occurs(line, (#[trigger] substitutions[i]).0),
    ensures
        substitute(substitutions, line) == line,
    decreases substitutions.len(),
{
    if substitutions.len() > 0 {
        let before = substitutions.drop_last();
        assert forall|i: int| 0 <= i < before.len() implies !occurs(
            line,
            (#[trigger] before[i]).0,
        ) by {
            assert(before[i] == substitutions[i]);
        }
        lemma_substitute_absent(before, line);
        let last = substitutions[substitutions.len() - 1];
        lemma_replace_absent(line, last.0, last.1);
    }
}

/// A key that does not occur in the line as it stands when the key's turn
/// comes leaves the line as it is.
pub proof fn lemma_substitute_skips(
    substitutions: Seq<(Seq<char>, Seq<char>)>,
    key: Seq<char>,
    value: Seq<char>,
    line: Seq<char>,
)
    requires
        !occurs(substitute(substitutions, line), key),
    ensures
        substitute(substitutions.push((key, value)), line) == substitute(substitutions, line),
{
    assert(substitutions.push((key, value)).drop_last() =~= substitutions);
    lemma_replace_absent(substitute(substitutions, line), key, value);
}

/// A line that is no marker is emitted if and only if every open region is
/// enabled, and then as the line with the substitutions applied and a line
/// feed; with no region open it is always emitted. A marker is never
/// emitted.
pub proof fn lemma_emitted_iff_enabled(config: ConfigView, lines: Seq<Seq<char>>, line: Seq<char>)
    ensures
        render(config, lines.push(line)) == render(config, lines) + emit(
            config,
            stack_after(config.features, lines),
            line,
        ),
        emit(config, stack_after(config.features, lines), line).len() > 0 <==> get_feature(line)
            is None && all_enabled(stack_after(config.features, lines)),
        get_feature(line) is None && stack_after(config.features, lines).len() == 0 ==> emit(
            config,
            stack_after(config.features, lines),
            line,
        ) == substitute(config.substitutions, line).push('\n'),
        get_feature(line) is Some ==> render(config, lines.push(line)) == render(config, lines),
{
    assert(lines.push(line).drop_last() =~= lines);
    assert(render(config, lines) + Seq::<char>::empty() =~= render(config, lines));
}

/// Every line of the output ends with a line feed: the output is empty or
/// ends with one.
pub proof fn lemma_render_ends_lines(config: ConfigView, lines: Seq<Seq<char>>)
    ensures
        render(config, lines).len() == 0 || render(config, lines).last() == '\n',
    decreases lines.len(),
{
    if lines.len() > 0 {
        lemma_render_ends_lines(config, lines.drop_last());
    }
}

/// Lines that are no markers leave the stack as it is, and they are
/// emitted together or not at all: as they would render alone if every
/// open region is enabled, else not.
pub proof fn lemma_content_block(
    config: ConfigView,
    lines: Seq<Seq<char>>,
    contents: Seq<Seq<char>>,
)
    requires
        all_content(contents),
    ensures
        stack_after(config.features, lines + contents) == stack_after(config.features, lines),
        render(config, lines + contents) == render(config, lines) + if all_enabled(
            stack_after(config.features, lines),
        ) {
            render(config, contents)
        } else {
            Seq::empty()
        },
    decreases contents.len(),
{
    if contents.len() == 0 {
        assert(lines + contents =~= lines);
        assert(render(config, lines) + Seq::<char>::empty() =~= render(config, lines));
    } else {
        let before = contents.drop_last();
        assert(get_feature(contents[contents.len() - 1]) is None);
        assert forall|i: int| 0 <= i < before.len() implies get_feature(
            #[trigger] before[i],
        ) is None by {
            assert(before[i] == contents[i]);
        }
        lemma_content_block(config, lines, before);
        lemma_content_block(config, Seq::empty(), before);
        assert(Seq::<Seq<char>>::empty() + before =~= before);
        assert((lines + contents).drop_last() =~= lines + before);
        let stack = stack_after(config.features, lines);
        let line = contents.last();
        if all_enabled(stack) {
            assert(render(config, lines) + render(config, before) + emit(config, stack, line)
                =~= render(config, lines) + (render(config, before) + emit(
                config,
                Seq::empty(),
                line,
            )));
        } else {
            assert(render(config, lines) + Seq::<char>::empty() + emit(config, stack, line)
                =~= render(config, lines) + Seq::<char>::empty());
        }
    }
}

/// A region that is opened and never closed runs to the end: the lines
/// after its marker are emitted if the region and every region open before
/// it are enabled, else dropped, and nothing fails.
pub proof fn lemma_open_region(
    config: ConfigView,
    lines: Seq<Seq<char>>,
    opening: Seq<char>,
    contents: Seq<Seq<char>>,
)
    requires
        get_feature(opening) is Some,
        stack_after(config.features, lines.push(opening)).len() > stack_after(
            config.features,
            lines,
        ).len(),
        all_content(contents),
    ensures
        render(config, lines.push(opening) + contents) == render(config, lines) + if all_enabled(
            stack_after(config.features, lines),
        ) && config.is_enabled(get_feature(opening)->0) {
            render(config, contents)
        } else {
            Seq::empty()
        },
{
    let before = stack_after(config.features, lines);
    let opened = lines.push(opening);
    let name = get_feature(opening)->0;
    assert(opened.drop_last() =~= lines);
    lemma_emitted_iff_enabled(config, lines, opening);
    lemma_content_block(config, opened, contents);
    let inside = stack_after(config.features, opened);
    assert(inside == before.push((name, config.features.contains(name))));
    if all_enabled(before) && config.is_enabled(name) {
        assert forall|i: int| 0 <= i < inside.len() implies (#[trigger] inside[i]).1 by {
            if i < before.len() {
                assert(inside[i] == before[i]);
            }
        }
    } else if !config.is_enabled(name) {
        assert(!inside[inside.len() - 1].1);
    } else {
        let i = choose|i: int| 0 <= i < before.len() && !(#[trigger] before[i]).1;
        assert(inside[i] == before[i]);
    }
}

/// A marker that repeats the name of the marker before it, with no other
/// marker between the two, brings the stack back to what it was before the
/// first of them: what the first opened the second closes, and what the
/// first closed the second opens again.
pub proof fn lemma_repeated_marker_closes(
    features: Set<Seq<char>>,
    lines: Seq<Seq<char>>,
    opening: Seq<char>,
    contents: Seq<Seq<char>>,
    closing: Seq<char>,
)
    requires
        get_feature(opening) is Some,
        get_feature(closing) == get_feature(opening),
        all_content(contents),
    ensures
        stack_after(features, lines.push(opening) + contents.push(closing)) == stack_after(
            features,
            lines,
        ),
        stack_after(features, lines.push(opening)).len() > stack_after(features, lines).len()
            ==> stack_after(features, lines.push(opening) + contents) == stack_after(
            features,
            lines,
        ).push((get_feature(opening)->0, features.contains(get_feature(opening)->0))),
{
    let config = ConfigView { features, substitutions: Seq::empty() };
    let before = stack_after(features, lines);
    let opened = lines.push(opening);
    let inside = stack_after(features, opened);
    let name = get_feature(opening)->0;
    lemma_stack_well_nested(features, lines);
    lemma_content_block(config, opened, contents);
    assert(opened.drop_last() =~= lines);
    assert((opened + contents.push(closing)).drop_last() =~= opened + contents);
    assert((opened + contents.push(closing)).last() == closing);
    if before.len() > 0 && before.last().0 == name {
        assert(inside == before.drop_last());
        if inside.len() > 0 {
            assert(inside.last() == before[before.len() - 2]);
            assert(before[before.len() - 2].0 != before[before.len() - 1].0);
        }
        assert(inside.push((name, features.contains(name))) =~= before);
    } else {
        assert(inside.drop_last() =~= before);
    }
}

impl Config {
    /// `line` after each substitution in turn.
    pub fn substitute(&self, line: &str) -> (out: String)
        ensures
            out@ == substitute(self@.substitutions, line@),
    {
        let substitutions = self.substitutions();
        let n = substitutions.len();
        let mut out = line.to_owned();
        let mut i: usize = 0;
        proof {
            assert(substitutions.deep_view().take(0) =~= Seq::empty());
        }
        while i < n
            invariant
                i <= n,
                n == substitutions.len(),
                out@ == substitute(substitutions.deep_view().take(i as int), line@),
            decreases n - i,
        {
            proof {
                let done = substitutions.deep_view().take(i + 1);
                assert(done.drop_last() =~= substitutions.deep_view().take(i as int));
                assert(done.last() == substitutions.deep_view()[i as int]);
            }
            out = replace_str(
                out.as_str(),
                substitutions[i].0.as_str(),
                substitutions[i].1.as_str(),
            );
            i += 1;
        }
        proof {
            assert(substitutions.deep_view().take(n as int) =~= substitutions.deep_view());
        }
        out
    }

    /// The text that the lines of a template file render to.
    pub fn template_file(&self, lines: &Vec<String>) -> (out: String)
        ensures
            out@ == render(self@, lines.deep_view()),
    {
        let mut stack: Vec<(String, bool)> = Vec::new();
        let mut out = String::new();
        let n = lines.len();
        let mut i: usize = 0;
        proof {
            assert(lines.deep_view().take(0) =~= Seq::empty());
            assert(stack.deep_view() =~= Seq::empty());
        }
        while i < n
            invariant
                i <= n,
                n == lines.len(),
                stack.deep_view() == stack_after(self@.features, lines.deep_view().take(i as int)),
                out@ == render(self@, lines.deep_view().take(i as int)),
            decreases n - i,
        {
            let line = lines[i].as_str();
            let ghost before = stack.deep_view();
            proof {
                let done = lines.deep_view().take(i + 1);
                assert(done.drop_last() =~= lines.deep_view().take(i as int));
                assert(done.last() == line@);
            }
            match Config::get_feature(line) {
                Some(name) => {
                    let depth = stack.len();
                    if depth > 0 && str_eq(stack[depth - 1].0.as_str(), name) {
                        stack.pop();
                        proof {
                            assert(stack.deep_view() =~= before.drop_last());
                        }
                    } else {
                        let enabled = self.is_enabled(name);
                        stack.push((name.to_owned(), enabled));
                        proof {
                            assert(stack.deep_view() =~= before.push((name@, enabled)));
                        }
                    }
                    proof {
                        assert(out@ + Seq::<char>::empty() =~= out@);
                    }
                },
                None => {
                    if stack_all_enabled(&stack) {
                        let ghost rendered = out@;
                        let text = self.substitute(line);
                        out.append(text.as_str());
                        out.append("\n");
                        proof {
                            reveal_strlit("\n");
                            assert("\n"@ =~= seq!['\n']);
                            assert(out@ =~= rendered + text@.push('\n'));
                        }
                    } else {
                        proof {
                            assert(out@ + Seq::<char>::empty() =~= out@);
                        }
                    }
                },
            }
            i += 1;
        }
        proof {
            assert(lines.deep_view().take(n as int) =~= lines.deep_view());
        }
        out
    }

    /// The feature that `line` names if it is a marker.
    pub fn get_feature(line: &str) -> (feature: Option<&str>)
        ensures
            feature.deep_view() == get_feature(line@),
    {
        if is_match("^\\s*###\\s", line) {
            let trimmed = trim_str(line);
            proof {
                lemma_marker_trimmed(line@);
            }
            Some(trim_str(trimmed.substring_char(3, trimmed.unicode_len())))
        } else {
            None
        }
    }
}

/// Whether every open region is enabled.
fn stack_all_enabled(stack: &Vec<(String, bool)>) -> (enabled: bool)
    ensures
        enabled == all_enabled(stack.deep_view()),
{
    let n = stack.len();
    let mut i: usize = 0;
    while i < n
        invariant
            i <= n,
            n == stack.len(),
            forall|j: int| 0 <= j < i ==> (#[trigger] stack.deep_view()[j]).1,
        decreases n - i,
    {
        if !stack[i].1 {
            proof {
                assert(!stack.deep_view()[i as int].1);
            }
            return false;
        }
        i += 1;
    }
    true
}

} // verus!
