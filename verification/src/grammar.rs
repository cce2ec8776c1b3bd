//! The grammar of a command listing: what one line of it declares.
//!
//! A line that begins with `/` and a word names a command; what follows the
//! name describes its arguments. A line of the form `/name -> other` makes
//! `/name` an alias of `/other`. A line may do both, and a line that does
//! neither is passed over.
//!
//! Six expressions pick the parts of a line out. They are compiled once, into
//! a `Grammar`. What they match is named in `pattern`; this module says, and
//! proves, what is made of the matches.

use crate::command::{
    clean_words, well_formed_commands, well_formed_edges, AliasEdge, AliasModel, ArgumentModel,
    ArgumentSpec, CommandModel, CommandSpec,
};
use crate::pattern::{
    accepted, all_matches, captures, captures_iter, compile, compiled, first_match, group,
    Capture, CaptureModel, Groups,
};
use crate::text::{
    chars_of, lemma_trim_idempotent, push_char, split, split_ranges,
    string_of, trim, trim_range,
};
use regex::Regex;
use vstd::prelude::*;
use vstd::string::StringExecFns;

verus! {

/// A command line: the name, `/` and one or more word characters, and the
/// argument descriptor, which is the rest of the line.
pub const COMMAND_PATTERN: &'static str = "^(?P<cmd>/\\w+)(?P<args>.*)";

/// A mandatory placeholder: `<name>`.
pub const REQUIRED_PATTERN: &'static str = "<([^>]+)>";

/// An optional placeholder: `[<name>]`.
pub const OPTIONAL_PATTERN: &'static str = "\\[<([^>]+)>\\]";

/// A mandatory choice: `(a|b|c)`.
pub const REQUIRED_CHOICE_PATTERN: &'static str = "\\(([^)]+)\\)";

/// An optional choice: `[a|b|c]`, with at least one `|`.
pub const OPTIONAL_CHOICE_PATTERN: &'static str = "\\[([^\\]]+\\|[^\\]]+)\\]";

/// An alias line: a command name, an arrow, and the target's name without its
/// leading `/`.
pub const ALIAS_PATTERN: &'static str = "^(?P<alias>/\\w+)\\s*->\\s*(?P<target>\\w+)";

/// Why a listing could not be turned into a registry.
#[derive(Debug, PartialEq, Eq)]
pub enum GrammarError {
    /// The expression with this source was refused by the expression compiler.
    BadPattern(String),
    /// An alias names a target that no line of the listing defines.
    UnknownAliasTarget { alias: String, target: String },
}

/// The six expressions, compiled.
pub struct Grammar {
    pub command: Regex,
    pub required: Regex,
    pub optional: Regex,
    pub required_choice: Regex,
    pub optional_choice: Regex,
    pub alias: Regex,
}

/// The grammar of the six expressions of this module.
pub open spec fn standard() -> Grammar {
    Grammar {
        command: compiled(COMMAND_PATTERN@),
        required: compiled(REQUIRED_PATTERN@),
        optional: compiled(OPTIONAL_PATTERN@),
        required_choice: compiled(REQUIRED_CHOICE_PATTERN@),
        optional_choice: compiled(OPTIONAL_CHOICE_PATTERN@),
        alias: compiled(ALIAS_PATTERN@),
    }
}

/// The words that the given pieces leave: each piece is trimmed, and a piece
/// of which nothing is left then is no word.
pub open spec fn kept_words(pieces: Seq<Seq<char>>) -> Seq<Seq<char>>
    decreases pieces.len(),
{
    if pieces.len() == 0 {
        seq![]
    } else {
        let before = kept_words(pieces.drop_last());
        let word = trim(pieces.last());
        if word.len() > 0 {
            before.push(word)
        } else {
            before
        }
    }
}

/// The words of a choice group: the group's content is cut at each `|`, each
/// piece is trimmed, and the pieces that are then empty are left out. A group
/// may leave no word at all.
pub open spec fn choice_words(content: Seq<char>) -> Seq<Seq<char>> {
    kept_words(split(content, '|'))
}

/// The choice arguments that the contents of choice groups give, mandatory
/// ones or optional ones: one for each group that leaves at least one word,
/// in the order of the groups. A group without a word gives no argument.
pub open spec fn choice_arguments(contents: Seq<Seq<char>>, optional: bool) -> Seq<ArgumentModel>
    decreases contents.len(),
{
    if contents.len() == 0 {
        seq![]
    } else {
        let before = choice_arguments(contents.drop_last(), optional);
        let words = choice_words(contents.last());
        if words.len() == 0 {
            before
        } else if optional {
            before.push(ArgumentModel::OptionalChoice(words))
        } else {
            before.push(ArgumentModel::RequiredChoice(words))
        }
    }
}

/// The text of group 1 of each match that has one, in the order of the
/// matches.
pub open spec fn captured(found: Seq<Groups>) -> Seq<Seq<char>>
    decreases found.len(),
{
    if found.len() == 0 {
        seq![]
    } else {
        let before = captured(found.drop_last());
        match group(found.last(), 1) {
            Some(capture) => before.push(capture.text),
            None => before,
        }
    }
}

/// Whether the whole of one match lies within the whole of another.
pub open spec fn within(inner: Groups, outer: Groups) -> bool {
    match (group(inner, 0), group(outer, 0)) {
        (Some(a), Some(b)) => b.start <= a.start && a.end <= b.end,
        _ => false,
    }
}

/// Whether a match lies within one of the given matches.
pub open spec fn enclosed(inner: Groups, outer: Seq<Groups>) -> bool {
    exists|j: int| 0 <= j < outer.len() && within(inner, #[trigger] outer[j])
}

/// The matches that lie within none of the matches `outer`, in their order.
pub open spec fn outside(found: Seq<Groups>, outer: Seq<Groups>) -> Seq<Groups>
    decreases found.len(),
{
    if found.len() == 0 {
        seq![]
    } else {
        let before = outside(found.drop_last(), outer);
        if enclosed(found.last(), outer) {
            before
        } else {
            before.push(found.last())
        }
    }
}

/// The argument list made of what the four argument expressions captured. The
/// arguments are grouped by kind: the mandatory placeholders first, then the
/// optional placeholders, the mandatory choices, and the optional choices.
/// Within a kind they keep the order of the descriptor; across kinds they do
/// not. A choice group that leaves no word gives no argument.
pub open spec fn arguments(
    required: Seq<Seq<char>>,
    optional: Seq<Seq<char>>,
    required_choice: Seq<Seq<char>>,
    optional_choice: Seq<Seq<char>>,
) -> Seq<ArgumentModel> {
    required.map_values(|name: Seq<char>| ArgumentModel::Required(name)) + optional.map_values(
        |name: Seq<char>| ArgumentModel::Optional(name),
    ) + choice_arguments(required_choice, false) + choice_arguments(optional_choice, true)
}

/// The name and the argument descriptor that a match of the command
/// expression gives: group 1 and group 2. A match whose group 1 does not begin
/// with `/` gives none.
pub open spec fn command_head(found: Option<Groups>) -> Option<(Seq<char>, Seq<char>)> {
    match found {
        Some(groups) => match group(groups, 1) {
            Some(name) => if name.text.len() > 0 && name.text[0] == '/' {
                Some(
                    (
                        name.text,
                        match group(groups, 2) {
                            Some(descriptor) => descriptor.text,
                            None => seq![],
                        },
                    ),
                )
            } else {
                None
            },
            None => None,
        },
        None => None,
    }
}

/// The alias edge that a match of the alias expression gives: group 1 is the
/// alias, and group 2, with `/` put before it, the target. A match whose group
/// 1 does not begin with `/` gives none.
pub open spec fn alias_edge(found: Option<Groups>) -> Option<AliasModel> {
    match found {
        Some(groups) => match (group(groups, 1), group(groups, 2)) {
            (Some(alias), Some(target)) => if alias.text.len() > 0 && alias.text[0] == '/' {
                Some(AliasModel { alias: alias.text, target: seq!['/'] + target.text })
            } else {
                None
            },
            _ => None,
        },
        None => None,
    }
}

/// The arguments that a descriptor declares. Each of the four expressions is
/// matched against the whole descriptor, on its own. A `<name>` that an
/// optional placeholder `[<name>]` encloses is that optional placeholder and
/// no mandatory one.
pub open spec fn descriptor_arguments(g: Grammar, descriptor: Seq<char>) -> Seq<ArgumentModel> {
    arguments(
        captured(
            outside(all_matches(g.required, descriptor), all_matches(g.optional, descriptor)),
        ),
        captured(all_matches(g.optional, descriptor)),
        captured(all_matches(g.required_choice, descriptor)),
        captured(all_matches(g.optional_choice, descriptor)),
    )
}

/// The command that a trimmed line declares, if it declares one.
pub open spec fn line_command(g: Grammar, line: Seq<char>) -> Option<CommandModel> {
    match command_head(first_match(g.command, line)) {
        Some((name, descriptor)) => Some(
            CommandModel { name, args: descriptor_arguments(g, descriptor) },
        ),
        None => None,
    }
}

/// The alias edge that a trimmed line declares, if it declares one.
pub open spec fn line_alias(g: Grammar, line: Seq<char>) -> Option<AliasModel> {
    alias_edge(first_match(g.alias, line))
}

/// What a listing declares: its commands and its alias edges, each in the
/// order of the lines.
pub struct ListingModel {
    pub commands: Seq<CommandModel>,
    pub aliases: Seq<AliasModel>,
}

/// What the given lines declare. Each line is trimmed first, and a line that
/// is then empty declares nothing.
pub open spec fn lines_listing(g: Grammar, lines: Seq<Seq<char>>) -> ListingModel
    decreases lines.len(),
{
    if lines.len() == 0 {
        ListingModel { commands: seq![], aliases: seq![] }
    } else {
        let before = lines_listing(g, lines.drop_last());
        let line = trim(lines.last());
        if line.len() == 0 {
            before
        } else {
            ListingModel {
                commands: match line_command(g, line) {
                    Some(command) => before.commands.push(command),
                    None => before.commands,
                },
                aliases: match line_alias(g, line) {
                    Some(edge) => before.aliases.push(edge),
                    None => before.aliases,
                },
            }
        }
    }
}

/// What a listing declares, line by line.
pub open spec fn listing(g: Grammar, text: Seq<char>) -> ListingModel {
    lines_listing(g, split(text, '\n'))
}

/// The words of a choice group: its pieces between `|`, each trimmed, without
/// those that are then empty.
pub fn read_choice_words(content: &str) -> (words: Vec<String>)
    ensures
        words.deep_view() == choice_words(content@),
        clean_words(words.deep_view()),
{
    let chars = chars_of(content);
    let ranges = split_ranges(&chars, 0, chars.len(), '|');
    let ghost pieces = split(content@, '|');
    assert(chars@.subrange(0, chars@.len() as int) == content@);
    let mut words: Vec<String> = Vec::new();
    let mut i: usize = 0;
    while i < ranges.len()
        invariant
            i <= ranges.len(),
            ranges@.len() == pieces.len(),
            forall|j: int|
                0 <= j < ranges@.len() ==> 0 <= (#[trigger] ranges@[j]).0 <= ranges@[j].1
                    <= chars.len(),
            forall|j: int|
                0 <= j < ranges@.len() ==> chars@.subrange(
                    (#[trigger] ranges@[j]).0 as int,
                    ranges@[j].1 as int,
                ) == pieces[j],
            words.deep_view() == kept_words(pieces.take(i as int)),
        decreases ranges.len() - i,
    {
        let ghost before = words.deep_view();
        let (from, to) = ranges[i];
        let (a, b) = trim_range(&chars, from, to);
        assert(pieces.take(i + 1).drop_last() == pieces.take(i as int));
        if a < b {
            words.push(string_of(&chars, a, b));
            assert(words.deep_view() =~= before.push(trim(pieces[i as int])));
        }
        i += 1;
    }
    proof {
        assert(pieces.take(pieces.len() as int) == pieces);
        lemma_kept_words_clean(pieces);
    }
    words
}

/// The choice arguments that the contents of choice groups give, put at the
/// end of `args`.
fn push_choice_arguments(args: &mut Vec<ArgumentSpec>, contents: &Vec<String>, optional: bool)
    ensures
        final(args).deep_view() == old(args).deep_view() + choice_arguments(
            contents.deep_view(),
            optional,
        ),
{
    let ghost start = args.deep_view();
    let ghost all = contents.deep_view();
    let mut i: usize = 0;
    while i < contents.len()
        invariant
            i <= contents.len(),
            all == contents.deep_view(),
            args.deep_view() == start + choice_arguments(all.take(i as int), optional),
        decreases contents.len() - i,
    {
        let ghost before = args.deep_view();
        let words = read_choice_words(contents[i].as_str());
        proof {
            assert(all.take(i + 1).drop_last() == all.take(i as int));
            assert(all.take(i + 1).last() == contents@[i as int]@);
        }
        if words.len() > 0 {
            if optional {
                args.push(ArgumentSpec::OptionalChoice(words));
                assert(args.deep_view() =~= before.push(
                    ArgumentModel::OptionalChoice(choice_words(all[i as int])),
                ));
            } else {
                args.push(ArgumentSpec::RequiredChoice(words));
                assert(args.deep_view() =~= before.push(
                    ArgumentModel::RequiredChoice(choice_words(all[i as int])),
                ));
            }
        }
        i += 1;
    }
    assert(all.take(all.len() as int) == all);
}

/// The text of group 1 of each match that has one.
pub fn read_captured(found: &Vec<Vec<Option<Capture>>>) -> (texts: Vec<String>)
    ensures
        texts.deep_view() == captured(found.deep_view()),
{
    let mut texts: Vec<String> = Vec::new();
    let mut i: usize = 0;
    while i < found.len()
        invariant
            i <= found.len(),
            texts.deep_view() == captured(found.deep_view().take(i as int)),
        decreases found.len() - i,
    {
        let groups = &found[i];
        assert(found.deep_view().take(i + 1).drop_last() == found.deep_view().take(i as int));
        if groups.len() > 1 {
            if let Some(capture) = &groups[1] {
                texts.push(capture.text.clone());
            }
        }
        i += 1;
    }
    assert(found.deep_view().take(found@.len() as int) == found.deep_view());
    texts
}

/// Whether a match lies within one of the given matches.
pub fn is_enclosed(inner: &Vec<Option<Capture>>, outer: &Vec<Vec<Option<Capture>>>) -> (b: bool)
    ensures
        b == enclosed(inner.deep_view(), outer.deep_view()),
{
    if inner.len() == 0 {
        return false;
    }
    let a = match &inner[0] {
        Some(capture) => capture,
        None => {
            return false;
        },
    };
    let mut j: usize = 0;
    while j < outer.len()
        invariant
            j <= outer.len(),
            group(inner.deep_view(), 0) == Some(a@),
            forall|k: int| 0 <= k < j ==> !within(inner.deep_view(), #[trigger] outer.deep_view()[k]),
        decreases outer.len() - j,
    {
        let groups = &outer[j];
        assert(outer.deep_view()[j as int] == groups.deep_view());
        if groups.len() > 0 {
            if let Some(b) = &groups[0] {
                if b.start <= a.start && a.end <= b.end {
                    return true;
                }
            }
        }
        j += 1;
    }
    false
}

/// The text of group 1 of each match that has one and lies within none of the
/// matches `outer`.
pub fn read_captured_outside(
    found: &Vec<Vec<Option<Capture>>>,
    outer: &Vec<Vec<Option<Capture>>>,
) -> (texts: Vec<String>)
    ensures
        texts.deep_view() == captured(outside(found.deep_view(), outer.deep_view())),
{
    let mut texts: Vec<String> = Vec::new();
    let mut i: usize = 0;
    while i < found.len()
        invariant
            i <= found.len(),
            texts.deep_view() == captured(
                outside(found.deep_view().take(i as int), outer.deep_view()),
            ),
        decreases found.len() - i,
    {
        let ghost kept = outside(found.deep_view().take(i as int), outer.deep_view());
        let groups = &found[i];
        assert(found.deep_view().take(i + 1).drop_last() == found.deep_view().take(i as int));
        if !is_enclosed(groups, outer) {
            proof {
                assert(kept.push(groups.deep_view()).drop_last() == kept);
            }
            if groups.len() > 1 {
                if let Some(capture) = &groups[1] {
                    texts.push(capture.text.clone());
                }
            }
        }
        i += 1;
    }
    assert(found.deep_view().take(found@.len() as int) == found.deep_view());
    texts
}

/// The argument list made of what the four argument expressions captured, in
/// the order of the kinds.
pub fn build_arguments(
    required: &Vec<String>,
    optional: &Vec<String>,
    required_choice: &Vec<String>,
    optional_choice: &Vec<String>,
) -> (args: Vec<ArgumentSpec>)
    ensures
        args.deep_view() == arguments(
            required.deep_view(),
            optional.deep_view(),
            required_choice.deep_view(),
            optional_choice.deep_view(),
        ),
        forall|i: int| 0 <= i < args@.len() ==> (#[trigger] args@[i])@.well_formed(),
{
    let ghost r = required.deep_view().map_values(|name: Seq<char>| ArgumentModel::Required(name));
    let ghost o = optional.deep_view().map_values(|name: Seq<char>| ArgumentModel::Optional(name));
    let mut args: Vec<ArgumentSpec> = Vec::new();
    let mut i: usize = 0;
    while i < required.len()
        invariant
            i <= required.len(),
            args.deep_view() == r.take(i as int),
            r.len() == required.len(),
            forall|j: int| 0 <= j < r.len() ==> #[trigger] r[j] == ArgumentModel::Required(
                required@[j]@,
            ),
        decreases required.len() - i,
    {
        let ghost before = args.deep_view();
        args.push(ArgumentSpec::Required(required[i].clone()));
        i += 1;
        assert(args.deep_view() =~= before.push(r[i - 1]));
    }
    i = 0;
    while i < optional.len()
        invariant
            i <= optional.len(),
            args.deep_view() == r + o.take(i as int),
            o.len() == optional.len(),
            forall|j: int| 0 <= j < o.len() ==> #[trigger] o[j] == ArgumentModel::Optional(
                optional@[j]@,
            ),
        decreases optional.len() - i,
    {
        let ghost before = args.deep_view();
        args.push(ArgumentSpec::Optional(optional[i].clone()));
        i += 1;
        assert(args.deep_view() =~= before.push(o[i - 1]));
    }
    push_choice_arguments(&mut args, required_choice, false);
    push_choice_arguments(&mut args, optional_choice, true);
    proof {
        let all = arguments(
            required.deep_view(),
            optional.deep_view(),
            required_choice.deep_view(),
            optional_choice.deep_view(),
        );
        assert(args.deep_view() == all);
        lemma_arguments_well_formed(
            required.deep_view(),
            optional.deep_view(),
            required_choice.deep_view(),
            optional_choice.deep_view(),
        );
        assert forall|i: int| 0 <= i < args@.len() implies (#[trigger] args@[i])@.well_formed() by {
            assert(args@[i]@ == all[i]);
        }
    }
    args
}

/// Whether a text begins with `/`.
pub fn begins_with_slash(text: &str) -> (b: bool)
    ensures
        b == (text@.len() > 0 && text@[0] == '/'),
{
    !text.is_empty() && text.get_char(0) == '/'
}

/// The name and the argument descriptor that a match of the command
/// expression gives.
pub fn read_command_head(found: &Option<Vec<Option<Capture>>>) -> (head: Option<(String, String)>)
    ensures
        head.deep_view() == command_head(found.deep_view()),
{
    match found {
        Some(groups) => {
            if groups.len() > 1 {
                match &groups[1] {
                    Some(name) => {
                        if begins_with_slash(name.text.as_str()) {
                            let descriptor = if groups.len() > 2 {
                                match &groups[2] {
                                    Some(rest) => rest.text.clone(),
                                    None => String::new(),
                                }
                            } else {
                                String::new()
                            };
                            Some((name.text.clone(), descriptor))
                        } else {
                            None
                        }
                    },
                    None => None,
                }
            } else {
                None
            }
        },
        None => None,
    }
}

/// The alias edge that a match of the alias expression gives.
pub fn read_alias_edge(found: &Option<Vec<Option<Capture>>>) -> (edge: Option<AliasEdge>)
    ensures
        edge.deep_view() == alias_edge(found.deep_view()),
{
    match found {
        Some(groups) => {
            if groups.len() > 2 {
                match (&groups[1], &groups[2]) {
                    (Some(alias), Some(bare)) => {
                        if begins_with_slash(alias.text.as_str()) {
                            let mut target = String::new();
                            push_char(&mut target, '/');
                            target.append(bare.text.as_str());
                            Some(AliasEdge { alias: alias.text.clone(), target })
                        } else {
                            None
                        }
                    },
                    _ => None,
                }
            } else {
                None
            }
        },
        None => None,
    }
}

/// Whether the expression compiler accepts all six sources of this module.
pub open spec fn standard_accepted() -> bool {
    &&& accepted(COMMAND_PATTERN@)
    &&& accepted(REQUIRED_PATTERN@)
    &&& accepted(OPTIONAL_PATTERN@)
    &&& accepted(REQUIRED_CHOICE_PATTERN@)
    &&& accepted(OPTIONAL_CHOICE_PATTERN@)
    &&& accepted(ALIAS_PATTERN@)
}

/// The first of the six sources that the expression compiler refuses, in the
/// order in which a grammar compiles them. It is meant only where one of them
/// is refused.
pub open spec fn first_refused() -> Seq<char> {
    if !accepted(COMMAND_PATTERN@) {
        COMMAND_PATTERN@
    } else if !accepted(REQUIRED_PATTERN@) {
        REQUIRED_PATTERN@
    } else if !accepted(OPTIONAL_PATTERN@) {
        OPTIONAL_PATTERN@
    } else if !accepted(REQUIRED_CHOICE_PATTERN@) {
        REQUIRED_CHOICE_PATTERN@
    } else if !accepted(OPTIONAL_CHOICE_PATTERN@) {
        OPTIONAL_CHOICE_PATTERN@
    } else {
        ALIAS_PATTERN@
    }
}

/// The expression with the given source, compiled. It succeeds exactly where
/// the expression compiler accepts the source; where it refuses it, the error
/// carries the source.
pub fn compile_pattern(source: &str) -> (r: Result<Regex, GrammarError>)
    ensures
        r is Ok <==> accepted(source@),
        r matches Ok(expression) ==> expression == compiled(source@),
        r matches Err(e) ==> (e matches GrammarError::BadPattern(refused) && refused@ == source@),
{
    match compile(source) {
        Ok(expression) => Ok(expression),
        Err(_) => Err(GrammarError::BadPattern(source.to_owned())),
    }
}

impl Grammar {
    /// The grammar of the six expressions of this module. It is built exactly
    /// where the expression compiler accepts all six sources; where it
    /// refuses one, the error carries the first that it refuses.
    pub fn new() -> (r: Result<Grammar, GrammarError>)
        ensures
            r is Ok <==> standard_accepted(),
            r matches Ok(g) ==> g == standard(),
            r matches Err(e) ==> (e matches GrammarError::BadPattern(refused) && refused@
                == first_refused()),
    {
        let command = match compile_pattern(COMMAND_PATTERN) {
            Ok(expression) => expression,
            Err(e) => {
                return Err(e);
            },
        };
        let required = match compile_pattern(REQUIRED_PATTERN) {
            Ok(expression) => expression,
            Err(e) => {
                return Err(e);
            },
        };
        let optional = match compile_pattern(OPTIONAL_PATTERN) {
            Ok(expression) => expression,
            Err(e) => {
                return Err(e);
            },
        };
        let required_choice = match compile_pattern(REQUIRED_CHOICE_PATTERN) {
            Ok(expression) => expression,
            Err(e) => {
                return Err(e);
            },
        };
        let optional_choice = match compile_pattern(OPTIONAL_CHOICE_PATTERN) {
            Ok(expression) => expression,
            Err(e) => {
                return Err(e);
            },
        };
        let alias = match compile_pattern(ALIAS_PATTERN) {
            Ok(expression) => expression,
            Err(e) => {
                return Err(e);
            },
        };
        Ok(Grammar { command, required, optional, required_choice, optional_choice, alias })
    }

    /// The arguments that a descriptor declares.
    pub fn parse_descriptor(&self, descriptor: &str) -> (args: Vec<ArgumentSpec>)
        ensures
            args.deep_view() == descriptor_arguments(*self, descriptor@),
            forall|i: int| 0 <= i < args@.len() ==> (#[trigger] args@[i])@.well_formed(),
    {
        let required = captures_iter(&self.required, descriptor);
        let optional = captures_iter(&self.optional, descriptor);
        let required_choice = captures_iter(&self.required_choice, descriptor);
        let optional_choice = captures_iter(&self.optional_choice, descriptor);
        build_arguments(
            &read_captured_outside(&required, &optional),
            &read_captured(&optional),
            &read_captured(&required_choice),
            &read_captured(&optional_choice),
        )
    }

    /// What one trimmed line declares: a command, an alias edge, both or
    /// neither.
    pub fn parse_line(&self, line: &str) -> (declared: (Option<CommandSpec>, Option<AliasEdge>))
        ensures
            declared.0.deep_view() == line_command(*self, line@),
            declared.1.deep_view() == line_alias(*self, line@),
    {
        let command = match read_command_head(&captures(&self.command, line)) {
            Some((name, descriptor)) => Some(
                CommandSpec { name, args: self.parse_descriptor(descriptor.as_str()) },
            ),
            None => None,
        };
        let edge = read_alias_edge(&captures(&self.alias, line));
        (command, edge)
    }

    /// What a listing declares: its commands and its alias edges, in the order
    /// of the lines. Each line is trimmed; an empty line, and a line that
    /// matches neither the command expression nor the alias expression, adds
    /// nothing.
    pub fn parse(&self, text: &str) -> (declared: (Vec<CommandSpec>, Vec<AliasEdge>))
        ensures
            declared.0.deep_view() == listing(*self, text@).commands,
            declared.1.deep_view() == listing(*self, text@).aliases,
    {
        let chars = chars_of(text);
        let ranges = split_ranges(&chars, 0, chars.len(), '\n');
        let ghost lines = split(text@, '\n');
        assert(chars@.subrange(0, chars@.len() as int) == text@);
        let mut commands: Vec<CommandSpec> = Vec::new();
        let mut aliases: Vec<AliasEdge> = Vec::new();
        let mut i: usize = 0;
        while i < ranges.len()
            invariant
                i <= ranges.len(),
                ranges@.len() == lines.len(),
                forall|j: int|
                    0 <= j < ranges@.len() ==> 0 <= (#[trigger] ranges@[j]).0 <= ranges@[j].1
                        <= chars.len(),
                forall|j: int|
                    0 <= j < ranges@.len() ==> chars@.subrange(
                        (#[trigger] ranges@[j]).0 as int,
                        ranges@[j].1 as int,
                    ) == lines[j],
                commands.deep_view() == lines_listing(*self, lines.take(i as int)).commands,
                aliases.deep_view() == lines_listing(*self, lines.take(i as int)).aliases,
            decreases ranges.len() - i,
        {
            let (from, to) = ranges[i];
            let (a, b) = trim_range(&chars, from, to);
            assert(lines.take(i + 1).drop_last() == lines.take(i as int));
            if a < b {
                let line = string_of(&chars, a, b);
                let (command, edge) = self.parse_line(line.as_str());
                if let Some(c) = command {
                    commands.push(c);
                }
                if let Some(e) = edge {
                    aliases.push(e);
                }
            }
            i += 1;
        }
        assert(lines.take(lines.len() as int) == lines);
        (commands, aliases)
    }
}

/// Every command that a line declares has a name that begins with `/`, and
/// each of its choices lists at least one word, each trimmed and not empty. This
/// holds whatever the expressions of the grammar match.
pub proof fn lemma_line_command_well_formed(g: Grammar, line: Seq<char>)
    ensures
        line_command(g, line) matches Some(command) ==> command.well_formed(),
{
    if let Some((name, descriptor)) = command_head(first_match(g.command, line)) {
        lemma_arguments_well_formed(
            captured(
                outside(all_matches(g.required, descriptor), all_matches(g.optional, descriptor)),
            ),
            captured(all_matches(g.optional, descriptor)),
            captured(all_matches(g.required_choice, descriptor)),
            captured(all_matches(g.optional_choice, descriptor)),
        );
    }
}

/// Every word that the pieces leave is not empty and is trimmed.
pub proof fn lemma_kept_words_clean(pieces: Seq<Seq<char>>)
    ensures
        clean_words(kept_words(pieces)),
    decreases pieces.len(),
{
    if pieces.len() > 0 {
        lemma_kept_words_clean(pieces.drop_last());
        lemma_trim_idempotent(pieces.last());
    }
}

/// Every word of a choice group is not empty and is trimmed.
pub proof fn lemma_choice_words_clean(content: Seq<char>)
    ensures
        clean_words(choice_words(content)),
{
    lemma_kept_words_clean(split(content, '|'));
}

/// Every choice argument lists at least one word, and each of its words is
/// not empty and is trimmed.
pub proof fn lemma_choice_arguments_well_formed(contents: Seq<Seq<char>>, optional: bool)
    ensures
        forall|i: int|
            0 <= i < choice_arguments(contents, optional).len() ==> (#[trigger] choice_arguments(
                contents,
                optional,
            )[i]).well_formed(),
    decreases contents.len(),
{
    if contents.len() > 0 {
        let before = choice_arguments(contents.drop_last(), optional);
        let all = choice_arguments(contents, optional);
        lemma_choice_arguments_well_formed(contents.drop_last(), optional);
        lemma_choice_words_clean(contents.last());
        assert forall|i: int| 0 <= i < all.len() implies (#[trigger] all[i]).well_formed() by {
            if i < before.len() {
                assert(before[i].well_formed());
            }
        }
    }
}

/// Every argument of an argument list is well formed, whatever was captured.
pub proof fn lemma_arguments_well_formed(
    required: Seq<Seq<char>>,
    optional: Seq<Seq<char>>,
    required_choice: Seq<Seq<char>>,
    optional_choice: Seq<Seq<char>>,
)
    ensures
        forall|i: int|
            0 <= i < arguments(required, optional, required_choice, optional_choice).len() ==> (
            #[trigger] arguments(required, optional, required_choice, optional_choice)[i]).well_formed(),
{
    let all = arguments(required, optional, required_choice, optional_choice);
    let mandatory = choice_arguments(required_choice, false);
    let free = choice_arguments(optional_choice, true);
    lemma_choice_arguments_well_formed(required_choice, false);
    lemma_choice_arguments_well_formed(optional_choice, true);
    assert forall|i: int| 0 <= i < all.len() implies (#[trigger] all[i]).well_formed() by {
        let b = required.len() + optional.len();
        if b <= i < b + mandatory.len() {
            assert(mandatory[i - b].well_formed());
        } else if b + mandatory.len() <= i {
            assert(free[i - b - mandatory.len()].well_formed());
        }
    }
}

/// Both names of an alias edge that a line declares begin with `/`.
pub proof fn lemma_line_alias_well_formed(g: Grammar, line: Seq<char>)
    ensures
        line_alias(g, line) matches Some(edge) ==> edge.well_formed(),
{
}

/// Every command and every alias edge of a listing is well formed.
pub proof fn lemma_listing_well_formed(g: Grammar, lines: Seq<Seq<char>>)
    ensures
        well_formed_commands(lines_listing(g, lines).commands),
        well_formed_edges(lines_listing(g, lines).aliases),
    decreases lines.len(),
{
    if lines.len() > 0 {
        lemma_listing_well_formed(g, lines.drop_last());
        lemma_line_command_well_formed(g, trim(lines.last()));
        lemma_line_alias_well_formed(g, trim(lines.last()));
    }
}

} // verus!
