//! Commands, their arguments, and alias edges, with the mathematical values
//! that the contracts speak of.

use crate::text::trim;
use vstd::prelude::*;

verus! {

/// One positional argument of a command.
#[derive(Debug, PartialEq, Eq)]
pub enum ArgumentSpec {
    /// `<name>`: a value must be given.
    Required(String),
    /// `[<name>]`: a value may be given.
    Optional(String),
    /// `(a|b|c)`: one of the listed words must be given.
    RequiredChoice(Vec<String>),
    /// `[a|b|c]`: one of the listed words may be given.
    OptionalChoice(Vec<String>),
}

/// A command and its arguments, in the order in which the parser lists them.
#[derive(Debug, PartialEq, Eq)]
pub struct CommandSpec {
    pub name: String,
    pub args: Vec<ArgumentSpec>,
}

/// An alias and the command whose arguments it takes over.
#[derive(Debug, PartialEq, Eq)]
pub struct AliasEdge {
    pub alias: String,
    pub target: String,
}

/// The mathematical value of an `ArgumentSpec`.
pub enum ArgumentModel {
    Required(Seq<char>),
    Optional(Seq<char>),
    RequiredChoice(Seq<Seq<char>>),
    OptionalChoice(Seq<Seq<char>>),
}

/// The mathematical value of a `CommandSpec`.
pub struct CommandModel {
    pub name: Seq<char>,
    pub args: Seq<ArgumentModel>,
}

/// The mathematical value of an `AliasEdge`.
pub struct AliasModel {
    pub alias: Seq<char>,
    pub target: Seq<char>,
}

impl DeepView for ArgumentSpec {
    type V = ArgumentModel;

    open spec fn deep_view(&self) -> ArgumentModel {
        match self {
            ArgumentSpec::Required(name) => ArgumentModel::Required(name@),
            ArgumentSpec::Optional(name) => ArgumentModel::Optional(name@),
            ArgumentSpec::RequiredChoice(options) => ArgumentModel::RequiredChoice(
                options.deep_view(),
            ),
            ArgumentSpec::OptionalChoice(options) => ArgumentModel::OptionalChoice(
                options.deep_view(),
            ),
        }
    }
}

impl View for ArgumentSpec {
    type V = ArgumentModel;

    open spec fn view(&self) -> ArgumentModel {
        self.deep_view()
    }
}

impl DeepView for CommandSpec {
    type V = CommandModel;

    open spec fn deep_view(&self) -> CommandModel {
        CommandModel { name: self.name@, args: self.args.deep_view() }
    }
}

impl View for CommandSpec {
    type V = CommandModel;

    open spec fn view(&self) -> CommandModel {
        self.deep_view()
    }
}

impl DeepView for AliasEdge {
    type V = AliasModel;

    open spec fn deep_view(&self) -> AliasModel {
        AliasModel { alias: self.alias@, target: self.target@ }
    }
}

impl View for AliasEdge {
    type V = AliasModel;

    open spec fn view(&self) -> AliasModel {
        self.deep_view()
    }
}

impl ArgumentModel {
    /// A choice lists at least one word, and each of its words is not empty
    /// and neither begins nor ends with whitespace.
    pub open spec fn well_formed(self) -> bool {
        match self {
            ArgumentModel::Required(_) => true,
            ArgumentModel::Optional(_) => true,
            ArgumentModel::RequiredChoice(options) => trimmed_words(options),
            ArgumentModel::OptionalChoice(options) => trimmed_words(options),
        }
    }
}

impl CommandModel {
    /// The name begins with `/` and every argument is well formed.
    pub open spec fn well_formed(self) -> bool {
        &&& self.name.len() > 0
        &&& self.name[0] == '/'
        &&& forall|i: int| 0 <= i < self.args.len() ==> (#[trigger] self.args[i]).well_formed()
    }
}

impl AliasModel {
    /// Both names begin with `/`.
    pub open spec fn well_formed(self) -> bool {
        &&& self.alias.len() > 0
        &&& self.alias[0] == '/'
        &&& self.target.len() > 0
        &&& self.target[0] == '/'
    }
}

/// Every command has a name that begins with `/` and well-formed arguments.
pub open spec fn well_formed_commands(commands: Seq<CommandModel>) -> bool {
    forall|i: int| 0 <= i < commands.len() ==> (#[trigger] commands[i]).well_formed()
}

/// Both names of every edge begin with `/`.
pub open spec fn well_formed_edges(aliases: Seq<AliasModel>) -> bool {
    forall|i: int| 0 <= i < aliases.len() ==> (#[trigger] aliases[i]).well_formed()
}

/// Each word is not empty and is its own trimmed form.
pub open spec fn clean_words(words: Seq<Seq<char>>) -> bool {
    forall|i: int|
        0 <= i < words.len() ==> (#[trigger] words[i]).len() > 0 && trim(words[i]) == words[i]
}

/// At least one word, and each word is not empty and is its own trimmed form.
pub open spec fn trimmed_words(words: Seq<Seq<char>>) -> bool {
    &&& words.len() >= 1
    &&& clean_words(words)
}

impl Clone for ArgumentSpec {
    fn clone(&self) -> (copy: Self)
        ensures
            copy@ == self@,
    {
        match self {
            ArgumentSpec::Required(name) => ArgumentSpec::Required(name.clone()),
            ArgumentSpec::Optional(name) => ArgumentSpec::Optional(name.clone()),
            ArgumentSpec::RequiredChoice(options) => ArgumentSpec::RequiredChoice(
                clone_words(options),
            ),
            ArgumentSpec::OptionalChoice(options) => ArgumentSpec::OptionalChoice(
                clone_words(options),
            ),
        }
    }
}

impl Clone for CommandSpec {
    fn clone(&self) -> (copy: Self)
        ensures
            copy@ == self@,
    {
        CommandSpec { name: self.name.clone(), args: clone_arguments(&self.args) }
    }
}

impl Clone for AliasEdge {
    fn clone(&self) -> (copy: Self)
        ensures
            copy@ == self@,
    {
        AliasEdge { alias: self.alias.clone(), target: self.target.clone() }
    }
}

/// A copy of a list of words.
pub fn clone_words(words: &Vec<String>) -> (copy: Vec<String>)
    ensures
        copy.deep_view() == words.deep_view(),
{
    let mut copy: Vec<String> = Vec::new();
    let mut i: usize = 0;
    while i < words.len()
        invariant
            i <= words.len(),
            copy@.len() == i,
            forall|j: int| 0 <= j < i ==> (#[trigger] copy@[j])@ == words@[j]@,
        decreases words.len() - i,
    {
        copy.push(words[i].clone());
        i += 1;
    }
    copy
}

/// A copy of an argument list.
pub fn clone_arguments(args: &Vec<ArgumentSpec>) -> (copy: Vec<ArgumentSpec>)
    ensures
        copy.deep_view() == args.deep_view(),
{
    let mut copy: Vec<ArgumentSpec> = Vec::new();
    let mut i: usize = 0;
    while i < args.len()
        invariant
            i <= args.len(),
            copy@.len() == i,
            forall|j: int| 0 <= j < i ==> (#[trigger] copy@[j])@ == args@[j]@,
        decreases args.len() - i,
    {
        copy.push(args[i].clone());
        i += 1;
    }
    copy
}

} // verus!
