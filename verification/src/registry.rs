//! The command registry: each command name with its argument list, in the
//! order in which the names first appeared.
//!
//! A registry is built once, from the commands and alias edges of a listing,
//! and only read afterwards.

use crate::command::{
    clone_arguments, well_formed_commands, well_formed_edges, AliasEdge, AliasModel,
    ArgumentModel, ArgumentSpec, CommandModel, CommandSpec,
};
use crate::grammar::{
    first_refused, lemma_listing_well_formed, listing, standard, standard_accepted, Grammar,
    GrammarError, ListingModel,
};
use crate::text::{lemma_prefix_run, lemma_prefix_run_is, prefix_run, split};
use vstd::prelude::*;

verus! {

/// The predicate "is not named `name`".
pub open spec fn is_not_named(name: Seq<char>) -> spec_fn(CommandModel) -> bool {
    |command: CommandModel| command.name != name
}

/// The index of the first entry named `name`, or the number of entries where
/// none has that name.
pub open spec fn position(entries: Seq<CommandModel>, name: Seq<char>) -> nat {
    prefix_run(entries, is_not_named(name))
}

/// The argument list of the entry named `name`, if there is one.
pub open spec fn lookup(entries: Seq<CommandModel>, name: Seq<char>) -> Option<
    Seq<ArgumentModel>,
> {
    let i = position(entries, name);
    if i < entries.len() {
        Some(entries[i as int].args)
    } else {
        None
    }
}

/// The entries with `command` put in: in the place of the entry of the same
/// name where there is one, at the end where there is none.
pub open spec fn upsert(entries: Seq<CommandModel>, command: CommandModel) -> Seq<CommandModel> {
    let i = position(entries, command.name);
    if i < entries.len() {
        entries.update(i as int, command)
    } else {
        entries.push(command)
    }
}

/// The entries that a sequence of commands leaves: each command is put in in
/// turn, so a later command of the same name replaces an earlier one and
/// keeps its place.
pub open spec fn collect(commands: Seq<CommandModel>) -> Seq<CommandModel>
    decreases commands.len(),
{
    if commands.len() == 0 {
        seq![]
    } else {
        upsert(collect(commands.drop_last()), commands.last())
    }
}

/// The entries once the alias edges are resolved, one after the other: each
/// alias gets a copy of the argument list that its target has at that moment.
/// The first edge whose target has no entry is the error.
pub open spec fn resolve_aliases(entries: Seq<CommandModel>, aliases: Seq<AliasModel>) -> Result<
    Seq<CommandModel>,
    AliasModel,
>
    decreases aliases.len(),
{
    if aliases.len() == 0 {
        Ok(entries)
    } else {
        match resolve_aliases(entries, aliases.drop_last()) {
            Ok(before) => match lookup(before, aliases.last().target) {
                Some(args) => Ok(upsert(before, CommandModel { name: aliases.last().alias, args })),
                None => Err(aliases.last()),
            },
            Err(edge) => Err(edge),
        }
    }
}

/// The registry that a listing describes, or the alias edge that cannot be
/// resolved.
pub open spec fn registry_of(declared: ListingModel) -> Result<Seq<CommandModel>, AliasModel> {
    resolve_aliases(collect(declared.commands), declared.aliases)
}

/// The names of the entries, in order.
pub open spec fn names(entries: Seq<CommandModel>) -> Seq<Seq<char>> {
    entries.map_values(|command: CommandModel| command.name)
}

/// No two entries have the same name.
pub open spec fn distinct_names(entries: Seq<CommandModel>) -> bool {
    forall|i: int, j: int|
        0 <= i < j < entries.len() ==> (#[trigger] entries[i]).name != (#[trigger] entries[j]).name
}

/// Where an entry of the given name stands, `position` finds it.
pub proof fn lemma_position(entries: Seq<CommandModel>, name: Seq<char>)
    ensures
        position(entries, name) <= entries.len(),
        forall|i: int| 0 <= i < position(entries, name) ==> (#[trigger] entries[i]).name != name,
        position(entries, name) < entries.len() ==> entries[position(entries, name) as int].name
            == name,
{
    lemma_prefix_run(entries, is_not_named(name));
    assert forall|i: int| 0 <= i < position(entries, name) implies (#[trigger] entries[i]).name
        != name by {
        assert(is_not_named(name)(entries[i]));
    }
}

/// Putting a command in keeps the names distinct.
pub proof fn lemma_upsert_distinct(entries: Seq<CommandModel>, command: CommandModel)
    requires
        distinct_names(entries),
    ensures
        distinct_names(upsert(entries, command)),
{
    lemma_position(entries, command.name);
}

/// After a command is put in, looking its name up finds its arguments, and
/// looking any other name up finds what it found before.
pub proof fn lemma_lookup_upsert(
    entries: Seq<CommandModel>,
    command: CommandModel,
    name: Seq<char>,
)
    ensures
        lookup(upsert(entries, command), name) == if name == command.name {
            Some(command.args)
        } else {
            lookup(entries, name)
        },
{
    let after = upsert(entries, command);
    let i = position(entries, command.name);
    lemma_position(entries, command.name);
    lemma_position(entries, name);
    let k = position(entries, name);
    if name == command.name {
        assert forall|j: int| 0 <= j < i implies is_not_named(name)(#[trigger] after[j]) by {
            assert(after[j] == entries[j]);
        }
        lemma_prefix_run_is(after, is_not_named(name), i);
    } else {
        assert forall|j: int| 0 <= j < k implies is_not_named(name)(#[trigger] after[j]) by {
            if j != i {
                assert(after[j] == entries[j]);
            }
        }
        if k < entries.len() {
            assert(k != i);
            assert(after[k as int] == entries[k as int]);
            lemma_prefix_run_is(after, is_not_named(name), k);
        } else {
            lemma_prefix_run_is(after, is_not_named(name), after.len());
        }
    }
}

/// Putting a well-formed command in keeps the entries well formed.
pub proof fn lemma_upsert_well_formed(entries: Seq<CommandModel>, command: CommandModel)
    requires
        well_formed_commands(entries),
        command.well_formed(),
    ensures
        well_formed_commands(upsert(entries, command)),
{
    lemma_position(entries, command.name);
}

/// The entries that a sequence of well-formed commands leaves are well formed.
pub proof fn lemma_collect_well_formed(commands: Seq<CommandModel>)
    requires
        well_formed_commands(commands),
    ensures
        well_formed_commands(collect(commands)),
    decreases commands.len(),
{
    if commands.len() > 0 {
        assert forall|i: int| 0 <= i < commands.drop_last().len() implies (
        #[trigger] commands.drop_last()[i]).well_formed() by {
            assert(commands[i].well_formed());
        }
        lemma_collect_well_formed(commands.drop_last());
        assert(commands[commands.len() - 1].well_formed());
        lemma_upsert_well_formed(collect(commands.drop_last()), commands.last());
    }
}

/// Resolving well-formed alias edges keeps the names distinct and the entries
/// well formed.
pub proof fn lemma_resolve_well_formed(entries: Seq<CommandModel>, aliases: Seq<AliasModel>)
    requires
        distinct_names(entries),
        well_formed_commands(entries),
        well_formed_edges(aliases),
    ensures
        resolve_aliases(entries, aliases) matches Ok(resolved) ==> distinct_names(resolved)
            && well_formed_commands(resolved),
    decreases aliases.len(),
{
    if aliases.len() > 0 {
        assert forall|i: int| 0 <= i < aliases.drop_last().len() implies (
        #[trigger] aliases.drop_last()[i]).well_formed() by {
            assert(aliases[i].well_formed());
        }
        lemma_resolve_well_formed(entries, aliases.drop_last());
        if let Ok(before) = resolve_aliases(entries, aliases.drop_last()) {
            let edge = aliases.last();
            assert(aliases[aliases.len() - 1].well_formed());
            if let Some(args) = lookup(before, edge.target) {
                lemma_position(before, edge.target);
                let found = before[position(before, edge.target) as int];
                assert(found.well_formed());
                let copy = CommandModel { name: edge.alias, args };
                lemma_upsert_distinct(before, copy);
                lemma_upsert_well_formed(before, copy);
            }
        }
    }
}

/// In the registry that a listing describes, no two entries have the same
/// name, every name begins with `/`, and every choice lists at least one
/// word, each trimmed and not empty. This holds under every grammar.
pub proof fn lemma_registry_well_formed(g: Grammar, text: Seq<char>)
    ensures
        registry_of(listing(g, text)) matches Ok(entries) ==> distinct_names(entries)
            && well_formed_commands(entries),
{
    let declared = listing(g, text);
    lemma_listing_well_formed(g, split(text, '\n'));
    lemma_collect_distinct(declared.commands);
    lemma_collect_well_formed(declared.commands);
    lemma_resolve_well_formed(collect(declared.commands), declared.aliases);
}

/// Whether an edge finds its target when its turn comes: the target is the
/// name of an entry, or the alias of an edge that stands before it.
pub open spec fn target_defined(entries: Seq<CommandModel>, aliases: Seq<AliasModel>, k: int) -> bool {
    lookup(entries, aliases[k].target).is_some() || exists|j: int|
        0 <= j < k && (#[trigger] aliases[j]).alias == aliases[k].target
}

/// After the alias edges are resolved, the names of the registry are those of
/// the entries it began with and the aliases.
pub proof fn lemma_resolve_names(
    entries: Seq<CommandModel>,
    aliases: Seq<AliasModel>,
    name: Seq<char>,
)
    ensures
        resolve_aliases(entries, aliases) matches Ok(resolved) ==> (lookup(resolved, name).is_some()
            <==> lookup(entries, name).is_some() || exists|j: int|
            0 <= j < aliases.len() && (#[trigger] aliases[j]).alias == name),
    decreases aliases.len(),
{
    if aliases.len() > 0 {
        let init = aliases.drop_last();
        lemma_resolve_names(entries, init, name);
        if let Ok(before) = resolve_aliases(entries, init) {
            if let Some(args) = lookup(before, aliases.last().target) {
                let copy = CommandModel { name: aliases.last().alias, args };
                lemma_lookup_upsert(before, copy, name);
                if exists|j: int| 0 <= j < init.len() && (#[trigger] init[j]).alias == name {
                    let j = choose|j: int| 0 <= j < init.len() && (#[trigger] init[j]).alias == name;
                    assert(aliases[j].alias == name);
                }
                if aliases.last().alias == name {
                    assert(aliases[aliases.len() - 1].alias == name);
                }
                if exists|j: int| 0 <= j < aliases.len() && (#[trigger] aliases[j]).alias == name {
                    let j = choose|j: int|
                        0 <= j < aliases.len() && (#[trigger] aliases[j]).alias == name;
                    if j < init.len() {
                        assert(init[j].alias == name);
                    }
                }
            }
        }
    }
}

/// Resolution succeeds exactly where every edge finds its target when its
/// turn comes. So an alias of a target that the listing never defines fails
/// the construction, and nothing else does.
pub proof fn lemma_resolve_outcome(entries: Seq<CommandModel>, aliases: Seq<AliasModel>)
    ensures
        resolve_aliases(entries, aliases) is Ok <==> forall|k: int|
            0 <= k < aliases.len() ==> #[trigger] target_defined(entries, aliases, k),
        resolve_aliases(entries, aliases) matches Err(edge) ==> exists|k: int|
            0 <= k < aliases.len() && aliases[k] == edge && !#[trigger] target_defined(
                entries,
                aliases,
                k,
            ),
    decreases aliases.len(),
{
    if aliases.len() > 0 {
        let init = aliases.drop_last();
        let last = aliases.len() - 1;
        lemma_resolve_outcome(entries, init);
        assert forall|k: int| 0 <= k < init.len() implies target_defined(entries, init, k)
            == target_defined(entries, aliases, k) by {
            assert(init[k] == aliases[k]);
            if exists|j: int| 0 <= j < k && (#[trigger] init[j]).alias == init[k].target {
                let j = choose|j: int| 0 <= j < k && (#[trigger] init[j]).alias == init[k].target;
                assert(aliases[j].alias == aliases[k].target);
            }
            if exists|j: int| 0 <= j < k && (#[trigger] aliases[j]).alias == aliases[k].target {
                let j = choose|j: int|
                    0 <= j < k && (#[trigger] aliases[j]).alias == aliases[k].target;
                assert(init[j].alias == init[k].target);
            }
        }
        match resolve_aliases(entries, init) {
            Ok(before) => {
                lemma_resolve_names(entries, init, aliases.last().target);
                assert(lookup(before, aliases.last().target).is_some() == target_defined(
                    entries,
                    aliases,
                    last,
                )) by {
                    if exists|j: int|
                        0 <= j < init.len() && (#[trigger] init[j]).alias == aliases.last().target {
                        let j = choose|j: int|
                            0 <= j < init.len() && (#[trigger] init[j]).alias
                                == aliases.last().target;
                        assert(aliases[j].alias == aliases[last].target);
                    }
                    if exists|j: int|
                        0 <= j < last && (#[trigger] aliases[j]).alias == aliases[last].target {
                        let j = choose|j: int|
                            0 <= j < last && (#[trigger] aliases[j]).alias == aliases[last].target;
                        assert(init[j].alias == aliases.last().target);
                    }
                }
                if lookup(before, aliases.last().target).is_some() {
                    assert forall|k: int| 0 <= k < aliases.len() implies #[trigger] target_defined(
                        entries,
                        aliases,
                        k,
                    ) by {
                        if k < last {
                            assert(target_defined(entries, init, k));
                        }
                    }
                } else {
                    assert(aliases[last] == aliases.last());
                    assert(!target_defined(entries, aliases, last));
                }
            },
            Err(edge) => {
                let k = choose|k: int|
                    0 <= k < init.len() && init[k] == edge && !#[trigger] target_defined(
                        entries,
                        init,
                        k,
                    );
                assert(aliases[k] == edge);
                assert(!target_defined(entries, aliases, k));
            },
        }
    }
}

/// An alias takes over the arguments of its target, whether the line of the
/// target stands before the alias line or after it: the commands of the
/// whole listing are collected before any edge is resolved.
pub proof fn lemma_alias_takes_arguments(entries: Seq<CommandModel>, edge: AliasModel)
    requires
        lookup(entries, edge.target).is_some(),
    ensures
        resolve_aliases(entries, seq![edge]) matches Ok(resolved) && lookup(resolved, edge.alias)
            == lookup(entries, edge.target) && lookup(resolved, edge.target) == lookup(
            entries,
            edge.target,
        ),
{
    let one = seq![edge];
    assert(one.drop_last() =~= Seq::<AliasModel>::empty());
    assert(one.last() == edge);
    assert(resolve_aliases(entries, one.drop_last()) == Ok::<Seq<CommandModel>, AliasModel>(
        entries,
    ));
    let args = lookup(entries, edge.target).unwrap();
    let copy = CommandModel { name: edge.alias, args };
    lemma_lookup_upsert(entries, copy, edge.alias);
    lemma_lookup_upsert(entries, copy, edge.target);
}

/// The entries that a sequence of commands leaves have distinct names.
pub proof fn lemma_collect_distinct(commands: Seq<CommandModel>)
    ensures
        distinct_names(collect(commands)),
    decreases commands.len(),
{
    if commands.len() > 0 {
        lemma_collect_distinct(commands.drop_last());
        lemma_upsert_distinct(collect(commands.drop_last()), commands.last());
    }
}

/// A set of commands, each name once, in the order of first appearance.
pub struct CommandRegistry {
    entries: Vec<CommandSpec>,
}

impl View for CommandRegistry {
    type V = Seq<CommandModel>;

    closed spec fn view(&self) -> Seq<CommandModel> {
        self.entries.deep_view()
    }
}

impl CommandRegistry {
    #[verifier::type_invariant]
    spec fn names_are_distinct(&self) -> bool {
        distinct_names(self.entries.deep_view())
    }

    /// The registry without any command.
    pub fn new() -> (registry: Self)
        ensures
            registry@ == Seq::<CommandModel>::empty(),
    {
        let entries: Vec<CommandSpec> = Vec::new();
        assert(entries.deep_view() =~= Seq::<CommandModel>::empty());
        CommandRegistry { entries }
    }

    /// The number of commands.
    pub fn len(&self) -> (n: usize)
        ensures
            n == self@.len(),
    {
        self.entries.len()
    }

    /// The commands, in the registry's order. No two have the same name.
    pub fn entries(&self) -> (entries: &Vec<CommandSpec>)
        ensures
            entries.deep_view() == self@,
            distinct_names(self@),
    {
        proof {
            use_type_invariant(self);
        }
        &self.entries
    }

    /// The names of the commands, in the registry's order.
    pub fn names(&self) -> (listed: Vec<String>)
        ensures
            listed.deep_view() == names(self@),
    {
        let entries = &self.entries;
        let mut listed: Vec<String> = Vec::new();
        let mut i: usize = 0;
        while i < entries.len()
            invariant
                i <= entries.len(),
                entries.deep_view() == self@,
                listed@.len() == i,
                forall|j: int| 0 <= j < i ==> (#[trigger] listed@[j])@ == entries@[j].name@,
            decreases entries.len() - i,
        {
            listed.push(entries[i].name.clone());
            i += 1;
        }
        assert(listed.deep_view() =~= names(self@)) by {
            assert forall|j: int| 0 <= j < listed@.len() implies listed.deep_view()[j] == names(
                self@,
            )[j] by {
                assert(entries.deep_view()[j] == entries@[j]@);
            }
        }
        listed
    }

    /// The index of the command named `name`, or the number of commands.
    fn find(&self, name: &String) -> (i: usize)
        ensures
            i == position(self@, name@),
            i <= self.entries@.len(),
    {
        let ghost entries = self.entries.deep_view();
        let mut i: usize = 0;
        while i < self.entries.len() && self.entries[i].name != *name
            invariant
                i <= self.entries@.len(),
                entries == self.entries.deep_view(),
                forall|j: int| 0 <= j < i ==> is_not_named(name@)(#[trigger] entries[j]),
            decreases self.entries@.len() - i,
        {
            i += 1;
        }
        proof {
            lemma_prefix_run_is(entries, is_not_named(name@), i as nat);
        }
        i
    }

    /// The argument list of the command named `name`, if the registry has it.
    pub fn get(&self, name: &str) -> (args: Option<&Vec<ArgumentSpec>>)
        ensures
            args.deep_view() == lookup(self@, name@),
    {
        let i = self.find(&name.to_owned());
        if i < self.entries.len() {
            Some(&self.entries[i].args)
        } else {
            None
        }
    }

    /// Whether the registry has a command named `name`.
    pub fn contains(&self, name: &str) -> (found: bool)
        ensures
            found == lookup(self@, name@).is_some(),
    {
        self.find(&name.to_owned()) < self.entries.len()
    }

    /// The registry with a command put in: in the place of the command of the
    /// same name where there is one, at the end where there is none.
    pub fn insert(self, command: CommandSpec) -> (registry: Self)
        ensures
            registry@ == upsert(self@, command@),
    {
        proof {
            use_type_invariant(&self);
            lemma_upsert_distinct(self@, command@);
        }
        let i = self.find(&command.name);
        let mut entries = self.entries;
        let ghost before = entries.deep_view();
        if i < entries.len() {
            entries.set(i, command);
            assert(entries.deep_view() =~= before.update(i as int, command@));
        } else {
            entries.push(command);
            assert(entries.deep_view() =~= before.push(command@));
        }
        CommandRegistry { entries }
    }
}

/// Once an alias edge cannot be resolved, no later edge changes the outcome.
pub proof fn lemma_resolve_stops(entries: Seq<CommandModel>, aliases: Seq<AliasModel>, k: int)
    requires
        0 <= k <= aliases.len(),
        resolve_aliases(entries, aliases.take(k)) is Err,
    ensures
        resolve_aliases(entries, aliases) == resolve_aliases(entries, aliases.take(k)),
    decreases aliases.len(),
{
    if k == aliases.len() {
        assert(aliases.take(k) == aliases);
    } else {
        assert(aliases.drop_last().take(k) == aliases.take(k));
        lemma_resolve_stops(entries, aliases.drop_last(), k);
    }
}

/// The registry of the given commands and alias edges. The commands are put
/// in first, in order, so that an edge may stand before the line that defines
/// its target; then each edge gives its alias a copy of its target's
/// arguments. An edge whose target has no entry when its turn comes fails the
/// whole construction, and the error names that edge.
pub fn resolve(commands: &Vec<CommandSpec>, aliases: &Vec<AliasEdge>) -> (r: Result<
    CommandRegistry,
    GrammarError,
>)
    ensures
        match resolve_aliases(collect(commands.deep_view()), aliases.deep_view()) {
            Ok(entries) => r matches Ok(registry) && registry@ == entries,
            Err(edge) => r matches Err(GrammarError::UnknownAliasTarget { alias, target })
                && alias@ == edge.alias && target@ == edge.target,
        },
{
    let mut registry = CommandRegistry::new();
    let mut i: usize = 0;
    while i < commands.len()
        invariant
            i <= commands.len(),
            registry@ == collect(commands.deep_view().take(i as int)),
        decreases commands.len() - i,
    {
        proof {
            let upto = commands.deep_view().take(i + 1);
            assert(upto.drop_last() == commands.deep_view().take(i as int));
            assert(upto.last() == commands@[i as int]@);
        }
        registry = registry.insert(commands[i].clone());
        i += 1;
    }
    assert(commands.deep_view().take(commands@.len() as int) == commands.deep_view());
    let ghost start = registry@;
    i = 0;
    while i < aliases.len()
        invariant
            i <= aliases.len(),
            start == collect(commands.deep_view()),
            resolve_aliases(start, aliases.deep_view().take(i as int)) == Ok::<
                Seq<CommandModel>,
                AliasModel,
            >(registry@),
        decreases aliases.len() - i,
    {
        let edge = &aliases[i];
        proof {
            let upto = aliases.deep_view().take(i + 1);
            assert(upto.drop_last() == aliases.deep_view().take(i as int));
            assert(upto.last() == edge@);
        }
        let args = match registry.get(edge.target.as_str()) {
            Some(found) => clone_arguments(found),
            None => {
                proof {
                    lemma_resolve_stops(start, aliases.deep_view(), i + 1);
                }
                return Err(
                    GrammarError::UnknownAliasTarget {
                        alias: edge.alias.clone(),
                        target: edge.target.clone(),
                    },
                );
            },
        };
        registry = registry.insert(CommandSpec { name: edge.alias.clone(), args });
        i += 1;
    }
    assert(aliases.deep_view().take(aliases@.len() as int) == aliases.deep_view());
    Ok(registry)
}

/// The registry that a listing describes under a grammar. The text is taken
/// as it stands: it is read line by line, and each line is trimmed.
///
/// The construction fails where, and only where, an alias names a target that
/// has no entry when the alias is resolved; the error names the first such
/// edge. In the registry that it gives no two entries have the same name,
/// every name begins with `/`, and every choice lists at least one word, each
/// of them trimmed and not empty.
pub fn build_registry(grammar: &Grammar, text: &str) -> (r: Result<CommandRegistry, GrammarError>)
    ensures
        match registry_of(listing(*grammar, text@)) {
            Ok(entries) => r matches Ok(registry) && registry@ == entries,
            Err(edge) => r matches Err(GrammarError::UnknownAliasTarget { alias, target })
                && alias@ == edge.alias && target@ == edge.target,
        },
        r matches Ok(registry) ==> distinct_names(registry@) && well_formed_commands(registry@),
{
    proof {
        lemma_registry_well_formed(*grammar, text@);
    }
    let (commands, aliases) = grammar.parse(text);
    resolve(&commands, &aliases)
}

/// The registry that a listing describes under the grammar of this crate.
///
/// Where the expression compiler accepts the six sources of the grammar, the
/// result is the registry of the listing, or the first alias edge that cannot
/// be resolved. Where it refuses one of them, the error carries the first
/// source that it refuses. In the registry that it gives no two entries have
/// the same name, every name begins with `/`, and every choice lists at least
/// one word, each of them trimmed and not empty.
pub fn parse_commands(help: String) -> (r: Result<CommandRegistry, GrammarError>)
    ensures
        standard_accepted() ==> match registry_of(listing(standard(), help@)) {
            Ok(entries) => r matches Ok(registry) && registry@ == entries,
            Err(edge) => r matches Err(GrammarError::UnknownAliasTarget { alias, target })
                && alias@ == edge.alias && target@ == edge.target,
        },
        !standard_accepted() ==> (r matches Err(GrammarError::BadPattern(refused)) && refused@
            == first_refused()),
        r matches Ok(registry) ==> distinct_names(registry@) && well_formed_commands(registry@),
{
    match Grammar::new() {
        Ok(grammar) => build_registry(&grammar, help.as_str()),
        Err(e) => Err(e),
    }
}

} // verus!
