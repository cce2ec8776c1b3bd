use rcon_shell::command::{ArgumentSpec, CommandSpec};
use rcon_shell::completion::{candidate_for, candidates_among, text_up_to, Candidate};
use rcon_shell::registry::{parse_commands, CommandRegistry};

fn word(s: &str) -> String {
    s.to_string()
}

fn offer(text: &str) -> Candidate {
    Candidate { display: word(text), replacement: format!("{} ", text) }
}

fn sample() -> CommandRegistry {
    let text = "/gamemode <mode> [<target>]\n/gamerule <rule> [<value>]\n/time (add|query|set) <value>\n/weather (clear|rain|thunder) [<duration>]\n/list";
    parse_commands(word(text)).unwrap()
}

#[test]
fn partial_name_offers_every_name_that_begins_with_it() {
    let registry = sample();
    let (start, found) = registry.complete("/gam", 4);
    assert_eq!(start, 0);
    assert_eq!(found, vec![offer("/gamemode"), offer("/gamerule")]);
    for candidate in &found {
        assert!(candidate.replacement.ends_with(' '));
    }
}

#[test]
fn partial_choice_offers_the_words_that_begin_with_it() {
    let registry = CommandRegistry::new().insert(CommandSpec {
        name: word("/time"),
        args: vec![
            ArgumentSpec::RequiredChoice(vec![word("add"), word("query"), word("set")]),
            ArgumentSpec::Required(word("value")),
        ],
    });
    let line = "/time s";
    let cursor = line.len();
    let (start, found) = registry.complete(line, cursor);
    assert_eq!(found, vec![offer("set")]);
    assert_eq!(start, cursor - 1);
}

#[test]
fn more_words_than_arguments_offers_nothing() {
    let registry = sample();
    assert_eq!(registry.complete("/time set 5 x", 13), (0, vec![]));
    assert_eq!(registry.complete("/list x", 7), (0, vec![]));
    assert_eq!(registry.complete("/time set 5 ", 12), (0, vec![]));
}

#[test]
fn unknown_command_offers_nothing() {
    let registry = sample();
    assert_eq!(registry.complete("/nothing s", 10), (0, vec![]));
    assert_eq!(registry.complete("time s", 6), (0, vec![]));
    assert_eq!(registry.complete(" /time s", 8), (0, vec![]));
}

#[test]
fn placeholder_is_not_completed() {
    let registry = sample();
    assert_eq!(registry.complete("/gamemode cre", 13), (10, vec![]));
    assert_eq!(registry.complete("/gamemode creative Al", 21), (19, vec![]));
}

#[test]
fn argument_under_the_cursor_is_found_by_counting_words() {
    let registry = sample();
    assert_eq!(registry.complete("/time 5 q", 9), (8, vec![offer("query")]));
    assert_eq!(registry.complete("/time q", 7), (6, vec![]));
    assert_eq!(registry.complete("/weather 10 r", 13), (12, vec![offer("rain")]));
}

#[test]
fn empty_word_offers_every_choice() {
    let registry = sample();
    assert_eq!(
        registry.complete("/time 5 ", 8),
        (8, vec![offer("add"), offer("query"), offer("set")])
    );
    let (start, found) = registry.complete("", 0);
    assert_eq!(start, 0);
    assert_eq!(found.len(), 5);
    assert_eq!(found[0], offer("/gamemode"));
    assert_eq!(found[4], offer("/list"));
}

#[test]
fn two_spaces_enclose_an_empty_word() {
    let registry = sample();
    assert_eq!(registry.complete("/time  s", 8), (7, vec![offer("set")]));
}

#[test]
fn only_the_text_before_the_cursor_counts() {
    let registry = sample();
    assert_eq!(registry.complete("/time 5 set", 9), (8, vec![offer("set")]));
    assert_eq!(registry.complete("/gamemode x", 4), (0, vec![offer("/gamemode"), offer("/gamerule")]));
    assert_eq!(registry.complete("/time 5 set", 6), (6, vec![]));
}

#[test]
fn whole_name_is_still_a_candidate() {
    let registry = sample();
    assert_eq!(registry.complete("/list", 5), (0, vec![offer("/list")]));
    assert_eq!(registry.complete("/listx", 6), (0, vec![]));
}

#[test]
fn offset_is_counted_in_bytes() {
    let registry = CommandRegistry::new().insert(CommandSpec {
        name: word("/dire"),
        args: vec![
            ArgumentSpec::Required(word("qui")),
            ArgumentSpec::OptionalChoice(vec![word("\u{e9}t\u{e9}"), word("\u{e9}cole"), word("hiver")]),
        ],
    });
    let line = "/dire \u{e0} \u{e9}";
    assert_eq!(line.len(), 11);
    assert_eq!(
        registry.complete(line, 11),
        (9, vec![offer("\u{e9}t\u{e9}"), offer("\u{e9}cole")])
    );
    assert_eq!(registry.complete(line, 9), (9, vec![offer("\u{e9}t\u{e9}"), offer("\u{e9}cole"), offer("hiver")]));
}

#[test]
fn empty_registry_offers_nothing() {
    let registry = CommandRegistry::new();
    assert_eq!(registry.complete("/gam", 4), (0, vec![]));
    assert_eq!(registry.complete("/time s", 7), (0, vec![]));
    assert_eq!(registry.hint("/gam"), None);
}

#[test]
fn candidate_is_the_word_and_the_word_with_a_space() {
    assert_eq!(candidate_for(&word("set")), offer("set"));
    assert_eq!(candidate_for(&word("")), Candidate { display: word(""), replacement: word(" ") });
}

#[test]
fn candidates_keep_the_order_of_the_words() {
    let list = vec![word("set"), word("add"), word("say"), word("s"), word("")];
    let typed: Vec<char> = "s".chars().collect();
    assert_eq!(candidates_among(&list, &typed), vec![offer("set"), offer("say"), offer("s")]);
    let typed: Vec<char> = "sets".chars().collect();
    assert_eq!(candidates_among(&list, &typed), vec![]);
    assert_eq!(candidates_among(&list, &vec![]).len(), 5);
}

#[test]
fn hint_is_the_rest_of_the_name() {
    let registry = sample();
    assert_eq!(registry.hint("/gamem"), Some(word("ode")));
    assert_eq!(registry.hint("/t"), Some(word("ime")));
    assert_eq!(registry.hint("/list"), Some(word("")));
}

#[test]
fn hint_takes_the_first_name_in_the_registry() {
    let registry = sample();
    assert_eq!(registry.hint("/gam"), Some(word("emode")));
    assert_eq!(registry.hint("/game"), Some(word("mode")));
    assert_eq!(registry.hint("/gamer"), Some(word("ule")));
}

#[test]
fn no_hint_outside_a_command_name() {
    let registry = sample();
    assert_eq!(registry.hint("/"), None);
    assert_eq!(registry.hint(""), None);
    assert_eq!(registry.hint("/gamemode "), None);
    assert_eq!(registry.hint("/time s"), None);
    assert_eq!(registry.hint(" /gam"), None);
    assert_eq!(registry.hint("gam"), None);
    assert_eq!(registry.hint("g"), None);
    assert_eq!(registry.hint("/nothing"), None);
    assert_eq!(registry.hint("/listing"), None);
}

#[test]
fn text_before_the_cursor_is_cut_at_a_byte_offset() {
    assert_eq!(text_up_to("/dire \u{e0} vous", 8), Some("/dire \u{e0}"));
    assert_eq!(text_up_to("/dire", 0), Some(""));
    assert_eq!(text_up_to("/dire", 5), Some("/dire"));
    assert_eq!(text_up_to("", 0), Some(""));
    assert_eq!(text_up_to("/dire \u{e0} vous", 7), None);
    assert_eq!(text_up_to("/dire", 6), None);
}

#[test]
fn cursor_off_a_boundary_offers_nothing() {
    let registry = sample();
    assert_eq!(registry.complete("/time", 6), (0, vec![]));
    assert_eq!(registry.complete("/t\u{e9}", 3), (0, vec![]));
    assert_eq!(registry.complete("", 1), (0, vec![]));
}
