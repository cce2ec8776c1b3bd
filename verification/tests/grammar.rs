use rcon_shell::command::{AliasEdge, ArgumentSpec, CommandSpec};
use rcon_shell::grammar::{
    begins_with_slash, build_arguments, compile_pattern, is_enclosed, read_alias_edge,
    read_captured, read_captured_outside, read_choice_words, read_command_head, Grammar,
    GrammarError, ALIAS_PATTERN, COMMAND_PATTERN, OPTIONAL_CHOICE_PATTERN, OPTIONAL_PATTERN,
    REQUIRED_CHOICE_PATTERN, REQUIRED_PATTERN,
};
use rcon_shell::pattern::Capture;
use rcon_shell::registry::build_registry;

fn grammar() -> Grammar {
    Grammar::new().unwrap()
}

fn word(s: &str) -> String {
    s.to_string()
}

fn words(list: &[&str]) -> Vec<String> {
    list.iter().map(|s| s.to_string()).collect()
}

fn capture(start: usize, text: &str) -> Option<Capture> {
    Some(Capture { start, end: start + text.len(), text: text.to_string() })
}

#[test]
fn gamemode_line_lists_required_then_optional() {
    let (commands, aliases) = grammar().parse("/gamemode <mode> [<target>]");
    assert!(aliases.is_empty());
    assert_eq!(
        commands,
        vec![CommandSpec {
            name: word("/gamemode"),
            args: vec![ArgumentSpec::Required(word("mode")), ArgumentSpec::Optional(word("target"))],
        }]
    );
}

#[test]
fn time_line_lists_required_before_choice() {
    let (commands, _) = grammar().parse("/time (add|query|set) <value>");
    assert_eq!(commands.len(), 1);
    assert_eq!(commands[0].name, "/time");
    assert_eq!(
        commands[0].args,
        vec![
            ArgumentSpec::Required(word("value")),
            ArgumentSpec::RequiredChoice(words(&["add", "query", "set"])),
        ]
    );
}

#[test]
fn arguments_come_in_the_order_of_the_kinds() {
    let args = grammar().parse_descriptor(" [x|y] (a|b) [<o>] <r> (c|d) <s>");
    assert_eq!(
        args,
        vec![
            ArgumentSpec::Required(word("r")),
            ArgumentSpec::Required(word("s")),
            ArgumentSpec::Optional(word("o")),
            ArgumentSpec::RequiredChoice(words(&["a", "b"])),
            ArgumentSpec::RequiredChoice(words(&["c", "d"])),
            ArgumentSpec::OptionalChoice(words(&["x", "y"])),
        ]
    );
}

#[test]
fn choice_words_are_trimmed() {
    assert_eq!(read_choice_words(" add | query|set "), words(&["add", "query", "set"]));
    assert_eq!(read_choice_words("one"), words(&["one"]));
    assert_eq!(read_choice_words("a||b"), words(&["a", "b"]));
    assert_eq!(read_choice_words("| a |  | b |"), words(&["a", "b"]));
    assert_eq!(read_choice_words(""), words(&[]));
    assert_eq!(read_choice_words(" \t "), words(&[]));
    assert_eq!(read_choice_words("|"), words(&[]));
    assert_eq!(read_choice_words("\u{e9}t\u{e9} | hiver"), words(&["\u{e9}t\u{e9}", "hiver"]));
    let args = grammar().parse_descriptor(" ( easy | hard )");
    assert_eq!(args, vec![ArgumentSpec::RequiredChoice(words(&["easy", "hard"]))]);
}

#[test]
fn choice_group_without_a_word_gives_no_argument() {
    assert_eq!(grammar().parse_descriptor(" ( )"), vec![]);
    assert_eq!(grammar().parse_descriptor(" (|) [ | ]"), vec![]);
    assert_eq!(
        grammar().parse_descriptor(" ( ) (a||b) [ |x| ] [|]"),
        vec![
            ArgumentSpec::RequiredChoice(words(&["a", "b"])),
            ArgumentSpec::OptionalChoice(words(&["x"])),
        ]
    );
    let args = build_arguments(&words(&[]), &words(&[]), &words(&["", "a", " | "]), &words(&["|", "b|"]));
    assert_eq!(
        args,
        vec![
            ArgumentSpec::RequiredChoice(words(&["a"])),
            ArgumentSpec::OptionalChoice(words(&["b"])),
        ]
    );
}

#[test]
fn every_choice_of_a_registry_has_words_that_are_not_empty() {
    let text = "/x (a||b) [ | ] ( ) <v>\n/y [on| |off] (|)\n/z ( one )";
    let registry = build_registry(&grammar(), text).unwrap();
    assert_eq!(
        registry.get("/x"),
        Some(&vec![
            ArgumentSpec::Required(word("v")),
            ArgumentSpec::RequiredChoice(words(&["a", "b"])),
        ])
    );
    assert_eq!(registry.get("/y"), Some(&vec![ArgumentSpec::OptionalChoice(words(&["on", "off"]))]));
    assert_eq!(registry.get("/z"), Some(&vec![ArgumentSpec::RequiredChoice(words(&["one"]))]));
    for command in registry.entries() {
        for arg in &command.args {
            if let ArgumentSpec::RequiredChoice(list) | ArgumentSpec::OptionalChoice(list) = arg {
                assert!(!list.is_empty());
                for literal in list {
                    assert!(!literal.is_empty());
                    assert_eq!(literal.trim(), literal);
                }
            }
        }
    }
}

#[test]
fn bracket_without_a_bar_is_no_choice() {
    assert_eq!(grammar().parse_descriptor(" [plain]"), vec![]);
    assert_eq!(
        grammar().parse_descriptor(" [on|off]"),
        vec![ArgumentSpec::OptionalChoice(words(&["on", "off"]))]
    );
}

#[test]
fn command_without_arguments() {
    let (commands, aliases) = grammar().parse("/list");
    assert_eq!(commands, vec![CommandSpec { name: word("/list"), args: vec![] }]);
    assert!(aliases.is_empty());
}

#[test]
fn name_is_the_longest_run_of_word_characters() {
    let (command, _) = grammar().parse_line("/save-all flush");
    let command = command.unwrap();
    assert_eq!(command.name, "/save");
    assert!(command.args.is_empty());
    let (command, _) = grammar().parse_line("/ban_ip2<target>");
    let command = command.unwrap();
    assert_eq!(command.name, "/ban_ip2");
    assert_eq!(command.args, vec![ArgumentSpec::Required(word("target"))]);
}

#[test]
fn lines_that_match_nothing_are_passed_over() {
    let text = "--- Showing help page 1 of 3 ---\n/help [<command>]\nnot a command\n/ alone\n\n   \n/list";
    let (commands, aliases) = grammar().parse(text);
    assert!(aliases.is_empty());
    assert_eq!(commands.len(), 2);
    assert_eq!(commands[0].name, "/help");
    assert_eq!(commands[0].args, vec![ArgumentSpec::Optional(word("command"))]);
    assert_eq!(commands[1].name, "/list");
    assert_eq!(grammar().parse(""), (vec![], vec![]));
    assert_eq!(grammar().parse_line("help"), (None, None));
}

#[test]
fn lines_are_trimmed_before_they_are_read() {
    let (commands, _) = grammar().parse("   /kick <target>  \r\n\t/kill\r\n");
    assert_eq!(commands.len(), 2);
    assert_eq!(commands[0].name, "/kick");
    assert_eq!(commands[0].args, vec![ArgumentSpec::Required(word("target"))]);
    assert_eq!(commands[1].name, "/kill");
}

#[test]
fn alias_line_gives_a_command_and_an_edge() {
    let (command, edge) = grammar().parse_line("/tp -> teleport");
    assert_eq!(command, Some(CommandSpec { name: word("/tp"), args: vec![] }));
    assert_eq!(edge, Some(AliasEdge { alias: word("/tp"), target: word("/teleport") }));
    let (_, edge) = grammar().parse_line("/w->tell");
    assert_eq!(edge, Some(AliasEdge { alias: word("/w"), target: word("/tell") }));
    let (_, edge) = grammar().parse_line("/msg  \t->   tell and more");
    assert_eq!(edge, Some(AliasEdge { alias: word("/msg"), target: word("/tell") }));
    let (_, edge) = grammar().parse_line("/tp - > teleport");
    assert_eq!(edge, None);
    let (_, edge) = grammar().parse_line("/tp -> /teleport");
    assert_eq!(edge, None);
}

#[test]
fn commands_keep_the_order_of_the_lines() {
    let (commands, aliases) = grammar().parse("/b\n/a <x>\n/b <y>\n/c -> a\n/d -> b");
    let names: Vec<&str> = commands.iter().map(|c| c.name.as_str()).collect();
    assert_eq!(names, vec!["/b", "/a", "/b", "/c", "/d"]);
    assert_eq!(
        aliases,
        vec![
            AliasEdge { alias: word("/c"), target: word("/a") },
            AliasEdge { alias: word("/d"), target: word("/b") },
        ]
    );
}

#[test]
fn head_is_read_from_groups_one_and_two() {
    let found = Some(vec![capture(0, "/time set"), capture(0, "/time"), capture(5, " set")]);
    assert_eq!(read_command_head(&found), Some((word("/time"), word(" set"))));
    let no_descriptor = Some(vec![capture(0, "/time"), capture(0, "/time")]);
    assert_eq!(read_command_head(&no_descriptor), Some((word("/time"), word(""))));
    let absent_descriptor = Some(vec![capture(0, "/time"), capture(0, "/time"), None]);
    assert_eq!(read_command_head(&absent_descriptor), Some((word("/time"), word(""))));
    let no_slash = Some(vec![capture(0, "time set"), capture(0, "time"), capture(4, " set")]);
    assert_eq!(read_command_head(&no_slash), None);
    let empty_name = Some(vec![capture(0, ""), capture(0, ""), capture(0, "")]);
    assert_eq!(read_command_head(&empty_name), None);
    assert_eq!(read_command_head(&Some(vec![capture(0, "/time")])), None);
    assert_eq!(read_command_head(&Some(vec![capture(0, "/time"), None])), None);
    assert_eq!(read_command_head(&Some(vec![])), None);
    assert_eq!(read_command_head(&None), None);
}

#[test]
fn edge_is_read_from_groups_one_and_two() {
    let found = Some(vec![capture(0, "/tp -> teleport"), capture(0, "/tp"), capture(7, "teleport")]);
    assert_eq!(
        read_alias_edge(&found),
        Some(AliasEdge { alias: word("/tp"), target: word("/teleport") })
    );
    let no_slash = Some(vec![capture(0, "tp -> teleport"), capture(0, "tp"), capture(6, "teleport")]);
    assert_eq!(read_alias_edge(&no_slash), None);
    assert_eq!(read_alias_edge(&Some(vec![capture(0, "/tp"), capture(0, "/tp")])), None);
    assert_eq!(read_alias_edge(&Some(vec![capture(0, "/tp"), capture(0, "/tp"), None])), None);
    assert_eq!(read_alias_edge(&Some(vec![capture(0, "/tp"), None, capture(0, "x")])), None);
    assert_eq!(read_alias_edge(&None), None);
}

#[test]
fn captured_texts_are_those_of_group_one() {
    let found = vec![
        vec![capture(1, "<a>"), capture(2, "a")],
        vec![capture(5, "<b>")],
        vec![capture(9, "<c>"), None],
        vec![capture(13, "<d>"), capture(14, "d"), capture(14, "ignored")],
    ];
    assert_eq!(read_captured(&found), words(&["a", "d"]));
    assert_eq!(read_captured(&vec![]), words(&[]));
}

#[test]
fn match_within_another_is_enclosed() {
    let outer = vec![vec![capture(4, "[<b>]"), capture(6, "b")], vec![capture(20, "[<c>]")]];
    assert!(is_enclosed(&vec![capture(5, "<b>"), capture(6, "b")], &outer));
    assert!(is_enclosed(&vec![capture(4, "[<b>]")], &outer));
    assert!(is_enclosed(&vec![capture(21, "<c>")], &outer));
    assert!(!is_enclosed(&vec![capture(0, "<a>")], &outer));
    assert!(!is_enclosed(&vec![capture(3, "x[<b>")], &outer));
    assert!(!is_enclosed(&vec![capture(5, "<b>]x")], &outer));
    assert!(!is_enclosed(&vec![capture(5, "<b>")], &vec![]));
    assert!(!is_enclosed(&vec![capture(5, "<b>")], &vec![vec![], vec![None]]));
    assert!(!is_enclosed(&vec![], &outer));
    assert!(!is_enclosed(&vec![None, capture(6, "b")], &outer));
}

#[test]
fn enclosed_matches_are_left_out() {
    let required = vec![
        vec![capture(1, "<a>"), capture(2, "a")],
        vec![capture(6, "<b>"), capture(7, "b")],
        vec![capture(11, "<c>"), capture(12, "c")],
    ];
    let optional = vec![vec![capture(5, "[<b>]"), capture(7, "b")]];
    assert_eq!(read_captured_outside(&required, &optional), words(&["a", "c"]));
    assert_eq!(read_captured_outside(&required, &vec![]), words(&["a", "b", "c"]));
}

#[test]
fn argument_list_is_built_kind_by_kind() {
    let args = build_arguments(
        &words(&["value"]),
        &words(&["target", "other"]),
        &words(&["add| query |set"]),
        &words(&["on|off", "x"]),
    );
    assert_eq!(
        args,
        vec![
            ArgumentSpec::Required(word("value")),
            ArgumentSpec::Optional(word("target")),
            ArgumentSpec::Optional(word("other")),
            ArgumentSpec::RequiredChoice(words(&["add", "query", "set"])),
            ArgumentSpec::OptionalChoice(words(&["on", "off"])),
            ArgumentSpec::OptionalChoice(words(&["x"])),
        ]
    );
    assert_eq!(build_arguments(&vec![], &vec![], &vec![], &vec![]), vec![]);
}

#[test]
fn refused_expression_is_reported_with_its_source() {
    assert_eq!(compile_pattern("(").err(), Some(GrammarError::BadPattern(word("("))));
    assert_eq!(compile_pattern("[a").err(), Some(GrammarError::BadPattern(word("[a"))));
    assert!(compile_pattern("a+").is_ok());
}

#[test]
fn expressions_of_the_grammar_are_accepted() {
    for source in [
        COMMAND_PATTERN,
        REQUIRED_PATTERN,
        OPTIONAL_PATTERN,
        REQUIRED_CHOICE_PATTERN,
        OPTIONAL_CHOICE_PATTERN,
        ALIAS_PATTERN,
    ] {
        assert_eq!(compile_pattern(source).unwrap().as_str(), source);
    }
    assert!(Grammar::new().is_ok());
}

#[test]
fn grammar_of_other_expressions_reads_other_lines() {
    let custom = Grammar {
        command: compile_pattern("^(/[a-z]+)(.*)").unwrap(),
        required: compile_pattern("\\{([^}]+)\\}").unwrap(),
        optional: compile_pattern("\\[\\{([^}]+)\\}\\]").unwrap(),
        required_choice: compile_pattern("\\(([^)]+)\\)").unwrap(),
        optional_choice: compile_pattern("\\[([^\\]]+\\|[^\\]]+)\\]").unwrap(),
        alias: compile_pattern("^(/[a-z]+) = ([a-z]+)").unwrap(),
    };
    let (commands, aliases) = custom.parse("/give {item} [{count}] <not>\n/g = give");
    assert_eq!(commands.len(), 2);
    assert_eq!(
        commands[0].args,
        vec![ArgumentSpec::Required(word("item")), ArgumentSpec::Optional(word("count"))]
    );
    assert_eq!(aliases, vec![AliasEdge { alias: word("/g"), target: word("/give") }]);
    let registry = build_registry(&custom, "/give {item}\n/g = give").unwrap();
    assert_eq!(registry.get("/g"), Some(&vec![ArgumentSpec::Required(word("item"))]));
}

#[test]
fn placeholder_before_a_multibyte_character_is_still_enclosed() {
    let args = grammar().parse_descriptor(" \u{e9} [<a>] <b>");
    assert_eq!(args, vec![ArgumentSpec::Required(word("b")), ArgumentSpec::Optional(word("a"))]);
}

#[test]
fn slash_test_looks_at_the_first_character() {
    assert!(begins_with_slash("/"));
    assert!(begins_with_slash("/tp"));
    assert!(!begins_with_slash(""));
    assert!(!begins_with_slash("tp/"));
    assert!(!begins_with_slash("\u{e9}/"));
}

#[test]
fn copies_are_equal_to_what_was_copied() {
    let spec = CommandSpec {
        name: word("/time"),
        args: vec![
            ArgumentSpec::Required(word("value")),
            ArgumentSpec::Optional(word("o")),
            ArgumentSpec::RequiredChoice(words(&["add", "set"])),
            ArgumentSpec::OptionalChoice(words(&["x"])),
        ],
    };
    assert_eq!(spec.clone(), spec);
    let edge = AliasEdge { alias: word("/tp"), target: word("/teleport") };
    assert_eq!(edge.clone(), edge);
}
