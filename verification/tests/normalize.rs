use rcon_shell::normalize::format_help_response;

#[test]
fn entries_on_one_line_are_split() {
    assert_eq!(format_help_response("/help/list/say <message>"), "/help\n/list\n/say <message>");
}

#[test]
fn first_character_gets_no_break() {
    assert_eq!(format_help_response("/help"), "/help");
    assert_eq!(format_help_response("/"), "/");
}

#[test]
fn prefix_after_line_break_is_left_alone() {
    assert_eq!(format_help_response("/ban <target>\n/kick <target>"), "/ban <target>\n/kick <target>");
}

#[test]
fn exactly_one_break_before_each_prefix_in_mid_line() {
    assert_eq!(format_help_response("a//b"), "a\n/\n/b");
    assert_eq!(format_help_response("/a\n//b"), "/a\n/\n/b");
}

#[test]
fn other_characters_pass_through() {
    assert_eq!(format_help_response("plain text\twith\\back"), "plain text\twith\\back");
    assert_eq!(format_help_response("caf\u{e9}/th\u{e9}"), "caf\u{e9}\n/th\u{e9}");
}

#[test]
fn result_is_trimmed() {
    assert_eq!(format_help_response("  /a /b  \n"), "/a \n/b");
    assert_eq!(format_help_response("\n\n/a\n\n"), "/a");
    assert_eq!(format_help_response(" \t\n "), "");
    assert_eq!(format_help_response(""), "");
}

#[test]
fn line_break_types_are_not_confused() {
    assert_eq!(format_help_response("/a\r/b"), "/a\r\n/b");
}

#[test]
fn normalizing_twice_changes_nothing() {
    let samples = [
        "/help/list",
        "  /a /b  \n",
        "a//b",
        "/gamemode <mode> [<target>]/time (add|query|set) <value>",
        "no prefix at all",
        "",
        " / ",
    ];
    for sample in samples {
        let once = format_help_response(sample);
        assert_eq!(format_help_response(&once), once);
    }
}
