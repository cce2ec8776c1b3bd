use rcon_shell::response::{format_generic_response, INCORRECT_ARGUMENT, UNKNOWN_COMMAND};

#[test]
fn error_report_is_set_on_two_lines() {
    assert_eq!(
        format_generic_response("Unknown or incomplete command, see below for error/foo<--[HERE]"),
        "Unknown or incomplete command, see below for error\n/foo<--[HERE]"
    );
    assert_eq!(
        format_generic_response("Incorrect argument for command   \t/time bad<--[HERE]"),
        "Incorrect argument for command\n/time bad<--[HERE]"
    );
    assert_eq!(format_generic_response("Incorrect argument for command"), "Incorrect argument for command\n");
    assert_eq!(
        format_generic_response("Incorrect argument for command  tail  "),
        "Incorrect argument for command\ntail  "
    );
}

#[test]
fn other_response_is_shown_as_it_is() {
    assert_eq!(format_generic_response("There are 0 of a max of 20 players online"), "There are 0 of a max of 20 players online");
    assert_eq!(format_generic_response(""), "");
    assert_eq!(format_generic_response(" Incorrect argument for command"), " Incorrect argument for command");
    assert_eq!(format_generic_response("Incorrect argument"), "Incorrect argument");
    assert_eq!(format_generic_response("  padded  "), "  padded  ");
}

#[test]
fn headings_are_the_two_error_openings() {
    assert_eq!(UNKNOWN_COMMAND, "Unknown or incomplete command, see below for error");
    assert_eq!(INCORRECT_ARGUMENT, "Incorrect argument for command");
}
