//! The rules of the command line.

use codetracer_ton_recorder::cli::{
    default_out_dir, equal_ignoring_case, recording_disabled, resolve_out_dir,
};

#[test]
fn the_flag_wins_over_the_environment() {
    assert_eq!(resolve_out_dir(Some("flag"), Some("env"), false, "default"), "flag");
    assert_eq!(resolve_out_dir(Some("flag"), None, false, "default"), "flag");
}

#[test]
fn the_environment_wins_over_the_default_unless_it_is_empty() {
    assert_eq!(resolve_out_dir(None, Some("env"), false, "default"), "env");
    assert_eq!(resolve_out_dir(None, Some(""), true, "default"), "default");
    assert_eq!(resolve_out_dir(None, None, false, default_out_dir()), "./ct-traces/");
}

#[test]
fn recording_is_switched_off_by_one_or_true() {
    for value in ["1", " 1\n", "true", "TRUE", "\tTrue "] {
        assert!(recording_disabled(Some(value)), "{value:?}");
    }
    for value in ["", "0", "11", "yes", "truee", "t rue"] {
        assert!(!recording_disabled(Some(value)), "{value:?}");
    }
    assert!(!recording_disabled(None));
}

#[test]
fn only_the_case_of_ascii_letters_is_ignored() {
    assert!(equal_ignoring_case("aZ09_", "Az09_"));
    assert!(!equal_ignoring_case("[", "{"));
    assert!(!equal_ignoring_case("\u{c4}", "\u{e4}"));
    assert!(!equal_ignoring_case("ab", "abc"));
}
