use link_checker::cli::{usage_line, Args};
use link_checker::report::{check_link_validity, checking_line, dead_link_line, unreadable_line};

#[test]
fn dead_link_is_reported_with_its_address() {
    assert_eq!(
        check_link_validity("http://nowhere.invalid/x?y=1", true),
        Some("--- Dead link : http://nowhere.invalid/x?y=1".to_string())
    );
    assert_eq!(check_link_validity("", true), Some("--- Dead link : ".to_string()));
}

#[test]
fn answered_link_is_not_reported() {
    assert_eq!(check_link_validity("http://example.com", false), None);
    assert_eq!(check_link_validity("", false), None);
}

#[test]
fn dead_link_line_keeps_the_address_unchanged() {
    assert_eq!(dead_link_line("mylink.com"), "--- Dead link : mylink.com");
    assert_eq!(dead_link_line(" a b "), "--- Dead link :  a b ");
}

#[test]
fn checking_line_names_the_file() {
    assert_eq!(checking_line("\"docs/README.md\""), "checking \"docs/README.md\" ..");
    assert_eq!(checking_line(""), "checking  ..");
}

#[test]
fn unreadable_line_names_file_and_reason() {
    assert_eq!(
        unreadable_line("\"a.md\"", "Permission denied (os error 13)"),
        "Can't read file \"a.md\" (beacuse Permission denied (os error 13))"
    );
}

#[test]
fn usage_line_text() {
    assert_eq!(usage_line(), "Usage: link-checker dir-path");
}

#[test]
fn one_argument_is_the_directory() {
    let words = vec!["link-checker".to_string(), "docs".to_string()];
    let args = Args::from_command_line(&words);
    assert_eq!(args.map(|a| a.target_dir), Some("docs".to_string()));
}

#[test]
fn any_other_number_of_arguments_is_refused() {
    assert!(Args::from_command_line(&vec![]).is_none());
    assert!(Args::from_command_line(&vec!["link-checker".to_string()]).is_none());
    let three = vec!["link-checker".to_string(), "a".to_string(), "b".to_string()];
    assert!(Args::from_command_line(&three).is_none());
}
