use reword::complete::{dir_flag, first_positional_after, positionals_after, selected_decks, takes_value, with_prefix};

fn words(s: &str) -> Vec<String> {
    s.split(' ').map(String::from).collect()
}

#[test]
fn command_line_words() {
    assert!(takes_value("--under"));
    assert!(takes_value("--dir=x"));
    assert!(!takes_value("--typed"));
    let args = words("reword review -m 5 a --typed b --under=food c -- d");
    assert_eq!(positionals_after(&args, "review"), vec!["a", "b", "c", "d"]);
    assert_eq!(first_positional_after(&words("reword rename deck old"), "rename"), Some("deck".to_string()));
    assert_eq!(positionals_after(&words("reword add x"), "review"), Vec::<String>::new());
    assert_eq!(dir_flag(&words("reword --dir /tmp/x review")), Some("/tmp/x".to_string()));
    assert_eq!(dir_flag(&words("reword --dir=/tmp/y")), Some("/tmp/y".to_string()));
    assert_eq!(dir_flag(&words("reword review")), None);
    assert_eq!(selected_decks(&words("reword review"), vec!["all".to_string()]), vec!["all"]);
    assert_eq!(with_prefix(&words("cantonese french canto"), "can"), vec!["cantonese", "canto"]);
}
