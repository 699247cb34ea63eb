use reword::term::{ask_answer, confirm_answer, confirm_prompt, hint_column, styles, Style};

#[test]
fn styles_and_answers() {
    assert_eq!(Style { on: true }.bold("x"), "\x1b[1mx\x1b[0m");
    assert_eq!(Style { on: false }.red("x"), "x");
    let t = styles(false, false, false, true, false, true, false, false);
    assert!(t.out.on && !t.err.on && t.interactive);
    let t = styles(false, true, false, true, true, true, true, true);
    assert!(!t.out.on && !t.interactive && t.quiet);
    assert_eq!(confirm_prompt("Create it?", true), "Create it? [Y/n] ");
    assert_eq!(confirm_answer("", true), Some(true));
    assert_eq!(confirm_answer("  YES ", false), Some(true));
    assert_eq!(confirm_answer("n", true), Some(false));
    assert_eq!(confirm_answer("maybe", true), None);
    assert_eq!(ask_answer("   "), None);
    assert_eq!(ask_answer("  deck  "), Some("deck".to_string()));
    assert_eq!(hint_column(10, 80), 38);
    assert_eq!(hint_column(50, 80), 2);
}
