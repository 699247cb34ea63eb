use reword::store::{deck_name_from_arg, display_path, names_with_ext, strays, Store};

#[test]
fn deck_arg_forms() {
    assert_eq!(deck_name_from_arg("cantonese"), "cantonese");
    assert_eq!(deck_name_from_arg("cantonese.md"), "cantonese");
    assert_eq!(deck_name_from_arg("decks/cantonese.md"), "cantonese");
    assert_eq!(deck_name_from_arg("/x/y/decks/cantonese.md"), "cantonese");
}

#[test]
fn deck_arg_edge_forms() {
    assert_eq!(deck_name_from_arg(".md"), ".md");
    assert_eq!(deck_name_from_arg("notes.txt"), "notes.txt");
    assert_eq!(deck_name_from_arg("a/b/"), "b");
    assert_eq!(deck_name_from_arg(".."), "..");
}

fn store() -> Store {
    Store { root: "/home/u/reword".into() }
}

#[test]
fn paths_and_labels() {
    let s = store();
    assert_eq!(s.decks_dir(), "/home/u/reword/decks");
    assert_eq!(s.deck_path("a"), "/home/u/reword/decks/a.md");
    assert_eq!(s.log_path("a"), "/home/u/reword/decks/a.log");
    assert_eq!(s.config_path(), "/home/u/reword/config.toml");
    assert_eq!(s.params_path(), "/home/u/reword/params.toml");
    assert_eq!(s.deck_label("a"), "decks/a.md");
    assert_eq!(s.log_label("a"), "decks/a.log");
    assert_eq!(s.display(Some("/home/u")), "~/reword");
    assert_eq!(display_path("/home/u", Some("/home/u")), "~");
    assert_eq!(display_path("/home/uv/x", Some("/home/u")), "/home/uv/x");
}

#[test]
fn new_deck_names_are_checked() {
    assert!(Store::validate_new_deck_name("spanish").is_ok());
    assert_eq!(Store::validate_new_deck_name("").unwrap_err().message, "deck name is empty");
    assert_eq!(
        Store::validate_new_deck_name(".hidden").unwrap_err().message,
        "\".hidden\" is not a valid deck name (no slashes, no leading dot)"
    );
    assert!(Store::validate_new_deck_name("a/b").is_err());
    assert!(Store::validate_new_deck_name("a\\b").is_err());
}

#[test]
fn unknown_decks_get_hints() {
    let s = store();
    let decks = vec!["a".to_string(), "b".to_string()];
    assert_eq!(s.resolve_deck("decks/a.md", true, &decks).unwrap(), "a");
    let err = s.resolve_deck("zzz", false, &decks).unwrap_err();
    assert_eq!(err.message, "no deck named \"zzz\"");
    assert!(err.hint.unwrap().contains("Decks: a, b"));
    let decks = vec!["Cantonese".to_string(), "french".to_string()];
    let err = s.resolve_deck("canton", false, &decks).unwrap_err();
    assert_eq!(err.hint.unwrap(), "Did you mean Cantonese? Decks: Cantonese, french");
    let err = s.resolve_deck("x", false, &vec![]).unwrap_err();
    assert_eq!(
        err.hint.unwrap(),
        "There are no decks yet. Create one with `reword add x FRONT BACK`."
    );
    assert!(s.require(true, None).is_ok());
    let err = s.require(false, Some("/home/u")).unwrap_err();
    assert_eq!(err.to_text(), "no data directory at ~/reword\n  Run `reword init` to create it, or pass --dir / set $REWORD_DIR.");
}

#[test]
fn load_puts_deck_warnings_before_log_warnings() {
    let s = store();
    let ld = s.load(
        "t",
        "a::1\na::2\n",
        "2026-09-06T02:11:09Z\ta\tforward\trecall\tgood\t1000\nbroken\n",
    );
    assert_eq!(ld.name(), "t");
    assert_eq!(ld.warnings.len(), 2);
    assert_eq!(ld.warnings[0].file, "decks/t.md");
    assert_eq!(ld.warnings[1].file, "decks/t.log");
    assert_eq!(ld.warnings[1].line, 2);
    assert!(ld.warnings[1].message.ends_with("; line skipped"));
    assert_eq!(ld.ledger.reviews("a", reword::types::Goal::Forward).len(), 1);
}

#[test]
fn lists_decks_and_strays() {
    let files: Vec<String> = ["b.md", "a.md", "a.log", "gone.log", ".hidden.md", ".md", "notes.txt", "c.md.bak"]
        .iter()
        .map(|s| s.to_string())
        .collect();
    let decks = names_with_ext(&files, "md");
    assert_eq!(decks, vec!["a", "b"]);
    let logs = names_with_ext(&files, "log");
    assert_eq!(logs, vec!["a", "gone"]);
    assert_eq!(strays(&logs, &decks), vec!["gone"]);
    let st = store();
    assert!(st.resolve_deck("a.md", true, &decks).is_ok());
    let err = st.resolve_deck("zzz", false, &decks).unwrap_err();
    assert!(err.hint.unwrap().contains("Decks: a, b"));
}

#[test]
fn deck_names_sort_by_code_point() {
    let files: Vec<String> = ["食.md", "b.md", "B.md", "a.b.md"].iter().map(|s| s.to_string()).collect();
    assert_eq!(names_with_ext(&files, "md"), vec!["B", "a.b", "b", "食"]);
}
