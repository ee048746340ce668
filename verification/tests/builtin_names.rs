use ion_win::builtin_names::{builtins, help_text, is_keyword, names};

#[test]
fn help_overview_is_categorized_and_actionable() {
    let text = help_text(None).unwrap();
    assert!(text.contains("Commands by category"));
    assert!(text.contains("help tables"));
    assert!(text.contains("help all"));
    assert!(!text.contains("builtins: exit, help, let"));
}

#[test]
fn every_registered_builtin_has_focused_help() {
    for builtin in builtins() {
        assert!(
            help_text(Some(builtin.name)).is_ok(),
            "missing focused help for {}",
            builtin.name
        );
    }
}

#[test]
fn focused_help_includes_usage_examples_and_safety_notes() {
    let delete = help_text(Some("delete")).unwrap();
    assert!(delete.contains("Usage:"));
    assert!(delete.contains("Examples:"));
    assert!(delete.contains("--permanent"));
    assert!(delete.contains("Recycle Bin"));

    assert_eq!(help_text(Some("cp")), help_text(Some("copy")));
    assert!(help_text(Some("tables")).unwrap().contains("$field"));
}

#[test]
fn unknown_help_topic_is_an_actionable_error() {
    let error = help_text(Some("nope")).unwrap_err();
    assert!(error.contains("unknown topic 'nope'"));
    assert!(error.contains("help all"));
}

#[test]
fn is_keyword_distinguishes_keywords_from_commands() {
    assert!(is_keyword("while"));
    assert!(is_keyword("let"));
    assert!(!is_keyword("echo"));
    assert!(!is_keyword("pvar"));
    assert!(!is_keyword("nonexistent"));
}

#[test]
fn names_includes_recently_added_builtins() {
    let list = names();
    let all: Vec<&str> = list.iter().map(|s| s.as_str()).collect();
    assert!(all.contains(&"highlight"));
    assert!(all.contains(&"source"));
    assert!(all.contains(&"bool"));
    assert!(all.contains(&"which"));
    assert!(all.contains(&"type"));
    assert!(all.contains(&"eval"));
    assert!(all.contains(&"from-json"));
    assert!(all.contains(&"select"));
    assert!(all.contains(&"where"));
    assert!(all.contains(&"filter"));
    assert!(all.contains(&"to-json"));
    assert!(all.contains(&"cat"));
    assert!(all.contains(&"stat"));
    assert!(all.contains(&"find"));
    assert!(all.contains(&"from-csv"));
    assert!(all.contains(&"to-csv"));
    assert!(all.contains(&"copy"));
    assert!(all.contains(&"cp"));
    assert!(all.contains(&"compress"));
    assert!(all.contains(&"delete"));
}

#[test]
fn the_outside_commands_have_pages_of_their_own() {
    for name in ["pg-connect", "elevate", "is-elevated", "date-column"] {
        let page = help_text(Some(name)).unwrap();
        assert!(page.contains(name), "{page}");
        assert!(names().iter().any(|known| known == name), "{name}");
    }
    assert!(help_text(Some("PG-CONNECT")).unwrap().contains("5432"));
    assert!(help_text(Some("elevate")).unwrap().contains("--wait"));
    assert!(help_text(Some("all")).unwrap().contains("is-elevated"));
}
