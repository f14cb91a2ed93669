use distributed_owners::errors::OwnersError;
use distributed_owners::owners_file::{
    maybe_get_file_pattern, maybe_get_include, FileStore, OwnersFileConfig,
};
use distributed_owners::owners_set::OwnersSet;

fn is_error_with_text<T>(result: Result<T, OwnersError>, contents: &str) -> bool {
    if result.is_ok() {
        return false;
    }
    let error = result.err().unwrap();
    let message = error.message();
    if message.contains(contents) {
        return true;
    }
    println!("Error message missing expected '{contents}', in \n    '{message}'");
    false
}

#[test]
fn process_set_non_set() {
    let mut owners_set = OwnersSet::default();
    assert!(!owners_set.maybe_process_set("ada.lovelace").unwrap());
}

#[test]
fn process_set_nominal_true() {
    let mut owners_set = OwnersSet::default();
    assert!(owners_set.maybe_process_set("set inherit = true").unwrap());
    assert_eq!(owners_set.inherit, Some(true));
}

#[test]
fn process_set_nominal_false() {
    let mut owners_set = OwnersSet::default();
    assert!(owners_set.maybe_process_set("set inherit = false").unwrap());
    assert_eq!(owners_set.inherit, Some(false));
}

#[test]
fn process_set_invalid() {
    let mut owners_set = OwnersSet::default();
    assert!(is_error_with_text(
        owners_set.maybe_process_set("set inherit = not_a_bool"),
        "Invalid value"
    ));
    assert!(is_error_with_text(
        owners_set.maybe_process_set("set foo = bar"),
        "Invalid set variable"
    ));
}

#[test]
fn process_set_spacing_edge_cases() {
    let mut owners_set = OwnersSet::default();
    // only one whitespace character may follow the `set` keyword
    assert!(is_error_with_text(
        owners_set.maybe_process_set("set  inherit = true"),
        "Invalid set format"
    ));
    // generous spacing around `=` is fine
    assert!(owners_set.maybe_process_set("set inherit   =   false").unwrap());
    assert_eq!(owners_set.inherit, Some(false));
    // a lone `set` is not a directive at all
    assert!(!owners_set.maybe_process_set("set").unwrap());
    // trailing junk is rejected
    assert!(is_error_with_text(
        owners_set.maybe_process_set("set inherit = true extra"),
        "Invalid set format"
    ));
}

#[test]
fn parse_blanket_owners_only() {
    let input = "ada.lovelace\ngrace.hopper\nmargaret.hamilton\n";
    let expected = OwnersFileConfig {
        all_files: OwnersSet {
            inherit: None,
            owners: vec![
                "ada.lovelace".to_string(),
                "grace.hopper".to_string(),
                "margaret.hamilton".to_string(),
            ],
        },
        pattern_overrides: Vec::new(),
    };
    let store = FileStore::new();
    let parsed = OwnersFileConfig::from_text(input, "test data", "test data", &store).unwrap();
    assert_eq!(parsed, expected);
}

#[test]
fn parse_blanket_owners_with_inherit() {
    let input = "set inherit = false\nada.lovelace\ngrace.hopper\nmargaret.hamilton\n";
    let expected = OwnersFileConfig {
        all_files: OwnersSet {
            inherit: Some(false),
            owners: vec![
                "ada.lovelace".to_string(),
                "grace.hopper".to_string(),
                "margaret.hamilton".to_string(),
            ],
        },
        pattern_overrides: Vec::new(),
    };
    let store = FileStore::new();
    let parsed = OwnersFileConfig::from_text(input, "test data", "test data", &store).unwrap();
    assert_eq!(parsed, expected);
}

#[test]
fn parse_blanket_with_pattern_overrides() {
    let input = "ada.lovelace\ngrace.hopper\nmargaret.hamilton\n\n[*.rs]\nkatherine.johnson\n";
    let expected = OwnersFileConfig {
        all_files: OwnersSet {
            inherit: None,
            owners: vec![
                "ada.lovelace".to_string(),
                "grace.hopper".to_string(),
                "margaret.hamilton".to_string(),
            ],
        },
        pattern_overrides: vec![(
            "*.rs".to_string(),
            OwnersSet { inherit: None, owners: vec!["katherine.johnson".to_string()] },
        )],
    };
    let store = FileStore::new();
    let parsed = OwnersFileConfig::from_text(input, "test data", "test data", &store).unwrap();
    assert_eq!(parsed, expected);
}

#[test]
fn test_maybe_get_file_pattern() {
    assert_eq!(maybe_get_file_pattern("[*.rs]"), Some("*.rs".to_string()));
    assert_eq!(maybe_get_file_pattern("[foo.*]"), Some("foo.*".to_string()));
    assert_eq!(maybe_get_file_pattern("  [  bar.*  ]  "), Some("bar.*".to_string()));
    assert_eq!(maybe_get_file_pattern("ada.lovelace"), None);
    assert_eq!(maybe_get_file_pattern(""), None);
    assert_eq!(maybe_get_file_pattern("set inherit = false"), None);
}

#[test]
fn test_maybe_get_include() {
    assert_eq!(
        maybe_get_include("include foo/bar.owners").unwrap(),
        Some("foo/bar.owners".to_string())
    );
    assert_eq!(maybe_get_include("  include   my_path   ").unwrap(), Some("my_path".to_string()));
    assert!(maybe_get_include("include").is_err());
    assert!(maybe_get_include("include ").is_err());
    assert!(maybe_get_include("include path with spaces").is_err());
    assert_eq!(maybe_get_include("not an include").unwrap(), None);
}

#[test]
fn test_maybe_get_include_case_and_spacing() {
    // a case-insensitive `include ` prefix is malformed, not an owner line
    assert!(maybe_get_include("Include foo").is_err());
    assert!(maybe_get_include("INCLUDE foo").is_err());
    // without the separating space it is no include at all
    assert_eq!(maybe_get_include("includex").unwrap(), None);
    // with leading whitespace the case-insensitive rescue does not apply
    assert_eq!(maybe_get_include("  Include foo").unwrap(), None);
}

#[test]
fn test_maybe_get_file_pattern_greedy_token() {
    // the token may itself contain a closing bracket
    assert_eq!(maybe_get_file_pattern("[a]b]"), Some("a]b".to_string()));
    // interior whitespace disqualifies the line as a header
    assert_eq!(maybe_get_file_pattern("[a b]"), None);
    assert_eq!(maybe_get_file_pattern("[]"), None);
    assert_eq!(maybe_get_file_pattern("[ ]"), None);
}

#[test]
fn parse_comments_and_blanks_are_stripped() {
    let input = "# header\nada.lovelace # trailing\n\n   \ngrace.hopper\n";
    let expected = OwnersFileConfig {
        all_files: OwnersSet {
            inherit: None,
            owners: vec!["ada.lovelace".to_string(), "grace.hopper".to_string()],
        },
        pattern_overrides: Vec::new(),
    };
    let store = FileStore::new();
    let parsed = OwnersFileConfig::from_text(input, "test data", "test data", &store).unwrap();
    assert_eq!(parsed, expected);
}

#[test]
fn parse_owner_with_whitespace_fails() {
    let store = FileStore::new();
    let r = OwnersFileConfig::from_text("ada lovelace\n", "test data", "test data", &store);
    assert!(is_error_with_text(r, "cannot contain whitespace"));
    // non-ASCII whitespace counts as whitespace too
    let r2 = OwnersFileConfig::from_text(
        "ada\u{a0}lovelace\n",
        "test data",
        "test data",
        &store,
    );
    assert!(is_error_with_text(r2, "cannot contain whitespace"));
}

#[test]
fn parse_trims_unicode_whitespace() {
    let store = FileStore::new();
    let input = "\u{3000}ada.lovelace\u{2009}\n";
    let parsed = OwnersFileConfig::from_text(input, "test data", "test data", &store).unwrap();
    let expected = OwnersFileConfig {
        all_files: OwnersSet { inherit: None, owners: vec!["ada.lovelace".to_string()] },
        pattern_overrides: Vec::new(),
    };
    assert_eq!(parsed, expected);
}

#[test]
fn parse_error_reports_line_number() {
    let store = FileStore::new();
    let r = OwnersFileConfig::from_text(
        "ada.lovelace\n\nset foo = bar\n",
        "somewhere/OWNERS",
        "somewhere",
        &store,
    );
    assert!(r.is_err());
    let message = r.err().unwrap().message();
    assert!(message.contains("Invalid set variable"));
    assert!(message.contains("somewhere/OWNERS:3"));
}

#[test]
fn parse_error_reports_multi_digit_line_number() {
    let store = FileStore::new();
    let text = "a1\na2\na3\na4\na5\na6\na7\na8\na9\na10\na11\nbad owner\n";
    let r = OwnersFileConfig::from_text(text, "here/OWNERS", "here", &store);
    assert!(r.is_err());
    let message = r.err().unwrap().message();
    assert!(message.contains("here/OWNERS:12"));
}

#[test]
fn parse_include_merges_into_blanket() {
    let mut store = FileStore::new();
    store.add("/repo/shared/OWNERS".to_string(), "mary.jackson\n".to_string());
    let input = "ada.lovelace\ninclude /shared/OWNERS\n";
    let parsed =
        OwnersFileConfig::from_text(input, "/repo/sub/OWNERS", "/repo", &store).unwrap();
    let expected = OwnersFileConfig {
        all_files: OwnersSet {
            inherit: None,
            owners: vec!["ada.lovelace".to_string(), "mary.jackson".to_string()],
        },
        pattern_overrides: Vec::new(),
    };
    assert_eq!(parsed, expected);
}

#[test]
fn parse_include_relative_path() {
    let mut store = FileStore::new();
    store.add("/repo/other/OWNERS".to_string(), "mary.jackson\n".to_string());
    let input = "include ../other/OWNERS\n";
    let parsed = OwnersFileConfig::from_text(input, "/repo/sub/OWNERS", "/repo", &store).unwrap();
    let expected = OwnersFileConfig {
        all_files: OwnersSet { inherit: None, owners: vec!["mary.jackson".to_string()] },
        pattern_overrides: Vec::new(),
    };
    assert_eq!(parsed, expected);
}

#[test]
fn parse_include_missing_file_fails() {
    let store = FileStore::new();
    let r = OwnersFileConfig::from_text(
        "include /shared/OWNERS\n",
        "/repo/sub/OWNERS",
        "/repo",
        &store,
    );
    assert!(is_error_with_text(r, "Missing include file"));
}

#[test]
fn parse_include_outside_repo_fails() {
    let mut store = FileStore::new();
    store.add("/elsewhere/OWNERS".to_string(), "mary.jackson\n".to_string());
    let r = OwnersFileConfig::from_text(
        "include ../../elsewhere/OWNERS\n",
        "/repo/sub/OWNERS",
        "/repo",
        &store,
    );
    assert!(is_error_with_text(r, "outside the repository base"));
    // containment is checked before the store: an escaping include is
    // rejected as such even when nothing is stored for it, so no caller
    // is ever asked to read a file outside the base
    let empty = FileStore::new();
    let r2 = OwnersFileConfig::from_text(
        "include ../../elsewhere/OWNERS\n",
        "/repo/sub/OWNERS",
        "/repo",
        &empty,
    );
    assert!(is_error_with_text(r2, "outside the repository base"));
}

#[test]
fn parse_include_in_pattern_section_fails() {
    let mut store = FileStore::new();
    store.add("/repo/shared/OWNERS".to_string(), "mary.jackson\n".to_string());
    let r = OwnersFileConfig::from_text(
        "[*.rs]\ninclude /shared/OWNERS\n",
        "/repo/sub/OWNERS",
        "/repo",
        &store,
    );
    assert!(is_error_with_text(r, "not allowed in path-specific sections"));
}

#[test]
fn parse_self_include_fails() {
    let mut store = FileStore::new();
    store.add("/repo/sub/OWNERS".to_string(), "include /sub/OWNERS\n".to_string());
    let r = OwnersFileConfig::from_text(
        "include /sub/OWNERS\n",
        "/repo/sub/OWNERS",
        "/repo",
        &store,
    );
    assert!(is_error_with_text(r, "Cycle detected"));
}

#[test]
fn parse_two_cycle_fails() {
    let mut store = FileStore::new();
    store.add("/repo/a/OWNERS".to_string(), "include /b/OWNERS\n".to_string());
    store.add("/repo/b/OWNERS".to_string(), "include /a/OWNERS\n".to_string());
    let r = OwnersFileConfig::from_text(
        "include /b/OWNERS\n",
        "/repo/a/OWNERS",
        "/repo",
        &store,
    );
    assert!(is_error_with_text(r, "Cycle detected"));
}

#[test]
fn parse_three_cycle_fails() {
    let mut store = FileStore::new();
    store.add("/repo/a/OWNERS".to_string(), "include /b/OWNERS\n".to_string());
    store.add("/repo/b/OWNERS".to_string(), "include /c/OWNERS\n".to_string());
    store.add("/repo/c/OWNERS".to_string(), "include /a/OWNERS\n".to_string());
    let r = OwnersFileConfig::from_text(
        "include /b/OWNERS\n",
        "/repo/a/OWNERS",
        "/repo",
        &store,
    );
    assert!(is_error_with_text(r, "Cycle detected"));
}

#[test]
fn parse_cycle_message_lists_chain_root_to_leaf() {
    // a -> b -> c -> b again: the cycle error names the chain from the
    // outermost file down to the repeated one
    let mut store = FileStore::new();
    store.add("/repo/b/OWNERS".to_string(), "include /c/OWNERS\n".to_string());
    store.add("/repo/c/OWNERS".to_string(), "include /b/OWNERS\n".to_string());
    let r = OwnersFileConfig::from_text(
        "include /b/OWNERS\n",
        "/repo/a/OWNERS",
        "/repo",
        &store,
    );
    assert!(r.is_err());
    let message = r.err().unwrap().message();
    assert!(message
        .contains("Cycle detected in includes: /repo/a/OWNERS -> /repo/b/OWNERS"));
}

#[test]
fn parse_repeated_include_from_unrelated_branches_is_legal() {
    let mut store = FileStore::new();
    store.add("/repo/shared/OWNERS".to_string(), "mary.jackson\n".to_string());
    store.add(
        "/repo/mid/OWNERS".to_string(),
        "include /shared/OWNERS\n".to_string(),
    );
    // the same file reached twice along different, non-nested paths
    let input = "include /shared/OWNERS\ninclude /mid/OWNERS\n";
    let parsed = OwnersFileConfig::from_text(input, "/repo/sub/OWNERS", "/repo", &store).unwrap();
    let expected = OwnersFileConfig {
        all_files: OwnersSet { inherit: None, owners: vec!["mary.jackson".to_string()] },
        pattern_overrides: Vec::new(),
    };
    assert_eq!(parsed, expected);
}

#[test]
fn parse_set_inside_include_fails() {
    let mut store = FileStore::new();
    store.add("/repo/shared/OWNERS".to_string(), "set inherit = true\n".to_string());
    let r = OwnersFileConfig::from_text(
        "include /shared/OWNERS\n",
        "/repo/sub/OWNERS",
        "/repo",
        &store,
    );
    assert!(is_error_with_text(r, "not allowed inside includes"));
}

#[test]
fn parse_trailing_pattern_header_leaves_no_entry() {
    let store = FileStore::new();
    let parsed =
        OwnersFileConfig::from_text("ada.lovelace\n[*.rs]\n", "test data", "test data", &store)
            .unwrap();
    assert_eq!(parsed.pattern_overrides.len(), 0);
    // but a pattern followed by any line is materialized, even if empty
    let parsed2 = OwnersFileConfig::from_text(
        "[*.a]\n[*.b]\nada.lovelace\n",
        "test data",
        "test data",
        &store,
    )
    .unwrap();
    assert_eq!(parsed2.pattern_overrides.len(), 2);
    let keys: Vec<&str> =
        parsed2.pattern_overrides.iter().map(|(k, _)| k.as_str()).collect();
    assert!(keys.contains(&"*.a"));
    assert!(keys.contains(&"*.b"));
    assert!(parsed2.pattern_overrides.iter().all(|(k, s)| k != "*.a" || s.owners.is_empty()));
}
