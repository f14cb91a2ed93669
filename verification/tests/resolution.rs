use distributed_owners::codeowners::{generate_codeowners, to_codeowners_string, CodeownersMap};
use distributed_owners::owners_file::{FileStore, OwnersFileConfig};
use distributed_owners::owners_set::OwnersSet;
use distributed_owners::owners_tree::{DirListing, OwnersTree, TreeNode};
use distributed_owners::allow_filter::FilterGitMetadata;

fn set(inherit: Option<bool>, owners: &[&str]) -> OwnersSet {
    OwnersSet { inherit, owners: owners.iter().map(|s| s.to_string()).collect() }
}

fn config(all_files: OwnersSet, overrides: Vec<(&str, OwnersSet)>) -> OwnersFileConfig {
    OwnersFileConfig {
        all_files,
        pattern_overrides: overrides.into_iter().map(|(k, v)| (k.to_string(), v)).collect(),
    }
}

fn node(path: &str, owners_config: OwnersFileConfig, children: Vec<TreeNode>) -> TreeNode {
    TreeNode {
        path: path.to_string(),
        repo_base: "/tree/root".to_string(),
        owners_config,
        children,
    }
}

fn cmap(entries: Vec<(&str, &[&str])>) -> CodeownersMap {
    CodeownersMap {
        entries: entries
            .into_iter()
            .map(|(k, os)| (k.to_string(), os.iter().map(|s| s.to_string()).collect()))
            .collect(),
    }
}

#[test]
fn generate_codeowners_single_simple() {
    let tree_node = node(
        "/tree/root",
        config(set(None, &["ada.lovelace", "grace.hopper", "margaret.hamilton"]), vec![]),
        vec![],
    );
    let expected = cmap(vec![("/", &["ada.lovelace", "grace.hopper", "margaret.hamilton"])]);
    let codeowners = generate_codeowners(&tree_node, true).unwrap();
    assert_eq!(codeowners, expected);
}

#[test]
fn generate_codeowners_multiple_simple() {
    let tree_node = node(
        "/tree/root",
        config(set(None, &["ada.lovelace", "grace.hopper"]), vec![]),
        vec![node(
            "/tree/root/foo/bar",
            config(set(None, &["margaret.hamilton", "katherine.johnson"]), vec![]),
            vec![],
        )],
    );
    let expected = cmap(vec![
        ("/", &["ada.lovelace", "grace.hopper"]),
        (
            "/foo/bar/",
            &["ada.lovelace", "grace.hopper", "margaret.hamilton", "katherine.johnson"],
        ),
    ]);
    let codeowners = generate_codeowners(&tree_node, true).unwrap();
    assert_eq!(codeowners, expected);
}

#[test]
fn generate_codeowners_single_with_overrides() {
    let tree_node = node(
        "/tree/root",
        config(
            set(None, &["ada.lovelace", "grace.hopper"]),
            vec![("*.rs", set(None, &["margaret.hamilton", "katherine.johnson"]))],
        ),
        vec![],
    );
    let expected = cmap(vec![
        ("/", &["ada.lovelace", "grace.hopper"]),
        (
            "/*.rs",
            &["ada.lovelace", "grace.hopper", "margaret.hamilton", "katherine.johnson"],
        ),
    ]);
    let codeowners = generate_codeowners(&tree_node, true).unwrap();
    assert_eq!(codeowners, expected);
}

#[test]
fn generate_codeowners_multiple_with_overrides() {
    let tree_node = node(
        "/tree/root",
        config(
            set(None, &["ada.lovelace"]),
            vec![("*.rs", set(None, &["margaret.hamilton"]))],
        ),
        vec![node(
            "/tree/root/foo/bar",
            config(
                set(None, &["grace.hopper"]),
                vec![("*.rs", set(None, &["katherine.johnson"]))],
            ),
            vec![],
        )],
    );
    let expected = cmap(vec![
        ("/", &["ada.lovelace"]),
        ("/*.rs", &["ada.lovelace", "margaret.hamilton"]),
        ("/foo/bar/", &["ada.lovelace", "grace.hopper"]),
        ("/foo/bar/*.rs", &["ada.lovelace", "grace.hopper", "katherine.johnson"]),
    ]);
    let codeowners = generate_codeowners(&tree_node, true).unwrap();
    assert_eq!(codeowners, expected);
}

#[test]
fn generate_codeowners_no_implicit_inherit() {
    let tree_node = node(
        "/tree/root",
        config(
            set(None, &["ada.lovelace"]),
            vec![("*.rs", set(None, &["margaret.hamilton"]))],
        ),
        vec![node(
            "/tree/root/foo/bar",
            config(
                set(None, &["grace.hopper"]),
                vec![("*.rs", set(None, &["katherine.johnson"]))],
            ),
            vec![],
        )],
    );
    let expected = cmap(vec![
        ("/", &["ada.lovelace"]),
        ("/*.rs", &["margaret.hamilton"]),
        ("/foo/bar/", &["grace.hopper"]),
        ("/foo/bar/*.rs", &["katherine.johnson"]),
    ]);
    let codeowners = generate_codeowners(&tree_node, false).unwrap();
    assert_eq!(codeowners, expected);
}

#[test]
fn generate_codeowners_selective_inherit() {
    let tree_node = node(
        "/tree/root",
        config(
            set(None, &["ada.lovelace"]),
            vec![("*.rs", set(Some(false), &["margaret.hamilton"]))],
        ),
        vec![node(
            "/tree/root/foo/bar",
            config(
                set(Some(false), &["grace.hopper"]),
                vec![("*.rs", set(None, &["katherine.johnson"]))],
            ),
            vec![],
        )],
    );
    let expected = cmap(vec![
        ("/", &["ada.lovelace"]),
        ("/*.rs", &["margaret.hamilton"]),
        ("/foo/bar/", &["grace.hopper"]),
        ("/foo/bar/*.rs", &["grace.hopper", "katherine.johnson"]),
    ]);
    let codeowners = generate_codeowners(&tree_node, true).unwrap();
    assert_eq!(codeowners, expected);
}

#[test]
fn generate_codeowners_selective_inherit_with_no_implicit() {
    let tree_node = node(
        "/tree/root",
        config(
            set(None, &["ada.lovelace"]),
            vec![("*.rs", set(Some(true), &["margaret.hamilton"]))],
        ),
        vec![node(
            "/tree/root/foo/bar",
            config(
                set(Some(true), &["grace.hopper"]),
                vec![("*.rs", set(None, &["katherine.johnson"]))],
            ),
            vec![],
        )],
    );
    let expected = cmap(vec![
        ("/", &["ada.lovelace"]),
        ("/*.rs", &["ada.lovelace", "margaret.hamilton"]),
        ("/foo/bar/", &["ada.lovelace", "grace.hopper"]),
        ("/foo/bar/*.rs", &["katherine.johnson"]),
    ]);
    let codeowners = generate_codeowners(&tree_node, false).unwrap();
    assert_eq!(codeowners, expected);
}

#[test]
fn generate_codeowners_subdir_without_owners() {
    let tree_node = node(
        "/tree/root",
        config(set(None, &["ada.lovelace", "grace.hopper"]), vec![]),
        vec![node("/tree/root/foo/bar", config(set(Some(false), &[]), vec![]), vec![])],
    );
    let expected = cmap(vec![
        ("/", &["ada.lovelace", "grace.hopper"]),
        ("/foo/bar/", &[]),
    ]);
    let codeowners = generate_codeowners(&tree_node, true).unwrap();
    assert_eq!(codeowners, expected);
}

#[test]
fn generate_codeowners_is_idempotent() {
    let tree_node = node(
        "/tree/root",
        config(
            set(None, &["ada.lovelace"]),
            vec![("*.rs", set(Some(true), &["margaret.hamilton"]))],
        ),
        vec![node(
            "/tree/root/foo",
            config(set(None, &["grace.hopper"]), vec![]),
            vec![],
        )],
    );
    let first = generate_codeowners(&tree_node, true).unwrap();
    let second = generate_codeowners(&tree_node, true).unwrap();
    assert_eq!(first, second);
    assert_eq!(to_codeowners_string(&first), to_codeowners_string(&second));
}

#[test]
fn generate_codeowners_effective_is_superset_of_local() {
    let tree_node = node(
        "/tree/root",
        config(set(None, &["ada.lovelace"]), vec![]),
        vec![node(
            "/tree/root/foo",
            config(set(Some(true), &["grace.hopper"]), vec![]),
            vec![],
        )],
    );
    let codeowners = generate_codeowners(&tree_node, false).unwrap();
    // the node's entry still holds everything it declared locally
    let foo = codeowners
        .entries
        .iter()
        .find(|(k, _)| k == "/foo/")
        .map(|(_, v)| v)
        .unwrap();
    assert!(foo.contains(&"grace.hopper".to_string()));
}

#[test]
fn generate_codeowners_path_outside_root_fails() {
    let tree_node = node(
        "/tree/root",
        config(set(None, &["ada.lovelace"]), vec![]),
        vec![node("/elsewhere/foo", config(set(None, &["grace.hopper"]), vec![]), vec![])],
    );
    let r = generate_codeowners(&tree_node, true);
    assert!(r.is_err());
    assert!(r.err().unwrap().message().contains("outside the resolution root"));
}

#[test]
fn to_codeowners_string_multilevel() {
    let codeowners = cmap(vec![
        ("/", &["ada.lovelace"]),
        ("/*.rs", &["ada.lovelace", "margaret.hamilton"]),
        ("/foo/bar/", &["ada.lovelace", "grace.hopper"]),
        ("/foo/bar/*.rs", &["katherine.johnson"]),
    ]);
    let expected = "* @ada.lovelace\n/*.rs @ada.lovelace @margaret.hamilton\n/foo/bar/ @ada.lovelace @grace.hopper\n/foo/bar/*.rs @katherine.johnson";
    assert_eq!(to_codeowners_string(&codeowners), expected);
}

#[test]
fn to_codeowners_string_multilevel_sorting() {
    let codeowners = cmap(vec![
        ("/foo/bar/*.rs", &["katherine.johnson"]),
        ("/", &["ada.lovelace"]),
        ("/foo/bar/", &["ada.lovelace", "grace.hopper"]),
        ("/*.rs", &["margaret.hamilton", "ada.lovelace"]),
    ]);
    let expected = "* @ada.lovelace\n/*.rs @ada.lovelace @margaret.hamilton\n/foo/bar/ @ada.lovelace @grace.hopper\n/foo/bar/*.rs @katherine.johnson";
    assert_eq!(to_codeowners_string(&codeowners), expected);
}

#[test]
fn to_codeowners_string_subdir_without_owners() {
    let codeowners = cmap(vec![
        ("/", &["ada.lovelace"]),
        ("/*.rs", &["ada.lovelace", "margaret.hamilton"]),
        ("/foo/bar/", &[]),
        ("/foo/bar/*.rs", &["katherine.johnson"]),
    ]);
    let expected = "* @ada.lovelace\n/*.rs @ada.lovelace @margaret.hamilton\n/foo/bar/\n/foo/bar/*.rs @katherine.johnson";
    assert_eq!(to_codeowners_string(&codeowners), expected);
}

#[test]
fn to_codeowners_string_email_owner_kept_verbatim() {
    let codeowners = cmap(vec![("/", &["ada@lovelace.dev", "grace.hopper"])]);
    assert_eq!(to_codeowners_string(&codeowners), "* ada@lovelace.dev @grace.hopper");
}

#[test]
fn to_codeowners_string_unowned_root_produces_no_line() {
    let codeowners = cmap(vec![("/", &[]), ("/foo/", &[])]);
    assert_eq!(to_codeowners_string(&codeowners), "/foo/");
}

fn end_to_end(root: DirListing, store: &FileStore, implicit_inherit: bool) -> String {
    let allow_any = FilterGitMetadata {};
    let tree = OwnersTree::load_from_files(&root, store, &allow_any).unwrap();
    let codeowners = generate_codeowners(&tree, implicit_inherit).unwrap();
    to_codeowners_string(&codeowners)
}

fn dir(path: &str, owners_text: Option<&str>, subdirs: Vec<DirListing>) -> DirListing {
    DirListing {
        path: path.to_string(),
        owners_text: owners_text.map(|t| t.to_string()),
        subdirs,
    }
}

#[test]
fn end_to_end_root_only() {
    let store = FileStore::new();
    let root = dir("/repo", Some("ada\ngrace\n"), vec![]);
    assert_eq!(end_to_end(root, &store, true), "* @ada @grace");
}

#[test]
fn end_to_end_subdirectory_inherits_by_default() {
    let store = FileStore::new();
    let root = dir(
        "/repo",
        Some("ada\n"),
        vec![dir(
            "/repo/foo",
            None,
            vec![dir("/repo/foo/bar", Some("margaret\n"), vec![])],
        )],
    );
    assert_eq!(end_to_end(root, &store, true), "* @ada\n/foo/bar/ @ada @margaret");
}

#[test]
fn end_to_end_pattern_override_opts_out() {
    let store = FileStore::new();
    let root = dir(
        "/repo",
        None,
        vec![dir(
            "/repo/dir",
            Some("ada\n[*.rs]\nset inherit = false\ngrace\n"),
            vec![],
        )],
    );
    assert_eq!(end_to_end(root, &store, true), "/dir/ @ada\n/dir/*.rs @grace");
}

#[test]
fn end_to_end_empty_subdir_blanket_yields_bare_pattern() {
    let store = FileStore::new();
    let root = dir(
        "/repo",
        None,
        vec![dir(
            "/repo/foo",
            None,
            vec![dir("/repo/foo/bar", Some("set inherit = false\n"), vec![])],
        )],
    );
    // the unowned root produces no line at all, while the subdirectory that
    // explicitly declares no owners still produces a bare pattern line
    assert_eq!(end_to_end(root, &store, true), "/foo/bar/");
}
