use distributed_owners::allow_filter::{AllowFilter, AllowList, FilterGitMetadata};
use distributed_owners::owners_file::{FileStore, OwnersFileConfig};
use distributed_owners::owners_set::OwnersSet;
use distributed_owners::owners_tree::{DirListing, OwnersTree, TreeNode};

fn dir(path: &str, owners_text: Option<&str>, subdirs: Vec<DirListing>) -> DirListing {
    DirListing {
        path: path.to_string(),
        owners_text: owners_text.map(|t| t.to_string()),
        subdirs,
    }
}

fn blanket(owners: &[&str]) -> OwnersFileConfig {
    OwnersFileConfig {
        all_files: OwnersSet {
            inherit: None,
            owners: owners.iter().map(|s| s.to_string()).collect(),
        },
        pattern_overrides: Vec::new(),
    }
}

#[test]
fn filter_git_metadata() {
    let filter = FilterGitMetadata {};
    assert!(filter.allowed("Cargo.lock"));
    assert!(filter.allowed("LICENSE"));
    assert!(filter.allowed("OWNERS"));
    assert!(filter.allowed("src/main.rs"));

    assert!(!filter.allowed(".git/hooks/pre-commit"));
}

#[test]
fn allow_list() {
    let allowed_files: Vec<String> = ["Cargo.lock", "LICENSE", "OWNERS", "src/OWNERS"]
        .iter()
        .map(|s| s.to_string())
        .collect();
    let filter = AllowList::from(allowed_files);
    assert!(filter.allowed("OWNERS"));
    assert!(filter.allowed("src/OWNERS"));

    // Not OWNERS, so ignored
    assert!(!filter.allowed("Cargo.lock"));
    assert!(!filter.allowed("LICENSE"));

    // Not named among the allowed files
    assert!(!filter.allowed(".git/hooks/pre-commit"));
    assert!(!filter.allowed("abc/OWNERS"));
    assert!(!filter.allowed("src/main.rs"));
}

#[test]
fn allow_list_includes_parent_directories() {
    let filter = AllowList::from(vec!["/repo/a/b/OWNERS".to_string()]);
    assert!(filter.allowed("/repo/a/b/OWNERS"));
    assert!(filter.allowed("/repo/a/b"));
    assert!(filter.allowed("/repo/a"));
    assert!(filter.allowed("/repo"));
    assert!(filter.allowed("/"));
    assert!(!filter.allowed("/repo/a/b/c"));
}

#[test]
fn owners_tree_single_file_at_root() {
    let allow_any = FilterGitMetadata {};
    let store = FileStore::new();
    let root = dir(
        "/repo",
        Some("ada.lovelace\ngrace.hopper\nmargaret.hamilton\n"),
        vec![],
    );
    let tree = OwnersTree::load_from_files(&root, &store, &allow_any).unwrap();
    let expected = TreeNode {
        path: "/repo".to_string(),
        repo_base: "/repo".to_string(),
        owners_config: blanket(&["ada.lovelace", "grace.hopper", "margaret.hamilton"]),
        children: vec![],
    };
    assert_eq!(tree, expected);
}

#[test]
fn owners_tree_single_file_not_at_root() {
    let allow_any = FilterGitMetadata {};
    let store = FileStore::new();
    let root = dir(
        "/repo",
        None,
        vec![dir(
            "/repo/subdir",
            Some("ada.lovelace\ngrace.hopper\nmargaret.hamilton\n"),
            vec![],
        )],
    );
    let tree = OwnersTree::load_from_files(&root, &store, &allow_any).unwrap();
    let expected = TreeNode {
        path: "/repo".to_string(),
        repo_base: "/repo".to_string(),
        owners_config: blanket(&[]),
        children: vec![TreeNode {
            path: "/repo/subdir".to_string(),
            repo_base: "/repo".to_string(),
            owners_config: blanket(&["ada.lovelace", "grace.hopper", "margaret.hamilton"]),
            children: vec![],
        }],
    };
    assert_eq!(tree, expected);
}

#[test]
fn owners_tree_multiple_files() {
    let allow_any = FilterGitMetadata {};
    let store = FileStore::new();
    let root = dir(
        "/repo",
        Some("ada.lovelace\ngrace.hopper\n"),
        vec![dir(
            "/repo/subdir",
            None,
            vec![dir(
                "/repo/subdir/foo",
                Some("margaret.hamilton\nkatherine.johnson\n"),
                vec![],
            )],
        )],
    );
    let tree = OwnersTree::load_from_files(&root, &store, &allow_any).unwrap();
    let expected = TreeNode {
        path: "/repo".to_string(),
        repo_base: "/repo".to_string(),
        owners_config: blanket(&["ada.lovelace", "grace.hopper"]),
        children: vec![TreeNode {
            path: "/repo/subdir/foo".to_string(),
            repo_base: "/repo".to_string(),
            owners_config: blanket(&["margaret.hamilton", "katherine.johnson"]),
            children: vec![],
        }],
    };
    assert_eq!(tree, expected);
}

#[test]
fn ignore_hidden_files() {
    let allow_any = FilterGitMetadata {};
    let store = FileStore::new();
    let root = dir(
        "/repo",
        Some("ada.lovelace\ngrace.hopper\n"),
        vec![dir(
            "/repo/subdir",
            None,
            vec![dir(
                "/repo/subdir/.git",
                Some("margaret.hamilton\nkatherine.johnson\n"),
                vec![],
            )],
        )],
    );
    let tree = OwnersTree::load_from_files(&root, &store, &allow_any).unwrap();
    let expected = TreeNode {
        path: "/repo".to_string(),
        repo_base: "/repo".to_string(),
        owners_config: blanket(&["ada.lovelace", "grace.hopper"]),
        children: vec![],
    };
    assert_eq!(tree, expected);
}

#[test]
fn included_file() {
    let allow_any = FilterGitMetadata {};
    let mut store = FileStore::new();
    store.add("/repo/subdir/bar/OWNERS".to_string(), "mary.jackson\n".to_string());
    store.add("/repo/subdir/baz/OWNERS".to_string(), "[*.py]\nalan.turing\n".to_string());
    let root = dir(
        "/repo",
        Some("ada.lovelace\ngrace.hopper\n"),
        vec![dir(
            "/repo/subdir",
            None,
            vec![
                dir(
                    "/repo/subdir/foo",
                    Some(
                        "margaret.hamilton\nkatherine.johnson\n\ninclude /subdir/bar/OWNERS\ninclude ../baz/OWNERS\n",
                    ),
                    vec![],
                ),
                dir("/repo/subdir/bar", Some("mary.jackson\n"), vec![]),
                dir("/repo/subdir/baz", Some("[*.py]\nalan.turing\n"), vec![]),
            ],
        )],
    );
    let mut tree = OwnersTree::load_from_files(&root, &store, &allow_any).unwrap();
    let mut expected = TreeNode {
        path: "/repo".to_string(),
        repo_base: "/repo".to_string(),
        owners_config: blanket(&["ada.lovelace", "grace.hopper"]),
        children: vec![
            TreeNode {
                path: "/repo/subdir/foo".to_string(),
                repo_base: "/repo".to_string(),
                owners_config: OwnersFileConfig {
                    all_files: OwnersSet {
                        inherit: None,
                        owners: vec![
                            "margaret.hamilton".to_string(),
                            "katherine.johnson".to_string(),
                            "mary.jackson".to_string(),
                        ],
                    },
                    pattern_overrides: vec![(
                        "*.py".to_string(),
                        OwnersSet { inherit: None, owners: vec!["alan.turing".to_string()] },
                    )],
                },
                children: vec![],
            },
            TreeNode {
                path: "/repo/subdir/bar".to_string(),
                repo_base: "/repo".to_string(),
                owners_config: blanket(&["mary.jackson"]),
                children: vec![],
            },
            TreeNode {
                path: "/repo/subdir/baz".to_string(),
                repo_base: "/repo".to_string(),
                owners_config: OwnersFileConfig {
                    all_files: OwnersSet { inherit: None, owners: vec![] },
                    pattern_overrides: vec![(
                        "*.py".to_string(),
                        OwnersSet { inherit: None, owners: vec!["alan.turing".to_string()] },
                    )],
                },
                children: vec![],
            },
        ],
    };

    tree.children.sort_by_key(|c| c.path.clone());
    expected.children.sort_by_key(|c| c.path.clone());

    assert_eq!(tree, expected);
}

#[test]
fn included_file_circular_include() {
    let allow_any = FilterGitMetadata {};
    let mut store = FileStore::new();
    store.add(
        "/repo/subdir/bar/OWNERS".to_string(),
        "include /subdir/bar/OWNERS\n".to_string(),
    );
    let root = dir(
        "/repo",
        Some("ada.lovelace\ngrace.hopper\n"),
        vec![dir(
            "/repo/subdir",
            None,
            vec![
                dir("/repo/subdir/foo", Some("include /subdir/bar/OWNERS\n"), vec![]),
                dir("/repo/subdir/bar", Some("include /subdir/bar/OWNERS\n"), vec![]),
            ],
        )],
    );
    let tree = OwnersTree::load_from_files(&root, &store, &allow_any);
    assert!(tree.is_err());
}

#[test]
fn included_file_set_statement() {
    let allow_any = FilterGitMetadata {};
    let mut store = FileStore::new();
    store.add("/repo/subdir/bar/OWNERS".to_string(), "set inherit = true\n".to_string());
    let root = dir(
        "/repo",
        Some("ada.lovelace\ngrace.hopper\n"),
        vec![dir(
            "/repo/subdir",
            None,
            vec![
                dir("/repo/subdir/foo", Some("include /subdir/bar/OWNERS\n"), vec![]),
                dir("/repo/subdir/bar", Some("set inherit = true\n"), vec![]),
            ],
        )],
    );
    let tree = OwnersTree::load_from_files(&root, &store, &allow_any);
    assert!(tree.is_err());
}

struct RejectOneBranch {
    blocked: String,
}

impl AllowFilter for RejectOneBranch {
    // the trait's spec method exists in the compiled crate but is never
    // called; a test-local filter carries no verified tie between the two
    fn allowed_spec(&self, _path: vstd::prelude::Seq<char>) -> bool {
        false
    }

    fn allowed(&self, path: &str) -> bool {
        path != self.blocked.as_str()
    }
}

#[test]
fn filter_rejects_deep_branch() {
    // a branch rejected anywhere in the tree is skipped whole: even a
    // declaration deeper inside it is never visited
    let filter = RejectOneBranch { blocked: "/repo/subdir/blocked".to_string() };
    let store = FileStore::new();
    let root = dir(
        "/repo",
        Some("ada.lovelace\n"),
        vec![dir(
            "/repo/subdir",
            None,
            vec![
                dir(
                    "/repo/subdir/blocked",
                    None,
                    vec![dir("/repo/subdir/blocked/deep", Some("grace.hopper\n"), vec![])],
                ),
                dir("/repo/subdir/kept", Some("mary.jackson\n"), vec![]),
            ],
        )],
    );
    let tree = OwnersTree::load_from_files(&root, &store, &filter).unwrap();
    let expected = TreeNode {
        path: "/repo".to_string(),
        repo_base: "/repo".to_string(),
        owners_config: blanket(&["ada.lovelace"]),
        children: vec![TreeNode {
            path: "/repo/subdir/kept".to_string(),
            repo_base: "/repo".to_string(),
            owners_config: blanket(&["mary.jackson"]),
            children: vec![],
        }],
    };
    assert_eq!(tree, expected);
}

#[test]
fn filter_rejects_owners_file() {
    // only the root's and the deep directory's declarations are listed: the
    // middle directory's declaration file is passed over, so the deep node
    // attaches to the root directly
    let filter = AllowList::from(vec![
        "/repo/OWNERS".to_string(),
        "/repo/subdir/deep/OWNERS".to_string(),
    ]);
    let store = FileStore::new();
    let root = dir(
        "/repo",
        Some("ada.lovelace\n"),
        vec![dir(
            "/repo/subdir",
            Some("grace.hopper\n"),
            vec![dir("/repo/subdir/deep", Some("mary.jackson\n"), vec![])],
        )],
    );
    let tree = OwnersTree::load_from_files(&root, &store, &filter).unwrap();
    let expected = TreeNode {
        path: "/repo".to_string(),
        repo_base: "/repo".to_string(),
        owners_config: blanket(&["ada.lovelace"]),
        children: vec![TreeNode {
            path: "/repo/subdir/deep".to_string(),
            repo_base: "/repo".to_string(),
            owners_config: blanket(&["mary.jackson"]),
            children: vec![],
        }],
    };
    assert_eq!(tree, expected);
}
