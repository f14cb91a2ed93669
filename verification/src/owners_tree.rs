//! Building the ownership tree: the root plus one node per directory that
//! has its own admitted declaration file; directories without one are
//! absorbed into the nearest declared ancestor.
//!
//! Walking a real directory tree is I/O and stays outside this crate. The
//! builder takes a [`DirListing`], the raw recursive directory structure with
//! the text of each directory's declaration file already read, together with
//! the [`FileStore`] of include targets and the admission filter.
use crate::allow_filter::{owners_chars, AllowFilter};
use crate::errors::{OwnersError, OwnersErrorV};
use crate::owners_file::{spec_from_text, FileStore, OwnersFileConfig, OwnersFileConfigV};
use crate::paths::{file_name, spec_file_name, spec_join_path};
use vstd::prelude::*;

verus! {

/// A raw directory subtree, as enumerated by the caller: the directory's
/// path, the text of the declaration file directly inside it (when one
/// exists and is a regular file), and its subdirectories.
#[derive(Debug)]
pub struct DirListing {
    pub path: String,
    pub owners_text: Option<String>,
    pub subdirs: Vec<DirListing>,
}

/// One node of the ownership tree: a directory with its own declaration.
#[derive(Debug)]
pub struct TreeNode {
    pub path: String,
    pub repo_base: String,
    pub owners_config: OwnersFileConfig,
    pub children: Vec<TreeNode>,
}

pub type OwnersTree = TreeNode;

/// Every node's configuration is well formed.
pub open spec fn tree_wf(n: TreeNode) -> bool
    decreases n,
{
    &&& n.owners_config.wf()
    &&& forall|i: int| 0 <= i < n.children@.len() ==> tree_wf(#[trigger] n.children@[i])
}

/// The path of the declaration file directly inside a directory.
pub open spec fn spec_owners_path(dir: Seq<char>) -> Seq<char> {
    spec_join_path(dir, owners_chars())
}

/// Exactly what `nodes` is as the contribution of the directory `dir` to
/// its nearest declared ancestor, given the admission filter's verdicts:
/// nothing for git metadata or for a branch the filter rejects; one node
/// holding the parsed declaration when the directory has one and the filter
/// admits it; else the flattened contributions of the subdirectories. No
/// contribution exists at all where an admitted declaration fails to parse:
/// the walk errors instead.
pub open spec fn valid_contribs<F: AllowFilter>(
    store: Map<Seq<char>, Seq<char>>,
    rb: Seq<char>,
    filter: &F,
    dir: DirListing,
    nodes: Seq<TreeNode>,
) -> bool
    decreases dir, 1int, 0int,
{
    if spec_file_name(dir.path@) == seq!['.', 'g', 'i', 't'] || !filter.allowed_spec(dir.path@) {
        nodes.len() == 0
    } else {
        match dir.owners_text {
            Some(text) => {
                if filter.allowed_spec(spec_owners_path(dir.path@)) {
                    match spec_from_text(store, rb, spec_owners_path(dir.path@), text@) {
                        Ok(cfg) => {
                            &&& nodes.len() == 1
                            &&& nodes[0].path@ == dir.path@
                            &&& nodes[0].repo_base@ == rb
                            &&& nodes[0].owners_config@ == cfg
                            &&& nodes[0].owners_config.wf()
                            &&& valid_children(
                                store,
                                rb,
                                filter,
                                dir.subdirs@,
                                dir.subdirs@.len() as int,
                                nodes[0].children@,
                            )
                        },
                        Err(ev) => false,
                    }
                } else {
                    valid_children(
                        store,
                        rb,
                        filter,
                        dir.subdirs@,
                        dir.subdirs@.len() as int,
                        nodes,
                    )
                }
            },
            None => valid_children(store, rb, filter, dir.subdirs@, dir.subdirs@.len() as int, nodes),
        }
    }
}

/// `nodes` splits into the contributions of the first `j` subdirectories.
pub open spec fn valid_children<F: AllowFilter>(
    store: Map<Seq<char>, Seq<char>>,
    rb: Seq<char>,
    filter: &F,
    subdirs: Seq<DirListing>,
    j: int,
    nodes: Seq<TreeNode>,
) -> bool
    decreases subdirs, 0int, j,
    when 0 <= j <= subdirs.len()
{
    if j == 0 {
        nodes.len() == 0
    } else {
        exists|k: int|
            0 <= k <= nodes.len() && valid_children(
                store,
                rb,
                filter,
                subdirs,
                j - 1,
                nodes.subrange(0, k),
            ) && valid_contribs(
                store,
                rb,
                filter,
                #[trigger] subdirs[j - 1],
                nodes.subrange(k, nodes.len() as int),
            )
    }
}

/// Whether a directory's own declaration text, where the filter admits it,
/// parses cleanly against the store.
pub open spec fn decl_parses<F: AllowFilter>(
    store: Map<Seq<char>, Seq<char>>,
    rb: Seq<char>,
    filter: &F,
    dir: DirListing,
) -> bool {
    match dir.owners_text {
        Some(t) => filter.allowed_spec(spec_owners_path(dir.path@)) ==> spec_from_text(
            store,
            rb,
            spec_owners_path(dir.path@),
            t@,
        ) is Ok,
        None => true,
    }
}

/// Every admitted declaration text in the subtree parses cleanly.
/// Directories named `.git` and branches the filter rejects are skipped
/// whole and do not count.
pub open spec fn all_declarations_parse<F: AllowFilter>(
    store: Map<Seq<char>, Seq<char>>,
    rb: Seq<char>,
    filter: &F,
    dir: DirListing,
) -> bool
    decreases dir,
{
    if spec_file_name(dir.path@) == seq!['.', 'g', 'i', 't'] || !filter.allowed_spec(dir.path@) {
        true
    } else {
        &&& decl_parses(store, rb, filter, dir)
        &&& forall|i: int|
            0 <= i < dir.subdirs@.len() ==> all_declarations_parse(
                store,
                rb,
                filter,
                #[trigger] dir.subdirs@[i],
            )
    }
}

/// Some admitted declaration text in the subtree, outside `.git` and
/// rejected branches, parses to exactly this error.
pub open spec fn some_declaration_fails<F: AllowFilter>(
    store: Map<Seq<char>, Seq<char>>,
    rb: Seq<char>,
    filter: &F,
    dir: DirListing,
    e: crate::errors::OwnersErrorV,
) -> bool
    decreases dir,
{
    if spec_file_name(dir.path@) == seq!['.', 'g', 'i', 't'] || !filter.allowed_spec(dir.path@) {
        false
    } else {
        ||| (match dir.owners_text {
            Some(t) => filter.allowed_spec(spec_owners_path(dir.path@)) && spec_from_text(
                store,
                rb,
                spec_owners_path(dir.path@),
                t@,
            ) == Err::<OwnersFileConfigV, OwnersErrorV>(e),
            None => false,
        })
        ||| exists|i: int|
            0 <= i < dir.subdirs@.len() && some_declaration_fails(
                store,
                rb,
                filter,
                #[trigger] dir.subdirs@[i],
                e,
            )
    }
}

/// A failing declaration rules out all of them parsing.
pub proof fn lemma_fails_not_all<F: AllowFilter>(
    store: Map<Seq<char>, Seq<char>>,
    rb: Seq<char>,
    filter: &F,
    dir: DirListing,
    e: OwnersErrorV,
)
    requires
        some_declaration_fails(store, rb, filter, dir, e),
    ensures
        !all_declarations_parse(store, rb, filter, dir),
    decreases dir,
{
    if spec_file_name(dir.path@) != seq!['.', 'g', 'i', 't'] && filter.allowed_spec(dir.path@) {
        let own_fails = match dir.owners_text {
            Some(t) => filter.allowed_spec(spec_owners_path(dir.path@)) && spec_from_text(
                store,
                rb,
                spec_owners_path(dir.path@),
                t@,
            ) == Err::<OwnersFileConfigV, OwnersErrorV>(e),
            None => false,
        };
        if !own_fails {
            let i = choose|i: int|
                0 <= i < dir.subdirs@.len() && some_declaration_fails(
                    store,
                    rb,
                    filter,
                    #[trigger] dir.subdirs@[i],
                    e,
                );
            lemma_fails_not_all(store, rb, filter, dir.subdirs@[i], e);
        }
    }
}

/// Every admitted declaration text of a whole listing parses cleanly: the
/// root's own (the root is walked whatever its name or the filter's verdict
/// on it) and every subtree's.
pub open spec fn root_declarations_parse<F: AllowFilter>(
    store: Map<Seq<char>, Seq<char>>,
    filter: &F,
    root: DirListing,
) -> bool {
    &&& decl_parses(store, root.path@, filter, root)
    &&& forall|i: int|
        0 <= i < root.subdirs@.len() ==> all_declarations_parse(
            store,
            root.path@,
            filter,
            #[trigger] root.subdirs@[i],
        )
}

/// Some admitted declaration text of the listing parses to exactly this
/// error.
pub open spec fn root_declaration_fails<F: AllowFilter>(
    store: Map<Seq<char>, Seq<char>>,
    filter: &F,
    root: DirListing,
    e: OwnersErrorV,
) -> bool {
    ||| (match root.owners_text {
        Some(t) => filter.allowed_spec(spec_owners_path(root.path@)) && spec_from_text(
            store,
            root.path@,
            spec_owners_path(root.path@),
            t@,
        ) == Err::<OwnersFileConfigV, OwnersErrorV>(e),
        None => false,
    })
    ||| exists|i: int|
        0 <= i < root.subdirs@.len() && some_declaration_fails(
            store,
            root.path@,
            filter,
            #[trigger] root.subdirs@[i],
            e,
        )
}

/// Equality of trees: same paths, equal configurations, and equal children
/// in the same order.
pub open spec fn tree_eq_spec(a: TreeNode, b: TreeNode) -> bool
    decreases a,
{
    &&& a.path@ == b.path@
    &&& a.repo_base@ == b.repo_base@
    &&& crate::owners_file::config_eq_spec(a.owners_config, b.owners_config)
    &&& a.children@.len() == b.children@.len()
    &&& forall|i: int|
        0 <= i < a.children@.len() ==> tree_eq_spec(#[trigger] a.children@[i], b.children@[i])
}

pub fn tree_eq(a: &TreeNode, b: &TreeNode) -> (r: bool)
    ensures
        r == tree_eq_spec(*a, *b),
    decreases *a,
{
    if !crate::strutil::str_eq(a.path.as_str(), b.path.as_str()) {
        return false;
    }
    if !crate::strutil::str_eq(a.repo_base.as_str(), b.repo_base.as_str()) {
        return false;
    }
    if !crate::owners_file::config_eq(&a.owners_config, &b.owners_config) {
        return false;
    }
    let n = a.children.len();
    if n != b.children.len() {
        return false;
    }
    for i in 0..n
        invariant
            n == a.children@.len() && n == b.children@.len(),
            forall|j: int|
                0 <= j < i ==> tree_eq_spec(#[trigger] a.children@[j], b.children@[j]),
    {
        proof {
            assert(decreases_to!(*a => a.children));
            assert(decreases_to!(a.children => a.children@));
            assert(decreases_to!(a.children@ => a.children@[i as int]));
        }
        if !tree_eq(&a.children[i], &b.children[i]) {
            return false;
        }
    }
    true
}

impl PartialEq for TreeNode {
    fn eq(&self, other: &TreeNode) -> (r: bool) {
        tree_eq(self, other)
    }
}

impl vstd::std_specs::cmp::PartialEqSpecImpl for TreeNode {
    open spec fn obeys_eq_spec() -> bool {
        true
    }

    open spec fn eq_spec(&self, other: &TreeNode) -> bool {
        tree_eq_spec(*self, *other)
    }
}

impl Default for TreeNode {
    fn default() -> (r: TreeNode)
        ensures
            r.path@ == Seq::<char>::empty(),
            r.repo_base@ == Seq::<char>::empty(),
            r.owners_config@ == crate::owners_file::empty_config_v(),
            r.children@.len() == 0,
            tree_wf(r),
    {
        let r = TreeNode {
            path: String::new(),
            repo_base: String::new(),
            owners_config: OwnersFileConfig::new(),
            children: Vec::new(),
        };
        r
    }
}

impl TreeNode {
    pub fn new(path: &str, repo_base: &str) -> (r: TreeNode)
        ensures
            r.path@ == path@,
            r.repo_base@ == repo_base@,
            r.owners_config@ == crate::owners_file::empty_config_v(),
            r.owners_config.wf(),
            r.children@.len() == 0,
            tree_wf(r),
    {
        TreeNode {
            path: path.to_owned(),
            repo_base: repo_base.to_owned(),
            owners_config: OwnersFileConfig::new(),
            children: Vec::new(),
        }
    }

    /// Parse the directory's declaration file into this node, when there is
    /// one and the admission filter accepts it. Returns whether a declaration
    /// was loaded: exactly when text is present, the filter admits the
    /// declaration file's path, and the text parses.
    pub fn maybe_load_owners_file<F: AllowFilter>(
        &mut self,
        owners_text: Option<&String>,
        store: &FileStore,
        allow_filter: &F,
    ) -> (r: Result<bool, OwnersError>)
        requires
            old(self).owners_config.wf(),
            store.wf(),
        ensures
            final(self).path == old(self).path,
            final(self).repo_base == old(self).repo_base,
            final(self).children == old(self).children,
            final(self).owners_config.wf(),
            match owners_text {
                None => {
                    &&& r == Ok::<bool, OwnersError>(false)
                    &&& final(self).owners_config == old(self).owners_config
                },
                Some(t) => {
                    if !allow_filter.allowed_spec(spec_owners_path(old(self).path@)) {
                        &&& r == Ok::<bool, OwnersError>(false)
                        &&& final(self).owners_config == old(self).owners_config
                    } else {
                        match spec_from_text(
                            store@,
                            old(self).repo_base@,
                            spec_owners_path(old(self).path@),
                            t@,
                        ) {
                            Ok(cfg) => {
                                &&& r == Ok::<bool, OwnersError>(true)
                                &&& final(self).owners_config@ == cfg
                            },
                            Err(ev) => {
                                &&& r matches Err(e) && e@ == ev
                                &&& final(self).owners_config == old(self).owners_config
                            },
                        }
                    }
                },
            },
    {
        match owners_text {
            None => Ok(false),
            Some(text) => {
                let owners_file = crate::paths::join_path(self.path.as_str(), "OWNERS");
                proof {
                    reveal_strlit("OWNERS");
                    assert("OWNERS"@ =~= owners_chars());
                }
                if !allow_filter.allowed(owners_file.as_str()) {
                    return Ok(false);
                }
                match OwnersFileConfig::from_text(
                    text.as_str(),
                    owners_file.as_str(),
                    self.repo_base.as_str(),
                    store,
                ) {
                    Ok(config) => {
                        self.owners_config = config;
                        Ok(true)
                    },
                    Err(e) => Err(e),
                }
            },
        }
    }

    /// Build the whole tree from a raw directory listing: the root is always
    /// a node; every directory, at any depth, is walked only if the filter
    /// admits it as a branch, and every directory with its own admitted
    /// declaration becomes a node under the nearest declared ancestor.
    pub fn load_from_files<F: AllowFilter>(
        root: &DirListing,
        store: &FileStore,
        allow_filter: &F,
    ) -> (r: Result<TreeNode, OwnersError>)
        requires
            store.wf(),
        ensures
            match r {
                Ok(t) => {
                    &&& t.path@ == root.path@
                    &&& t.repo_base@ == root.path@
                    &&& tree_wf(t)
                    &&& match root.owners_text {
                        None => t.owners_config@ == crate::owners_file::empty_config_v(),
                        Some(x) => {
                            if !allow_filter.allowed_spec(spec_owners_path(root.path@)) {
                                t.owners_config@ == crate::owners_file::empty_config_v()
                            } else {
                                spec_from_text(
                                    store@,
                                    root.path@,
                                    spec_owners_path(root.path@),
                                    x@,
                                ) == Ok::<_, OwnersErrorV>(t.owners_config@)
                            }
                        },
                    }
                    &&& valid_children(
                        store@,
                        root.path@,
                        allow_filter,
                        root.subdirs@,
                        root.subdirs@.len() as int,
                        t.children@,
                    )
                },
                Err(e) => root_declaration_fails(store@, allow_filter, *root, e@),
            },
            root_declarations_parse(store@, allow_filter, *root) ==> r is Ok,
    {
        let mut root_node = TreeNode::new(root.path.as_str(), root.path.as_str());
        match root_node.maybe_load_owners_file(root.owners_text.as_ref(), store, allow_filter) {
            Ok(b) => {},
            Err(e) => {
                proof {
                    assert(root_declaration_fails(store@, allow_filter, *root, e@));
                }
                return Err(e);
            },
        }
        let ghost root_cfg = root_node.owners_config;
        let n = root.subdirs.len();
        proof {
            assert(root_node.children@.subrange(0, 0) =~= Seq::<TreeNode>::empty());
        }
        for i in 0..n
            invariant
                store.wf(),
                n == root.subdirs@.len(),
                root_node.path@ == root.path@,
                root_node.repo_base@ == root.path@,
                root_node.owners_config.wf(),
                root_node.owners_config == root_cfg,
                match root.owners_text {
                    None => root_node.owners_config@ == crate::owners_file::empty_config_v(),
                    Some(x) => {
                        if !allow_filter.allowed_spec(spec_owners_path(root.path@)) {
                            root_node.owners_config@ == crate::owners_file::empty_config_v()
                        } else {
                            spec_from_text(
                                store@,
                                root.path@,
                                spec_owners_path(root.path@),
                                x@,
                            ) == Ok::<_, OwnersErrorV>(root_node.owners_config@)
                        }
                    },
                },
                forall|q: int|
                    0 <= q < root_node.children@.len() ==> tree_wf(#[trigger] root_node.children@[q]),
                valid_children(
                    store@,
                    root.path@,
                    allow_filter,
                    root.subdirs@,
                    i as int,
                    root_node.children@,
                ),
        {
            let subdir = &root.subdirs[i];
            let ghost pre = root_node.children@;
            match root_node.load_children_from_files(subdir, store, allow_filter) {
                Ok(u) => {
                    proof {
                        let added = root_node.children@.subrange(
                            pre.len() as int,
                            root_node.children@.len() as int,
                        );
                        assert(root_node.children@.subrange(0, pre.len() as int) =~= pre);
                        assert(valid_children(
                            store@,
                            root.path@,
                            allow_filter,
                            root.subdirs@,
                            i + 1,
                            root_node.children@,
                        )) by {
                            assert(valid_contribs(
                                store@,
                                root.path@,
                                allow_filter,
                                root.subdirs@[i as int],
                                added,
                            ));
                        }
                    }
                },
                Err(e) => {
                    proof {
                        assert(some_declaration_fails(
                            store@,
                            root.path@,
                            allow_filter,
                            root.subdirs@[i as int],
                            e@,
                        ));
                        assert(root_declaration_fails(store@, allow_filter, *root, e@));
                        lemma_fails_not_all(store@, root.path@, allow_filter, root.subdirs@[i as int], e@);
                    }
                    return Err(e);
                },
            }
        }
        Ok(root_node)
    }

    /// Walk one subdirectory, consulting the admission filter for the whole
    /// branch first: a rejected branch (or git metadata) contributes nothing;
    /// a directory with its own admitted declaration becomes a child of
    /// `self`; one without is passed through, so that its declared
    /// descendants attach to `self` directly.
    fn load_children_from_files<F: AllowFilter>(
        &mut self,
        directory: &DirListing,
        store: &FileStore,
        allow_filter: &F,
    ) -> (r: Result<(), OwnersError>)
        requires
            store.wf(),
            old(self).owners_config.wf(),
            forall|q: int|
                0 <= q < old(self).children@.len() ==> tree_wf(#[trigger] old(self).children@[q]),
        ensures
            final(self).path == old(self).path,
            final(self).repo_base == old(self).repo_base,
            final(self).owners_config == old(self).owners_config,
            final(self).children@.len() >= old(self).children@.len(),
            final(self).children@.subrange(0, old(self).children@.len() as int) == old(
                self,
            ).children@,
            forall|q: int|
                0 <= q < final(self).children@.len() ==> tree_wf(#[trigger] final(self).children@[q]),
            r matches Ok(u) ==> valid_contribs(
                store@,
                old(self).repo_base@,
                allow_filter,
                *directory,
                final(self).children@.subrange(
                    old(self).children@.len() as int,
                    final(self).children@.len() as int,
                ),
            ),
            all_declarations_parse(store@, old(self).repo_base@, allow_filter, *directory)
                ==> r is Ok,
            r matches Err(e) ==> some_declaration_fails(
                store@,
                old(self).repo_base@,
                allow_filter,
                *directory,
                e@,
            ),
        decreases *directory,
    {
        proof {
            reveal_strlit(".git");
            assert(".git"@ =~= seq!['.', 'g', 'i', 't']);
        }
        if crate::strutil::str_eq(file_name(directory.path.as_str()), ".git") {
            proof {
                assert(self.children@.subrange(0, self.children@.len() as int) =~= self.children@);
                assert(self.children@.subrange(
                    self.children@.len() as int,
                    self.children@.len() as int,
                ) =~= Seq::<TreeNode>::empty());
            }
            return Ok(());
        }
        if !allow_filter.allowed(directory.path.as_str()) {
            // the branch is rejected whole: nothing beneath it is visited
            proof {
                assert(self.children@.subrange(0, self.children@.len() as int) =~= self.children@);
                assert(self.children@.subrange(
                    self.children@.len() as int,
                    self.children@.len() as int,
                ) =~= Seq::<TreeNode>::empty());
            }
            return Ok(());
        }
        let mut current_loc_node = TreeNode::new(directory.path.as_str(), self.repo_base.as_str());
        let has_current_owners_file = match current_loc_node.maybe_load_owners_file(
            directory.owners_text.as_ref(),
            store,
            allow_filter,
        ) {
            Ok(b) => b,
            Err(e) => {
                proof {
                    assert(self.children@.subrange(0, self.children@.len() as int)
                        =~= self.children@);
                    assert(some_declaration_fails(
                        store@,
                        self.repo_base@,
                        allow_filter,
                        *directory,
                        e@,
                    ));
                    lemma_fails_not_all(store@, self.repo_base@, allow_filter, *directory, e@);
                }
                return Err(e);
            },
        };
        let n = directory.subdirs.len();
        let ghost base = self.children@;
        let ghost rb = self.repo_base@;
        for i in 0..n
            invariant
                store.wf(),
                n == directory.subdirs@.len(),
                self.path == old(self).path,
                self.repo_base == old(self).repo_base,
                rb == old(self).repo_base@,
                self.owners_config == old(self).owners_config,
                current_loc_node.path@ == directory.path@,
                current_loc_node.repo_base@ == rb,
                current_loc_node.owners_config.wf(),
                spec_file_name(directory.path@) != seq!['.', 'g', 'i', 't'],
                allow_filter.allowed_spec(directory.path@),
                has_current_owners_file ==> (directory.owners_text matches Some(t)
                    && allow_filter.allowed_spec(spec_owners_path(directory.path@))
                    && spec_from_text(store@, rb, spec_owners_path(directory.path@), t@) == Ok::<
                    _,
                    OwnersErrorV,
                >(current_loc_node.owners_config@)),
                !has_current_owners_file ==> (directory.owners_text is None
                    || !allow_filter.allowed_spec(spec_owners_path(directory.path@))),
                forall|q: int|
                    0 <= q < self.children@.len() ==> tree_wf(#[trigger] self.children@[q]),
                forall|q: int|
                    0 <= q < current_loc_node.children@.len() ==> tree_wf(
                        #[trigger] current_loc_node.children@[q],
                    ),
                base == old(self).children@,
                self.children@.len() >= base.len(),
                self.children@.subrange(0, base.len() as int) == base,
                has_current_owners_file ==> self.children@ == base,
                has_current_owners_file ==> valid_children(
                    store@,
                    rb,
                    allow_filter,
                    directory.subdirs@,
                    i as int,
                    current_loc_node.children@,
                ),
                !has_current_owners_file ==> current_loc_node.children@.len() == 0,
                !has_current_owners_file ==> valid_children(
                    store@,
                    rb,
                    allow_filter,
                    directory.subdirs@,
                    i as int,
                    self.children@.subrange(base.len() as int, self.children@.len() as int),
                ),
        {
            let subdir = &directory.subdirs[i];
            proof {
                assert(decreases_to!(*directory => directory.subdirs));
                assert(decreases_to!(directory.subdirs => directory.subdirs@));
                assert(decreases_to!(directory.subdirs@ => directory.subdirs@[i as int]));
            }
            if has_current_owners_file {
                let ghost pre = current_loc_node.children@;
                match current_loc_node.load_children_from_files(subdir, store, allow_filter) {
                    Ok(u) => {
                        proof {
                            let added = current_loc_node.children@.subrange(
                                pre.len() as int,
                                current_loc_node.children@.len() as int,
                            );
                            assert(current_loc_node.children@.subrange(0, pre.len() as int)
                                =~= pre);
                            assert(valid_children(
                                store@,
                                rb,
                                allow_filter,
                                directory.subdirs@,
                                i + 1,
                                current_loc_node.children@,
                            )) by {
                                assert(valid_contribs(
                                    store@,
                                    rb,
                                    allow_filter,
                                    directory.subdirs@[i as int],
                                    added,
                                ));
                            }
                        }
                    },
                    Err(e) => {
                        proof {
                            assert(self.children@.subrange(0, self.children@.len() as int)
                                =~= self.children@);
                            assert(some_declaration_fails(
                                store@,
                                rb,
                                allow_filter,
                                directory.subdirs@[i as int],
                                e@,
                            ));
                            assert(some_declaration_fails(store@, rb, allow_filter, *directory, e@));
                            lemma_fails_not_all(store@, rb, allow_filter, *directory, e@);
                        }
                        return Err(e);
                    },
                }
            } else {
                let ghost pre = self.children@;
                match self.load_children_from_files(subdir, store, allow_filter) {
                    Ok(u) => {
                        proof {
                            let added = self.children@.subrange(
                                pre.len() as int,
                                self.children@.len() as int,
                            );
                            assert(self.children@.subrange(0, pre.len() as int) =~= pre);
                            assert(self.children@.subrange(0, base.len() as int) =~= base);
                            let whole = self.children@.subrange(
                                base.len() as int,
                                self.children@.len() as int,
                            );
                            let prev = pre.subrange(base.len() as int, pre.len() as int);
                            assert(whole.subrange(0, prev.len() as int) =~= prev);
                            assert(whole.subrange(prev.len() as int, whole.len() as int)
                                =~= added);
                            assert(valid_children(
                                store@,
                                rb,
                                allow_filter,
                                directory.subdirs@,
                                i + 1,
                                whole,
                            )) by {
                                assert(valid_contribs(
                                    store@,
                                    rb,
                                    allow_filter,
                                    directory.subdirs@[i as int],
                                    added,
                                ));
                            }
                        }
                    },
                    Err(e) => {
                        proof {
                            assert(some_declaration_fails(
                                store@,
                                rb,
                                allow_filter,
                                directory.subdirs@[i as int],
                                e@,
                            ));
                            assert(some_declaration_fails(store@, rb, allow_filter, *directory, e@));
                            lemma_fails_not_all(store@, rb, allow_filter, *directory, e@);
                        }
                        return Err(e);
                    },
                }
            }
        }
        if has_current_owners_file {
            let ghost node = current_loc_node;
            self.children.push(current_loc_node);
            proof {
                assert(self.children@.subrange(0, base.len() as int) =~= base);
                let added = self.children@.subrange(base.len() as int, self.children@.len() as int);
                assert(added =~= seq![node]);
                assert(tree_wf(node));
                assert(valid_contribs(store@, rb, allow_filter, *directory, added));
            }
        } else {
            proof {
                assert(valid_contribs(
                    store@,
                    rb,
                    allow_filter,
                    *directory,
                    self.children@.subrange(base.len() as int, self.children@.len() as int),
                ));
            }
        }
        Ok(())
    }
}

} // verus!
