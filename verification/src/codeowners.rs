//! Resolving the ownership tree into the final path-pattern → owners map,
//! and rendering that map as canonical CODEOWNERS text.
use crate::errors::{OwnersError, OwnersErrorV};
use crate::kvlist::{kv_find, kv_map, kv_unique, lemma_kv_contains, lemma_kv_index, lemma_kv_push, lemma_kv_update};
use crate::owners_set::{
    distinct_views, lemma_owner_names_contains, lemma_owner_names_push, owner_names,
    vec_contains_str, OwnersSet, OwnersSetV,
};
use crate::owners_tree::{tree_wf, TreeNode};
use crate::strutil::{
    is_char_prefix, join_strings, lemma_sorted_distinct_unique, lemma_sorted_output, seq_contains_char,
    sorted_strings, spec_join_sep, str_contains_char, str_eq, strictly_sorted_lex,
};
use vstd::prelude::*;
use vstd::string::StringExecFns;

verus! {

// ---------------------------------------------------------------------------
// The resolved map.
// ---------------------------------------------------------------------------
/// The pipeline's terminal artifact: path-pattern strings mapped to owner
/// sets, kept as an association list with unique keys.
#[derive(Debug)]
pub struct CodeownersMap {
    pub entries: Vec<(String, Vec<String>)>,
}

impl View for CodeownersMap {
    type V = Map<Seq<char>, Set<Seq<char>>>;

    open spec fn view(&self) -> Map<Seq<char>, Set<Seq<char>>> {
        kv_map(self.entries@, |v: Vec<String>| owner_names(v@))
    }
}

impl CodeownersMap {
    pub open spec fn wf(&self) -> bool {
        &&& kv_unique(self.entries@)
        &&& forall|i: int| 0 <= i < self.entries@.len() ==> distinct_views(#[trigger] self.entries@[i].1@)
    }

    pub fn new() -> (r: CodeownersMap)
        ensures
            r.wf(),
            r@ == Map::<Seq<char>, Set<Seq<char>>>::empty(),
    {
        CodeownersMap { entries: Vec::new() }
    }

    /// Map `key` to `owners`, replacing any earlier entry for the key.
    pub fn insert(&mut self, key: String, owners: Vec<String>)
        requires
            old(self).wf(),
            distinct_views(owners@),
        ensures
            final(self).wf(),
            final(self)@ == old(self)@.insert(key@, owner_names(owners@)),
    {
        let ghost f = |v: Vec<String>| owner_names(v@);
        match kv_find(&self.entries, key.as_str()) {
            Some(i) => {
                proof {
                    lemma_kv_update(self.entries@, f, i as int, key, owners);
                }
                self.entries[i] = (key, owners);
            },
            None => {
                proof {
                    lemma_kv_push(self.entries@, f, key, owners);
                }
                self.entries.push((key, owners));
            },
        }
    }

    /// The owner set stored under `key`, if any.
    pub fn get<'a>(&'a self, key: &str) -> (r: Option<&'a Vec<String>>)
        requires
            self.wf(),
        ensures
            match r {
                Some(v) => self@.contains_key(key@) && owner_names(v@) == self@[key@]
                    && distinct_views(v@),
                None => !self@.contains_key(key@),
            },
    {
        let ghost f = |v: Vec<String>| owner_names(v@);
        proof {
            lemma_kv_contains(self.entries@, f, key@);
        }
        match kv_find(&self.entries, key) {
            Some(i) => {
                proof {
                    lemma_kv_index(self.entries@, f, i as int);
                }
                Some(&self.entries[i].1)
            },
            None => None,
        }
    }
}

/// Equality of resolved maps with unique keys: the same patterns mapped to
/// the same owner sets, in whatever entry order.
pub open spec fn codeowners_eq_spec(a: CodeownersMap, b: CodeownersMap) -> bool {
    &&& kv_unique(a.entries@)
    &&& kv_unique(b.entries@)
    &&& a@ == b@
}

pub fn codeowners_eq(a: &CodeownersMap, b: &CodeownersMap) -> (r: bool)
    ensures
        r == codeowners_eq_spec(*a, *b),
{
    let ghost f = |v: Vec<String>| owner_names(v@);
    if !crate::kvlist::kv_unique_check(&a.entries) || !crate::kvlist::kv_unique_check(&b.entries) {
        return false;
    }
    let n = a.entries.len();
    for i in 0..n
        invariant
            n == a.entries@.len(),
            kv_unique(a.entries@),
            kv_unique(b.entries@),
            forall|q: int|
                0 <= q < i ==> {
                    let k = #[trigger] a.entries@[q].0@;
                    b@.contains_key(k) && b@[k] == owner_names(a.entries@[q].1@)
                },
    {
        proof {
            lemma_kv_index(a.entries@, f, i as int);
            lemma_kv_contains(b.entries@, f, a.entries@[i as int].0@);
        }
        match kv_find(&b.entries, a.entries[i].0.as_str()) {
            None => {
                proof {
                    if a@ == b@ {
                        assert(a@.contains_key(a.entries@[i as int].0@));
                    }
                }
                return false;
            },
            Some(ix) => {
                proof {
                    lemma_kv_index(b.entries@, f, ix as int);
                }
                if !crate::owners_set::same_owner_names(&a.entries[i].1, &b.entries[ix].1) {
                    proof {
                        if a@ == b@ {
                            assert(a@[a.entries@[i as int].0@] == b@[a.entries@[i as int].0@]);
                        }
                    }
                    return false;
                }
            },
        }
    }
    let m = b.entries.len();
    for i in 0..m
        invariant
            m == b.entries@.len(),
            kv_unique(a.entries@),
            kv_unique(b.entries@),
            forall|q: int|
                0 <= q < a.entries@.len() ==> {
                    let k = #[trigger] a.entries@[q].0@;
                    b@.contains_key(k) && b@[k] == owner_names(a.entries@[q].1@)
                },
            forall|q: int| 0 <= q < i ==> a@.contains_key(#[trigger] b.entries@[q].0@),
    {
        proof {
            lemma_kv_index(b.entries@, f, i as int);
            lemma_kv_contains(a.entries@, f, b.entries@[i as int].0@);
        }
        match kv_find(&a.entries, b.entries[i].0.as_str()) {
            None => {
                proof {
                    if a@ == b@ {
                        assert(b@.contains_key(b.entries@[i as int].0@));
                        lemma_kv_contains(a.entries@, f, b.entries@[i as int].0@);
                    }
                }
                return false;
            },
            Some(ix) => {},
        }
    }
    proof {
        let am = a@;
        let bm = b@;
        assert forall|k: Seq<char>| #[trigger] am.dom().contains(k) implies bm.dom().contains(k)
            && am[k] == bm[k] by {
            assert(am.contains_key(k));
            lemma_kv_contains(a.entries@, f, k);
            let q = choose|q: int| 0 <= q < a.entries@.len() && a.entries@[q].0@ == k;
            lemma_kv_index(a.entries@, f, q);
            assert(bm.contains_key(k));
        }
        assert forall|k: Seq<char>| #[trigger] bm.dom().contains(k) implies am.dom().contains(
            k,
        ) by {
            assert(bm.contains_key(k));
            lemma_kv_contains(b.entries@, f, k);
            let q = choose|q: int| 0 <= q < b.entries@.len() && b.entries@[q].0@ == k;
            assert(am.contains_key(k));
        }
        assert(am.dom() =~= bm.dom());
        assert(am =~= bm);
    }
    true
}

impl PartialEq for CodeownersMap {
    fn eq(&self, other: &CodeownersMap) -> (r: bool) {
        codeowners_eq(self, other)
    }
}

impl vstd::std_specs::cmp::PartialEqSpecImpl for CodeownersMap {
    open spec fn obeys_eq_spec() -> bool {
        true
    }

    open spec fn eq_spec(&self, other: &CodeownersMap) -> bool {
        codeowners_eq_spec(*self, *other)
    }
}

// ---------------------------------------------------------------------------
// Resolution, specified.
// ---------------------------------------------------------------------------
/// The effective owner set of a scope: its own owners, together with the
/// enclosing scope's owners when the scope's flag (or, where unset, the
/// global default) says to inherit.
pub open spec fn spec_effective(local: OwnersSetV, parent: Set<Seq<char>>, default: bool) -> Set<
    Seq<char>,
> {
    if local.inherit == Some(true) || (local.inherit is None && default) {
        local.owners.union(parent)
    } else {
        local.owners
    }
}

/// The map key of a node: `/` for the root, otherwise the path relative to
/// the root with a leading and trailing separator; a node not under the root
/// has none.
pub open spec fn spec_node_key(root: Seq<char>, path: Seq<char>) -> Option<Seq<char>> {
    if path == root {
        Some(seq!['/'])
    } else if path.len() > root.len() && path.subrange(0, root.len() as int) == root && path[root.len() as int]
        == '/' {
        Some(path.subrange(root.len() as int, path.len() as int) + seq!['/'])
    } else {
        None
    }
}

/// The pattern-override entries of one node folded into the map: each
/// override inherits (or not) from this node's own effective blanket owners.
pub open spec fn spec_add_overrides(
    entries: Seq<(String, OwnersSet)>,
    j: int,
    key: Seq<char>,
    owners: Set<Seq<char>>,
    default: bool,
    m: Map<Seq<char>, Set<Seq<char>>>,
) -> Map<Seq<char>, Set<Seq<char>>>
    decreases entries.len() - j,
    when 0 <= j <= entries.len()
{
    if j == entries.len() {
        m
    } else {
        let eff = spec_effective(entries[j].1@, owners, default);
        spec_add_overrides(entries, j + 1, key, owners, default, m.insert(key + entries[j].0@, eff))
    }
}

/// One node folded into the map: its blanket entry, its override entries,
/// then its children, each child inheriting from this node's effective
/// blanket owners.
pub open spec fn spec_add_node(
    node: TreeNode,
    root: Seq<char>,
    parent: Set<Seq<char>>,
    default: bool,
    m: Map<Seq<char>, Set<Seq<char>>>,
) -> Result<Map<Seq<char>, Set<Seq<char>>>, OwnersErrorV>
    decreases node, 1int, 0int,
{
    match spec_node_key(root, node.path@) {
        None => Err(OwnersErrorV::PathOutsideRoot { path: node.path@ }),
        Some(key) => {
            let owners = spec_effective(node.owners_config@.all_files, parent, default);
            let m1 = m.insert(key, owners);
            let m2 = spec_add_overrides(
                node.owners_config.pattern_overrides@,
                0,
                key,
                owners,
                default,
                m1,
            );
            spec_add_children(node.children@, 0, root, owners, default, m2)
        },
    }
}

pub open spec fn spec_add_children(
    children: Seq<TreeNode>,
    j: int,
    root: Seq<char>,
    owners: Set<Seq<char>>,
    default: bool,
    m: Map<Seq<char>, Set<Seq<char>>>,
) -> Result<Map<Seq<char>, Set<Seq<char>>>, OwnersErrorV>
    decreases children, 0int, children.len() - j,
    when 0 <= j <= children.len()
{
    if j == children.len() {
        Ok(m)
    } else {
        match spec_add_node(children[j], root, owners, default, m) {
            Ok(m2) => spec_add_children(children, j + 1, root, owners, default, m2),
            Err(e) => Err(e),
        }
    }
}

/// The resolved map of a whole tree: a top-down fold from the root, which
/// has no ancestor to inherit from.
pub open spec fn spec_generate(tree: TreeNode, default: bool) -> Result<
    Map<Seq<char>, Set<Seq<char>>>,
    OwnersErrorV,
> {
    spec_add_node(tree, tree.path@, Set::empty(), default, Map::empty())
}

// ---------------------------------------------------------------------------
// Resolution, executed.
// ---------------------------------------------------------------------------
fn node_key(root_path: &str, path: &str) -> (r: Option<String>)
    ensures
        match spec_node_key(root_path@, path@) {
            Some(k) => r matches Some(s) && s@ == k,
            None => r is None,
        },
{
    proof {
        reveal_strlit("/");
        assert("/"@ =~= seq!['/']);
    }
    if str_eq(path, root_path) {
        Some("/".to_owned())
    } else {
        let rl = root_path.unicode_len();
        let n = path.unicode_len();
        if is_char_prefix(path, root_path) && n > rl && path.get_char(rl) == '/' {
            let mut s = path.substring_char(rl, n).to_owned();
            s.append("/");
            proof {
                assert(s@ =~= path@.subrange(root_path@.len() as int, path@.len() as int)
                    + seq!['/']);
            }
            Some(s)
        } else {
            proof {
                if path@.len() > root_path@.len() && path@.subrange(0, root_path@.len() as int)
                    == root_path@ && path@[root_path@.len() as int] == '/' {
                    assert(false);
                }
            }
            None
        }
    }
}

/// The effective owner list of a scope, deduplicated: the scope's own owners
/// plus, when the scope inherits, the enclosing scope's owners.
fn effective_owners(local: &OwnersSet, parent: &Vec<String>, implicit_inherit: bool) -> (r: Vec<
    String,
>)
    requires
        local.wf(),
        distinct_views(parent@),
    ensures
        distinct_views(r@),
        owner_names(r@) == spec_effective(local@, owner_names(parent@), implicit_inherit),
{
    let mut out: Vec<String> = Vec::new();
    proof {
        assert(owner_names(out@) =~= Set::<Seq<char>>::empty());
        assert(out@.map_values(|o: String| o@) =~= Seq::<Seq<char>>::empty());
    }
    let inherits = match local.inherit {
        Some(b) => b,
        None => implicit_inherit,
    };
    if inherits {
        let n = parent.len();
        for i in 0..n
            invariant
                n == parent@.len(),
                distinct_views(parent@),
                distinct_views(out@),
                out@.len() == i,
                forall|j: int| 0 <= j < i ==> out@[j]@ == parent@[j]@,
                owner_names(out@) =~= owner_names(parent@.subrange(0, i as int)),
        {
            proof {
                lemma_owner_names_push(out@, parent@[i as int]);
                lemma_owner_names_contains(out@, parent@[i as int]@);
                lemma_owner_names_push(parent@.subrange(0, i as int), parent@[i as int]);
                assert(parent@.subrange(0, i + 1).drop_last() =~= parent@.subrange(0, i as int));
                assert(parent@.subrange(0, i + 1) =~= parent@.subrange(0, i as int).push(
                    parent@[i as int],
                ));
            }
            out.push(parent[i].clone());
        }
        proof {
            assert(parent@.subrange(0, n as int) =~= parent@);
        }
    }
    let m = local.owners.len();
    let ghost base_names = owner_names(out@);
    for i in 0..m
        invariant
            m == local.owners@.len(),
            local.wf(),
            distinct_views(out@),
            owner_names(out@) =~= base_names.union(owner_names(local.owners@.subrange(0, i as int))),
    {
        let ghost pre = out@;
        if !vec_contains_str(&out, local.owners[i].as_str()) {
            out.push(local.owners[i].clone());
        }
        proof {
            lemma_owner_names_push(pre, local.owners@[i as int]);
            lemma_owner_names_push(local.owners@.subrange(0, i as int), local.owners@[i as int]);
            assert(local.owners@.subrange(0, i + 1) =~= local.owners@.subrange(0, i as int).push(
                local.owners@[i as int],
            ));
            assert(owner_names(out@) =~= base_names.union(
                owner_names(local.owners@.subrange(0, i + 1)),
            ));
        }
    }
    proof {
        assert(local.owners@.subrange(0, m as int) =~= local.owners@);
        if local.inherit == Some(true) || (local.inherit is None && implicit_inherit) {
            assert(owner_names(out@) =~= spec_effective(
                local@,
                owner_names(parent@),
                implicit_inherit,
            ));
        } else {
            assert(owner_names(out@) =~= spec_effective(
                local@,
                owner_names(parent@),
                implicit_inherit,
            ));
        }
    }
    out
}

/// Clone an owner list.
fn clone_owners(v: &Vec<String>) -> (r: Vec<String>)
    ensures
        r@.len() == v@.len(),
        forall|i: int| 0 <= i < v@.len() ==> r@[i]@ == v@[i]@,
        owner_names(r@) == owner_names(v@),
        distinct_views(v@) ==> distinct_views(r@),
{
    let mut r: Vec<String> = Vec::new();
    let n = v.len();
    for i in 0..n
        invariant
            n == v@.len(),
            r@.len() == i,
            forall|j: int| 0 <= j < i ==> r@[j]@ == v@[j]@,
    {
        r.push(v[i].clone());
    }
    proof {
        assert(r@.map_values(|o: String| o@) =~= v@.map_values(|o: String| o@));
    }
    r
}

fn add_codeowners(
    tree_node: &TreeNode,
    root_path: &str,
    parent_owners: &Vec<String>,
    implicit_inherit: bool,
    codeowners: &mut CodeownersMap,
) -> (r: Result<(), OwnersError>)
    requires
        tree_wf(*tree_node),
        distinct_views(parent_owners@),
        old(codeowners).wf(),
    ensures
        final(codeowners).wf(),
        ({
            let res = spec_add_node(
                *tree_node,
                root_path@,
                owner_names(parent_owners@),
                implicit_inherit,
                old(codeowners)@,
            );
            match r {
                Ok(u) => res == Ok::<Map<Seq<char>, Set<Seq<char>>>, OwnersErrorV>(
                    final(codeowners)@,
                ),
                Err(e) => res == Err::<Map<Seq<char>, Set<Seq<char>>>, OwnersErrorV>(e@),
            }
        }),
    decreases *tree_node, 1int,
{
    let key = match node_key(root_path, tree_node.path.as_str()) {
        Some(k) => k,
        None => {
            return Err(OwnersError::PathOutsideRoot { path: tree_node.path.clone() });
        },
    };
    let owners = effective_owners(
        &tree_node.owners_config.all_files,
        parent_owners,
        implicit_inherit,
    );
    codeowners.insert(key.clone(), clone_owners(&owners));
    let ghost keyv = key@;
    let ghost ownersv = owner_names(owners@);
    let ghost m1 = codeowners@;
    let entries = &tree_node.owners_config.pattern_overrides;
    let n = entries.len();
    for j in 0..n
        invariant
            n == entries@.len(),
            tree_wf(*tree_node),
            entries == &tree_node.owners_config.pattern_overrides,
            distinct_views(owners@),
            ownersv == owner_names(owners@),
            keyv == key@,
            codeowners.wf(),
            spec_add_overrides(entries@, 0, keyv, ownersv, implicit_inherit, m1)
                == spec_add_overrides(
                entries@,
                j as int,
                keyv,
                ownersv,
                implicit_inherit,
                codeowners@,
            ),
    {
        let pat = &entries[j].0;
        proof {
            assert(tree_node.owners_config.pattern_overrides@[j as int].1.wf());
        }
        let eff = effective_owners(&entries[j].1, &owners, implicit_inherit);
        let mut kp = key.clone();
        kp.append(pat.as_str());
        codeowners.insert(kp, eff);
    }
    let ghost m2 = codeowners@;
    let children = &tree_node.children;
    let cn = children.len();
    for j in 0..cn
        invariant
            cn == children@.len(),
            tree_wf(*tree_node),
            children == &tree_node.children,
            distinct_views(owners@),
            ownersv == owner_names(owners@),
            codeowners.wf(),
            spec_add_children(children@, 0, root_path@, ownersv, implicit_inherit, m2)
                == spec_add_children(
                children@,
                j as int,
                root_path@,
                ownersv,
                implicit_inherit,
                codeowners@,
            ),
    {
        proof {
            assert(tree_wf(tree_node.children@[j as int]));
            assert(decreases_to!(*tree_node => tree_node.children));
            assert(decreases_to!(tree_node.children => tree_node.children@));
            assert(decreases_to!(tree_node.children@ => tree_node.children@[j as int]));
        }
        match add_codeowners(&children[j], root_path, &owners, implicit_inherit, codeowners) {
            Ok(u) => {},
            Err(e) => {
                return Err(e);
            },
        }
    }
    Ok(())
}

/// Resolve the tree into the final map, inheriting owners top-down; the
/// global default decides inheritance wherever a scope leaves it unset.
pub fn generate_codeowners(owners_tree: &TreeNode, implicit_inherit: bool) -> (r: Result<
    CodeownersMap,
    OwnersError,
>)
    requires
        tree_wf(*owners_tree),
    ensures
        match r {
            Ok(m) => m.wf() && spec_generate(*owners_tree, implicit_inherit) == Ok::<
                Map<Seq<char>, Set<Seq<char>>>,
                OwnersErrorV,
            >(m@),
            Err(e) => spec_generate(*owners_tree, implicit_inherit) == Err::<
                Map<Seq<char>, Set<Seq<char>>>,
                OwnersErrorV,
            >(e@),
        },
{
    let mut codeowners = CodeownersMap::new();
    let no_parents: Vec<String> = Vec::new();
    proof {
        assert(owner_names(no_parents@) =~= Set::<Seq<char>>::empty());
        assert(no_parents@.map_values(|o: String| o@) =~= Seq::<Seq<char>>::empty());
    }
    let root_path = owners_tree.path.clone();
    match add_codeowners(
        owners_tree,
        root_path.as_str(),
        &no_parents,
        implicit_inherit,
        &mut codeowners,
    ) {
        Ok(u) => Ok(codeowners),
        Err(e) => Err(e),
    }
}

// ---------------------------------------------------------------------------
// Serialization, specified.
// ---------------------------------------------------------------------------
/// An owner as written on an output line: verbatim when it already carries a
/// `@`, otherwise with `@` prepended.
pub open spec fn spec_at_owner(o: Seq<char>) -> Seq<char> {
    if seq_contains_char(o, '@') {
        o
    } else {
        seq!['@'] + o
    }
}

/// One rendered output line: the pattern (the root key `/` shown as `*`),
/// then, if there are owners, one space and the space-separated owners.
pub open spec fn spec_entry_text(key: Seq<char>, os: Seq<Seq<char>>) -> Seq<char> {
    let shown = if key == seq!['/'] {
        seq!['*']
    } else {
        key
    };
    if os.len() == 0 {
        shown
    } else {
        shown + seq![' '] + spec_join_sep(os.map_values(|o: Seq<char>| spec_at_owner(o)), seq![' '])
    }
}

/// Whether `line` renders the entry `key -> owners`: its owner list is the
/// sorted enumeration of the owner set.
pub open spec fn spec_is_rendered_entry(
    key: Seq<char>,
    owners: Set<Seq<char>>,
    line: Seq<char>,
) -> bool {
    exists|os: Seq<Seq<char>>|
        strictly_sorted_lex(os) && os.to_set() == owners && line == spec_entry_text(key, os)
}

/// Lines reading exactly `*` are left out: an unowned repository root
/// produces no line at all.
pub open spec fn spec_drop_star(lines: Seq<Seq<char>>) -> Seq<Seq<char>>
    decreases lines.len(),
{
    if lines.len() == 0 {
        Seq::empty()
    } else if lines[0] == seq!['*'] {
        spec_drop_star(lines.drop_first())
    } else {
        seq![lines[0]] + spec_drop_star(lines.drop_first())
    }
}

pub proof fn lemma_drop_star_push(lines: Seq<Seq<char>>, x: Seq<char>)
    ensures
        spec_drop_star(lines.push(x)) == if x == seq!['*'] {
            spec_drop_star(lines)
        } else {
            spec_drop_star(lines).push(x)
        },
    decreases lines.len(),
{
    if lines.len() == 0 {
        let p = lines.push(x);
        assert(p.len() == 1);
        assert(p[0] == x);
        let e = p.drop_first();
        assert(e =~= Seq::<Seq<char>>::empty());
        assert(spec_drop_star(e) =~= Seq::<Seq<char>>::empty());
        assert(spec_drop_star(lines) =~= Seq::<Seq<char>>::empty());
        if x == seq!['*'] {
            assert(spec_drop_star(p) =~= spec_drop_star(lines));
        } else {
            assert(spec_drop_star(p) =~= seq![x] + spec_drop_star(e));
            assert(spec_drop_star(p) =~= spec_drop_star(lines).push(x));
        }
    } else {
        assert(lines.push(x).drop_first() =~= lines.drop_first().push(x));
        lemma_drop_star_push(lines.drop_first(), x);
        assert(lines.push(x)[0] == lines[0]);
        if x == seq!['*'] {
        } else {
            if lines[0] == seq!['*'] {
            } else {
                assert(seq![lines[0]] + spec_drop_star(lines.drop_first()).push(x)
                    =~= (seq![lines[0]] + spec_drop_star(lines.drop_first())).push(x));
            }
        }
    }
}

/// The canonical output of a resolved map: one rendered line per key, taken
/// in sorted key order, the bare `*` line dropped, joined with newlines.
pub open spec fn spec_codeowners_output(m: Map<Seq<char>, Set<Seq<char>>>, out: Seq<char>) -> bool {
    exists|keys: Seq<Seq<char>>, lines: Seq<Seq<char>>|
        {
            &&& strictly_sorted_lex(keys)
            &&& keys.to_set() == m.dom()
            &&& lines.len() == keys.len()
            &&& (forall|i: int|
                0 <= i < keys.len() ==> spec_is_rendered_entry(
                    #[trigger] keys[i],
                    m[keys[i]],
                    #[trigger] lines[i],
                ))
            &&& out == spec_join_sep(spec_drop_star(lines), seq!['\n'])
        }
}

// ---------------------------------------------------------------------------
// Serialization, executed.
// ---------------------------------------------------------------------------
/// Render the resolved map as canonical CODEOWNERS text: lines sorted by
/// pattern, owners sorted and `@`-prefixed, the root as `*`.
pub fn to_codeowners_string(codeowners: &CodeownersMap) -> (r: String)
    requires
        codeowners.wf(),
    ensures
        spec_codeowners_output(codeowners@, r@),
{
    let ghost f = |v: Vec<String>| owner_names(v@);
    let mut keys: Vec<String> = Vec::new();
    let n = codeowners.entries.len();
    for i in 0..n
        invariant
            n == codeowners.entries@.len(),
            codeowners.wf(),
            keys@.len() == i,
            forall|j: int| 0 <= j < i ==> keys@[j]@ == codeowners.entries@[j].0@,
    {
        keys.push(codeowners.entries[i].0.clone());
    }
    let ghost keyviews = keys@.map_values(|s: String| s@);
    proof {
        assert forall|i: int, j: int| 0 <= i < j < keyviews.len() implies keyviews[i]
            != keyviews[j] by {
            assert(codeowners.entries@[i].0@ != codeowners.entries@[j].0@);
        }
        assert forall|x: Seq<char>| keyviews.to_set().contains(x) implies codeowners@.contains_key(
            x,
        ) by {
            let i = choose|i: int| 0 <= i < keyviews.len() && keyviews[i] == x;
            lemma_kv_index(codeowners.entries@, f, i);
        }
        assert forall|x: Seq<char>| codeowners@.contains_key(x) implies keyviews.to_set().contains(
            x,
        ) by {
            lemma_kv_contains(codeowners.entries@, f, x);
            let i = choose|i: int| 0 <= i < codeowners.entries@.len() && codeowners.entries@[i].0@
                == x;
            assert(keyviews[i] == x);
            assert(keyviews.contains(x));
        }
        assert(keyviews.to_set() =~= codeowners@.dom());
    }
    let skeys = sorted_strings(keys);
    let ghost sk = skeys@.map_values(|s: String| s@);
    proof {
        lemma_sorted_output(keyviews, sk);
    }
    let mut lines: Vec<String> = Vec::new();
    let ghost all_lines = Seq::<Seq<char>>::empty();
    let m = skeys.len();
    proof {
        reveal_strlit("/");
        reveal_strlit("*");
        reveal_strlit("@");
        reveal_strlit(" ");
        assert("/"@ =~= seq!['/']);
        assert("*"@ =~= seq!['*']);
        assert("@"@ =~= seq!['@']);
        assert(" "@ =~= seq![' ']);
    }
    let mut i: usize = 0;
    let ghost mv = codeowners@;
    while i < m
        invariant
            m == skeys@.len(),
            i <= m,
            codeowners.wf(),
            mv == codeowners@,
            sk == skeys@.map_values(|s: String| s@),
            sk.to_set() == mv.dom(),
            strictly_sorted_lex(sk),
            all_lines.len() == i,
            forall|q: int|
                0 <= q < i ==> spec_is_rendered_entry(
                    #[trigger] sk[q],
                    mv[sk[q]],
                    #[trigger] all_lines[q],
                ),
            lines@.map_values(|s: String| s@) == spec_drop_star(all_lines),
            "/"@ =~= seq!['/'],
            "*"@ =~= seq!['*'],
            "@"@ =~= seq!['@'],
            " "@ =~= seq![' '],
        decreases m - i,
    {
        let key = &skeys[i];
        proof {
            assert(sk[i as int] == key@);
            assert(sk.contains(key@));
            assert(mv.contains_key(key@));
        }
        let owners = match codeowners.get(key.as_str()) {
            Some(v) => v,
            None => {
                proof {
                    assert(false);
                }
                vstd::pervasive::unreached()
            },
        };
        let cloned = clone_owners(owners);
        proof {
            assert(cloned@.map_values(|s: String| s@) =~= owners@.map_values(|s: String| s@));
        }
        let sowners = sorted_strings(cloned);
        let ghost so = sowners@.map_values(|s: String| s@);
        proof {
            let ov = owners@.map_values(|s: String| s@);
            assert(ov.no_duplicates()) by {
                assert(forall|p: int, q: int|
                    0 <= p < q < owners@.len() ==> owners@[p]@ != owners@[q]@);
            }
            lemma_sorted_output(ov, so);
            assert(so.to_set() =~= owner_names(owners@));
        }
        // owners, each prefixed with `@` unless it already carries one
        let mut pref: Vec<String> = Vec::new();
        let oc = sowners.len();
        for k in 0..oc
            invariant
                oc == sowners@.len(),
                so == sowners@.map_values(|s: String| s@),
                pref@.len() == k,
                forall|q: int| 0 <= q < k ==> pref@[q]@ == spec_at_owner(#[trigger] so[q]),
                "@"@ =~= seq!['@'],
        {
            let o = &sowners[k];
            proof {
                assert(so[k as int] == o@);
            }
            if str_contains_char(o.as_str(), '@') {
                pref.push(o.clone());
            } else {
                let mut s = "@".to_owned();
                s.append(o.as_str());
                proof {
                    assert(s@ =~= spec_at_owner(o@));
                }
                pref.push(s);
            }
        }
        proof {
            assert(pref@.map_values(|s: String| s@) =~= so.map_values(
                |o: Seq<char>| spec_at_owner(o),
            ));
        }
        // the line: pattern, root shown as `*`, then the owners
        let mut line: String = if str_eq(key.as_str(), "/") {
            "*".to_owned()
        } else {
            key.clone()
        };
        if pref.len() > 0 {
            line.append(" ");
            let joined = join_strings(&pref, " ");
            line.append(joined.as_str());
        }
        proof {
            assert(line@ == spec_entry_text(key@, so));
            assert(spec_is_rendered_entry(sk[i as int], mv[sk[i as int]], line@));
        }
        let ghost pre_lines = lines@.map_values(|s: String| s@);
        let ghost linev = line@;
        if !str_eq(line.as_str(), "*") {
            lines.push(line);
            proof {
                assert(lines@.map_values(|s: String| s@) =~= pre_lines.push(linev));
            }
        }
        proof {
            lemma_drop_star_push(all_lines, linev);
        }
        proof {
            all_lines = all_lines.push(linev);
        }
        i = i + 1;
    }
    let out = join_strings(&lines, "\n");
    proof {
        reveal_strlit("\n");
        assert("\n"@ =~= seq!['\n']);
        assert(spec_codeowners_output(mv, out@)) by {
            assert(sk.to_set() == mv.dom());
            assert(out@ == spec_join_sep(spec_drop_star(all_lines), seq!['\n']));
        }
    }
    out
}

// ---------------------------------------------------------------------------
// Laws of resolution and serialization.
// ---------------------------------------------------------------------------
/// Resolving the same tree twice with the same global default yields the
/// same map: the resolved map is a function of the tree and the default.
pub proof fn lemma_resolution_deterministic(
    tree: TreeNode,
    default: bool,
    m1: Map<Seq<char>, Set<Seq<char>>>,
    m2: Map<Seq<char>, Set<Seq<char>>>,
)
    requires
        spec_generate(tree, default) == Ok::<Map<Seq<char>, Set<Seq<char>>>, OwnersErrorV>(m1),
        spec_generate(tree, default) == Ok::<Map<Seq<char>, Set<Seq<char>>>, OwnersErrorV>(m2),
    ensures
        m1 == m2,
{
}

/// A scope's effective owners always include every owner it declares itself,
/// whatever the inheritance flag and the ancestors say. Resolution computes
/// each node's blanket entry and each override entry with `spec_effective`,
/// so this holds at every node.
pub proof fn lemma_effective_superset(local: OwnersSetV, parent: Set<Seq<char>>, default: bool)
    ensures
        local.owners.subset_of(spec_effective(local, parent, default)),
{
}

/// Toggling inheritance: a scope declaring `inherit = false` owns exactly
/// what it declares; one declaring `inherit = true` owns that plus its
/// ancestor's owners.
pub proof fn lemma_inherit_toggle(local: OwnersSetV, parent: Set<Seq<char>>, default: bool)
    ensures
        local.inherit == Some(false) ==> spec_effective(local, parent, default) == local.owners,
        local.inherit == Some(true) ==> spec_effective(local, parent, default)
            == local.owners.union(parent),
{
}

/// A pattern override inherits from the node's own effective blanket, not
/// from the ancestor directly: with every flag inheriting, the override's
/// effective owners are its own plus the node's plus the ancestor's.
pub proof fn lemma_override_inherits_own_blanket(
    ov: OwnersSetV,
    blanket: OwnersSetV,
    ancestor: Set<Seq<char>>,
    default: bool,
)
    requires
        ov.inherit == Some(true) || (ov.inherit is None && default),
    ensures
        spec_effective(ov, spec_effective(blanket, ancestor, default), default)
            == ov.owners.union(spec_effective(blanket, ancestor, default)),
        (blanket.inherit == Some(true) || (blanket.inherit is None && default))
            ==> spec_effective(ov, spec_effective(blanket, ancestor, default), default)
            =~= ov.owners.union(blanket.owners).union(ancestor),
{
    if blanket.inherit == Some(true) || (blanket.inherit is None && default) {
        assert(spec_effective(ov, spec_effective(blanket, ancestor, default), default)
            =~= ov.owners.union(blanket.owners).union(ancestor));
    }
}

/// At the root there is no ancestor to inherit from, so an explicit
/// `inherit = true` there is a no-op: the root's effective owners are always
/// exactly its own.
pub proof fn lemma_root_inherit_noop(local: OwnersSetV, default: bool)
    ensures
        spec_effective(local, Set::empty(), default) =~= local.owners,
{
}

// ---------------------------------------------------------------------------
// The blanket-superset law at map level: on trees whose fold writes pairwise
// distinct keys, every node's map entry contains its locally declared owners.
// ---------------------------------------------------------------------------
/// Two maps agree at a key: present in one iff in the other, equal values.
pub open spec fn map_agrees_at(
    m1: Map<Seq<char>, Set<Seq<char>>>,
    m2: Map<Seq<char>, Set<Seq<char>>>,
    k: Seq<char>,
) -> bool {
    &&& (m1.contains_key(k) <==> m2.contains_key(k))
    &&& (m1.contains_key(k) ==> m1[k] == m2[k])
}

/// The keys one node's own fold writes: its blanket key, then one key per
/// pattern override.
pub open spec fn own_keys(node: TreeNode, root: Seq<char>) -> Seq<Seq<char>> {
    match spec_node_key(root, node.path@) {
        None => Seq::empty(),
        Some(key) => seq![key] + Seq::new(
            node.owners_config.pattern_overrides@.len(),
            |j: int| key + node.owners_config.pattern_overrides@[j].0@,
        ),
    }
}

/// All keys a subtree's fold writes, in write order.
pub open spec fn subtree_keys(node: TreeNode, root: Seq<char>) -> Seq<Seq<char>>
    decreases node, 1int, 0int,
{
    own_keys(node, root) + children_keys(node.children@, 0, root)
}

pub open spec fn children_keys(children: Seq<TreeNode>, j: int, root: Seq<char>) -> Seq<Seq<char>>
    decreases children, 0int, children.len() - j,
    when 0 <= j <= children.len()
{
    if j == children.len() {
        Seq::empty()
    } else {
        subtree_keys(children[j], root) + children_keys(children, j + 1, root)
    }
}

/// Every node's blanket entry in the map contains the owners that node
/// declares locally.
pub open spec fn blanket_entries_superset(
    m: Map<Seq<char>, Set<Seq<char>>>,
    node: TreeNode,
    root: Seq<char>,
) -> bool
    decreases node,
{
    &&& (match spec_node_key(root, node.path@) {
        Some(k) => m.contains_key(k) && node.owners_config@.all_files.owners.subset_of(m[k]),
        None => true,
    })
    &&& forall|i: int|
        0 <= i < node.children@.len() ==> blanket_entries_superset(
            m,
            #[trigger] node.children@[i],
            root,
        )
}

/// Every node's blanket entry holds exactly its effective owners, and every
/// override entry exactly the override's effective owners over the node's
/// own effective blanket, ancestor owners threaded top-down.
pub open spec fn entries_exact(
    m: Map<Seq<char>, Set<Seq<char>>>,
    node: TreeNode,
    root: Seq<char>,
    parent: Set<Seq<char>>,
    default: bool,
) -> bool
    decreases node,
{
    match spec_node_key(root, node.path@) {
        None => true,
        Some(k) => {
            let owners = spec_effective(node.owners_config@.all_files, parent, default);
            &&& m.contains_key(k) && m[k] == owners
            &&& forall|j: int|
                0 <= j < node.owners_config.pattern_overrides@.len() ==> {
                    let pk = k + (#[trigger] node.owners_config.pattern_overrides@[j]).0@;
                    m.contains_key(pk) && m[pk] == spec_effective(
                        node.owners_config.pattern_overrides@[j].1@,
                        owners,
                        default,
                    )
                }
            &&& forall|i: int|
                0 <= i < node.children@.len() ==> entries_exact(
                    m,
                    #[trigger] node.children@[i],
                    root,
                    owners,
                    default,
                )
        },
    }
}

/// The override fold writes each override's entry exactly, provided the
/// override keys are pairwise distinct.
proof fn lemma_overrides_exact(
    entries: Seq<(String, OwnersSet)>,
    j: int,
    key: Seq<char>,
    owners: Set<Seq<char>>,
    default: bool,
    m: Map<Seq<char>, Set<Seq<char>>>,
)
    requires
        0 <= j <= entries.len(),
        forall|p: int, q: int|
            j <= p < q < entries.len() ==> key + (#[trigger] entries[p]).0@ != key
                + (#[trigger] entries[q]).0@,
    ensures
        forall|p: int|
            j <= p < entries.len() ==> {
                let r = spec_add_overrides(entries, j, key, owners, default, m);
                let pk = key + (#[trigger] entries[p]).0@;
                r.contains_key(pk) && r[pk] == spec_effective(entries[p].1@, owners, default)
            },
    decreases entries.len() - j,
{
    if j < entries.len() {
        let eff = spec_effective(entries[j].1@, owners, default);
        let m2 = m.insert(key + entries[j].0@, eff);
        lemma_overrides_exact(entries, j + 1, key, owners, default, m2);
        assert forall|p: int| j + 1 <= p < entries.len() implies key + (#[trigger] entries[j]).0@
            != key + entries[p].0@ by {}
        lemma_overrides_frame(entries, j + 1, key, owners, default, m2, key + entries[j].0@);
    }
}

/// A duplicate-free concatenation has duplicate-free, disjoint parts.
proof fn lemma_no_dup_split<A>(a: Seq<A>, b: Seq<A>)
    requires
        (a + b).no_duplicates(),
    ensures
        a.no_duplicates(),
        b.no_duplicates(),
        forall|x: A| #[trigger] a.contains(x) ==> !b.contains(x),
{
    assert forall|i: int, j: int| 0 <= i < j < a.len() implies a[i] != a[j] by {
        assert((a + b)[i] == a[i]);
        assert((a + b)[j] == a[j]);
    }
    assert forall|i: int, j: int| 0 <= i < j < b.len() implies b[i] != b[j] by {
        assert((a + b)[a.len() + i] == b[i]);
        assert((a + b)[a.len() + j] == b[j]);
    }
    assert forall|x: A| #[trigger] a.contains(x) implies !b.contains(x) by {
        if b.contains(x) {
            let i = choose|i: int| 0 <= i < a.len() && a[i] == x;
            let j = choose|j: int| 0 <= j < b.len() && b[j] == x;
            assert((a + b)[i] == x);
            assert((a + b)[a.len() + j] == x);
        }
    }
}

/// The override fold leaves every key outside its own key shapes alone.
proof fn lemma_overrides_frame(
    entries: Seq<(String, OwnersSet)>,
    j: int,
    key: Seq<char>,
    owners: Set<Seq<char>>,
    default: bool,
    m: Map<Seq<char>, Set<Seq<char>>>,
    k: Seq<char>,
)
    requires
        0 <= j <= entries.len(),
        forall|p: int| j <= p < entries.len() ==> k != key + #[trigger] entries[p].0@,
    ensures
        map_agrees_at(spec_add_overrides(entries, j, key, owners, default, m), m, k),
    decreases entries.len() - j,
{
    if j < entries.len() {
        let eff = spec_effective(entries[j].1@, owners, default);
        lemma_overrides_frame(entries, j + 1, key, owners, default, m.insert(key + entries[j].0@, eff), k);
    }
}

/// One node's fold leaves every key outside its subtree's keys alone.
proof fn lemma_add_node_frame(
    node: TreeNode,
    root: Seq<char>,
    parent: Set<Seq<char>>,
    default: bool,
    m0: Map<Seq<char>, Set<Seq<char>>>,
    m1: Map<Seq<char>, Set<Seq<char>>>,
    k: Seq<char>,
)
    requires
        spec_add_node(node, root, parent, default, m0) == Ok::<
            Map<Seq<char>, Set<Seq<char>>>,
            OwnersErrorV,
        >(m1),
        !subtree_keys(node, root).contains(k),
    ensures
        map_agrees_at(m1, m0, k),
    decreases node, 1int, 0int,
{
    broadcast use vstd::seq_lib::lemma_seq_concat_contains_all_elements;

    let key = spec_node_key(root, node.path@)->Some_0;
    let entries = node.owners_config.pattern_overrides@;
    let own = own_keys(node, root);
    assert(own[0] == key);
    assert(own.contains(key));
    let owners = spec_effective(node.owners_config@.all_files, parent, default);
    let m_a = m0.insert(key, owners);
    assert forall|p: int| 0 <= p < entries.len() implies k != key + #[trigger] entries[p].0@ by {
        assert(own[1 + p] == key + entries[p].0@);
        assert(own.contains(own[1 + p]));
    }
    lemma_overrides_frame(entries, 0, key, owners, default, m_a, k);
    let m_b = spec_add_overrides(entries, 0, key, owners, default, m_a);
    lemma_add_children_frame(node.children@, 0, root, owners, default, m_b, m1, k);
}

/// The children fold leaves every key outside the children's keys alone.
proof fn lemma_add_children_frame(
    children: Seq<TreeNode>,
    j: int,
    root: Seq<char>,
    owners: Set<Seq<char>>,
    default: bool,
    m0: Map<Seq<char>, Set<Seq<char>>>,
    m1: Map<Seq<char>, Set<Seq<char>>>,
    k: Seq<char>,
)
    requires
        0 <= j <= children.len(),
        spec_add_children(children, j, root, owners, default, m0) == Ok::<
            Map<Seq<char>, Set<Seq<char>>>,
            OwnersErrorV,
        >(m1),
        !children_keys(children, j, root).contains(k),
    ensures
        map_agrees_at(m1, m0, k),
    decreases children, 0int, children.len() - j,
{
    broadcast use vstd::seq_lib::lemma_seq_concat_contains_all_elements;

    if j < children.len() {
        let m_mid = spec_add_node(children[j], root, owners, default, m0)->Ok_0;
        lemma_add_node_frame(children[j], root, owners, default, m0, m_mid, k);
        lemma_add_children_frame(children, j + 1, root, owners, default, m_mid, m1, k);
    }
}

/// A key of any one child's subtree is among the children's keys.
proof fn lemma_children_keys_contain(
    children: Seq<TreeNode>,
    j: int,
    i: int,
    root: Seq<char>,
    x: Seq<char>,
)
    requires
        0 <= j <= i < children.len(),
        subtree_keys(children[i], root).contains(x),
    ensures
        children_keys(children, j, root).contains(x),
    decreases i - j,
{
    broadcast use vstd::seq_lib::lemma_seq_concat_contains_all_elements;

    if j < i {
        lemma_children_keys_contain(children, j + 1, i, root, x);
    }
}

/// The blanket-superset property transfers to any map agreeing with the
/// first on the subtree's keys.
proof fn lemma_superset_preserved(
    m1: Map<Seq<char>, Set<Seq<char>>>,
    m2: Map<Seq<char>, Set<Seq<char>>>,
    node: TreeNode,
    root: Seq<char>,
)
    requires
        blanket_entries_superset(m1, node, root),
        forall|k: Seq<char>| #[trigger] subtree_keys(node, root).contains(k) ==> map_agrees_at(
            m2,
            m1,
            k,
        ),
    ensures
        blanket_entries_superset(m2, node, root),
    decreases node,
{
    broadcast use vstd::seq_lib::lemma_seq_concat_contains_all_elements;

    match spec_node_key(root, node.path@) {
        Some(kk) => {
            assert(own_keys(node, root)[0] == kk);
            assert(own_keys(node, root).contains(kk));
            assert(subtree_keys(node, root).contains(kk));
        },
        None => {},
    }
    assert forall|i: int| 0 <= i < node.children@.len() implies blanket_entries_superset(
        m2,
        #[trigger] node.children@[i],
        root,
    ) by {
        assert forall|k: Seq<char>|
            #[trigger] subtree_keys(node.children@[i], root).contains(k) implies map_agrees_at(
            m2,
            m1,
            k,
        ) by {
            lemma_children_keys_contain(node.children@, 0, i, root, k);
            assert(subtree_keys(node, root).contains(k));
        }
        lemma_superset_preserved(m1, m2, node.children@[i], root);
    }
}

/// The exact-entries property transfers to any map agreeing with the first
/// on the subtree's keys.
proof fn lemma_exact_preserved(
    m1: Map<Seq<char>, Set<Seq<char>>>,
    m2: Map<Seq<char>, Set<Seq<char>>>,
    node: TreeNode,
    root: Seq<char>,
    parent: Set<Seq<char>>,
    default: bool,
)
    requires
        entries_exact(m1, node, root, parent, default),
        forall|k: Seq<char>| #[trigger] subtree_keys(node, root).contains(k) ==> map_agrees_at(
            m2,
            m1,
            k,
        ),
    ensures
        entries_exact(m2, node, root, parent, default),
    decreases node,
{
    broadcast use vstd::seq_lib::lemma_seq_concat_contains_all_elements;

    match spec_node_key(root, node.path@) {
        Some(kk) => {
            let entries = node.owners_config.pattern_overrides@;
            let owners = spec_effective(node.owners_config@.all_files, parent, default);
            assert(own_keys(node, root)[0] == kk);
            assert(own_keys(node, root).contains(kk));
            assert(subtree_keys(node, root).contains(kk));
            assert forall|j: int| 0 <= j < entries.len() implies {
                let pk = kk + (#[trigger] entries[j]).0@;
                m2.contains_key(pk) && m2[pk] == spec_effective(entries[j].1@, owners, default)
            } by {
                assert(own_keys(node, root)[1 + j] == kk + entries[j].0@);
                assert(own_keys(node, root).contains(kk + entries[j].0@));
                assert(subtree_keys(node, root).contains(kk + entries[j].0@));
            }
            assert forall|i: int| 0 <= i < node.children@.len() implies entries_exact(
                m2,
                #[trigger] node.children@[i],
                root,
                owners,
                default,
            ) by {
                assert forall|k: Seq<char>|
                    #[trigger] subtree_keys(node.children@[i], root).contains(k) implies
                    map_agrees_at(m2, m1, k) by {
                    lemma_children_keys_contain(node.children@, 0, i, root, k);
                    assert(subtree_keys(node, root).contains(k));
                }
                lemma_exact_preserved(m1, m2, node.children@[i], root, owners, default);
            }
        },
        None => {},
    }
}

/// Each child's blanket entries, once written, contain its local owners and
/// survive the later siblings' inserts.
proof fn lemma_add_children_superset(
    children: Seq<TreeNode>,
    j: int,
    root: Seq<char>,
    owners: Set<Seq<char>>,
    default: bool,
    m0: Map<Seq<char>, Set<Seq<char>>>,
    m1: Map<Seq<char>, Set<Seq<char>>>,
)
    requires
        0 <= j <= children.len(),
        spec_add_children(children, j, root, owners, default, m0) == Ok::<
            Map<Seq<char>, Set<Seq<char>>>,
            OwnersErrorV,
        >(m1),
        children_keys(children, j, root).no_duplicates(),
    ensures
        forall|i: int|
            j <= i < children.len() ==> blanket_entries_superset(m1, #[trigger] children[i], root),
        forall|i: int|
            j <= i < children.len() ==> entries_exact(m1, #[trigger] children[i], root, owners, default),
    decreases children, 0int, children.len() - j,
{
    if j < children.len() {
        let m_mid = spec_add_node(children[j], root, owners, default, m0)->Ok_0;
        lemma_no_dup_split(subtree_keys(children[j], root), children_keys(children, j + 1, root));
        lemma_add_node_superset(children[j], root, owners, default, m0, m_mid);
        lemma_add_children_superset(children, j + 1, root, owners, default, m_mid, m1);
        assert forall|k: Seq<char>|
            #[trigger] subtree_keys(children[j], root).contains(k) implies map_agrees_at(
            m1,
            m_mid,
            k,
        ) by {
            lemma_add_children_frame(children, j + 1, root, owners, default, m_mid, m1, k);
        }
        lemma_superset_preserved(m_mid, m1, children[j], root);
        lemma_exact_preserved(m_mid, m1, children[j], root, owners, default);
    }
}

/// One node's fold records a blanket entry for the node and for each
/// descendant, each containing that scope's local owners, provided the
/// subtree's keys are pairwise distinct.
proof fn lemma_add_node_superset(
    node: TreeNode,
    root: Seq<char>,
    parent: Set<Seq<char>>,
    default: bool,
    m0: Map<Seq<char>, Set<Seq<char>>>,
    m1: Map<Seq<char>, Set<Seq<char>>>,
)
    requires
        spec_add_node(node, root, parent, default, m0) == Ok::<
            Map<Seq<char>, Set<Seq<char>>>,
            OwnersErrorV,
        >(m1),
        subtree_keys(node, root).no_duplicates(),
    ensures
        blanket_entries_superset(m1, node, root),
        entries_exact(m1, node, root, parent, default),
    decreases node, 1int, 0int,
{
    broadcast use vstd::seq_lib::lemma_seq_concat_contains_all_elements;

    let key = spec_node_key(root, node.path@)->Some_0;
    let entries = node.owners_config.pattern_overrides@;
    let own = own_keys(node, root);
    let owners = spec_effective(node.owners_config@.all_files, parent, default);
    let m_a = m0.insert(key, owners);
    let m_b = spec_add_overrides(entries, 0, key, owners, default, m_a);
    lemma_no_dup_split(own, children_keys(node.children@, 0, root));
    assert(own[0] == key);
    assert(own.contains(key));
    // the node's own override inserts write other keys
    assert forall|p: int| 0 <= p < entries.len() implies key != key + #[trigger] entries[p].0@ by {
        assert(own[1 + p] == key + entries[p].0@);
    }
    lemma_overrides_frame(entries, 0, key, owners, default, m_a, key);
    assert(m_b.contains_key(key) && m_b[key] == owners);
    // each override entry is written exactly: the override keys are
    // pairwise distinct among themselves
    assert forall|p: int, q: int| 0 <= p < q < entries.len() implies key
        + (#[trigger] entries[p]).0@ != key + (#[trigger] entries[q]).0@ by {
        assert(own[1 + p] == key + entries[p].0@);
        assert(own[1 + q] == key + entries[q].0@);
    }
    lemma_overrides_exact(entries, 0, key, owners, default, m_a);
    // the children's inserts write other keys still
    lemma_add_children_superset(node.children@, 0, root, owners, default, m_b, m1);
    assert(!children_keys(node.children@, 0, root).contains(key));
    lemma_add_children_frame(node.children@, 0, root, owners, default, m_b, m1, key);
    assert(m1.contains_key(key) && m1[key] == owners);
    assert(node.owners_config@.all_files.owners.subset_of(owners));
    assert forall|p: int| 0 <= p < entries.len() implies {
        let pk = key + (#[trigger] entries[p]).0@;
        m1.contains_key(pk) && m1[pk] == spec_effective(entries[p].1@, owners, default)
    } by {
        assert(own[1 + p] == key + entries[p].0@);
        assert(own.contains(key + entries[p].0@));
        assert(!children_keys(node.children@, 0, root).contains(key + entries[p].0@));
        lemma_add_children_frame(
            node.children@,
            0,
            root,
            owners,
            default,
            m_b,
            m1,
            key + entries[p].0@,
        );
    }
}

/// Map-level blanket superset: on a tree whose resolution writes pairwise
/// distinct keys, every node's entry in the resolved map contains the owners
/// that node declares locally. The hypothesis leaves out exactly the
/// degenerate trees where two writes share a key and the later overwrites
/// the earlier — as when a node declares the override pattern `b/` while a
/// declared child sits at its subdirectory `b`.
pub proof fn lemma_blanket_entries_superset_map(
    tree: TreeNode,
    default: bool,
    m: Map<Seq<char>, Set<Seq<char>>>,
)
    requires
        spec_generate(tree, default) == Ok::<Map<Seq<char>, Set<Seq<char>>>, OwnersErrorV>(m),
        subtree_keys(tree, tree.path@).no_duplicates(),
    ensures
        blanket_entries_superset(m, tree, tree.path@),
{
    lemma_add_node_superset(tree, tree.path@, Set::empty(), default, Map::empty(), m);
}

/// Map-level exactness: on a tree whose resolution writes pairwise distinct
/// keys, every node's entry is exactly its effective blanket owners and
/// every override entry exactly its effective owners over the node's own
/// blanket, with ancestor owners threaded from an unowned root. Combined
/// with `lemma_inherit_toggle` and `lemma_override_inherits_own_blanket`,
/// this pins the inheritance-toggling and override-scoping behaviour on the
/// resolved map itself.
pub proof fn lemma_entries_exact_map(
    tree: TreeNode,
    default: bool,
    m: Map<Seq<char>, Set<Seq<char>>>,
)
    requires
        spec_generate(tree, default) == Ok::<Map<Seq<char>, Set<Seq<char>>>, OwnersErrorV>(m),
        subtree_keys(tree, tree.path@).no_duplicates(),
    ensures
        entries_exact(m, tree, tree.path@, Set::empty(), default),
{
    lemma_add_node_superset(tree, tree.path@, Set::empty(), default, Map::empty(), m);
}

/// A root entry with owners renders as `*`, one space, then the owners —
/// never as the bare `*` that the output drops.
pub proof fn lemma_root_entry_rendered_as_star(owners: Set<Seq<char>>, line: Seq<char>)
    requires
        spec_is_rendered_entry(seq!['/'], owners, line),
        owners != Set::<Seq<char>>::empty(),
    ensures
        line.len() >= 2,
        line[0] == '*',
        line[1] == ' ',
        line != seq!['*'],
{
    let os = choose|os: Seq<Seq<char>>|
        strictly_sorted_lex(os) && os.to_set() == owners && line == spec_entry_text(
            seq!['/'],
            os,
        );
    if os.len() == 0 {
        assert(os.to_set() =~= Set::<Seq<char>>::empty());
    }
    assert(line == seq!['*'] + seq![' '] + spec_join_sep(
        os.map_values(|o: Seq<char>| spec_at_owner(o)),
        seq![' '],
    ));
    assert(line[0] == '*');
    assert(line[1] == ' ');
}

/// A non-root entry's line begins with the key itself, rendered verbatim.
pub proof fn lemma_nonroot_entry_keeps_key(
    key: Seq<char>,
    owners: Set<Seq<char>>,
    line: Seq<char>,
)
    requires
        spec_is_rendered_entry(key, owners, line),
        key != seq!['/'],
    ensures
        line.len() >= key.len(),
        line.subrange(0, key.len() as int) == key,
{
    let os = choose|os: Seq<Seq<char>>|
        strictly_sorted_lex(os) && os.to_set() == owners && line == spec_entry_text(key, os);
    if os.len() == 0 {
        assert(line == key);
        assert(line.subrange(0, key.len() as int) =~= key);
    } else {
        assert(line == key + seq![' '] + spec_join_sep(
            os.map_values(|o: Seq<char>| spec_at_owner(o)),
            seq![' '],
        ));
        assert(line.subrange(0, key.len() as int) =~= key);
    }
}

/// An entry with no owners renders as the bare pattern (the root as `*`).
/// The output then drops exactly the bare `*` lines, so an unowned non-root
/// key still produces its line, unless that key itself reads `*`.
pub proof fn lemma_bare_entry(key: Seq<char>, line: Seq<char>)
    requires
        spec_is_rendered_entry(key, Set::<Seq<char>>::empty(), line),
    ensures
        key == seq!['/'] ==> line == seq!['*'],
        key != seq!['/'] ==> line == key,
{
    let os = choose|os: Seq<Seq<char>>|
        strictly_sorted_lex(os) && os.to_set() == Set::<Seq<char>>::empty() && line
            == spec_entry_text(key, os);
    if os.len() > 0 {
        assert(os.contains(os[0]));
        assert(os.to_set().contains(os[0]));
    }
}

/// The serializer is canonical: equal resolved maps render to equal text,
/// whatever order their entries were inserted in.
pub proof fn lemma_serializer_canonical(
    m1: Map<Seq<char>, Set<Seq<char>>>,
    m2: Map<Seq<char>, Set<Seq<char>>>,
    out1: Seq<char>,
    out2: Seq<char>,
)
    requires
        m1 == m2,
        spec_codeowners_output(m1, out1),
        spec_codeowners_output(m2, out2),
    ensures
        out1 == out2,
{
    let (keys1, lines1) = choose|keys: Seq<Seq<char>>, lines: Seq<Seq<char>>|
        {
            &&& strictly_sorted_lex(keys)
            &&& keys.to_set() == m1.dom()
            &&& lines.len() == keys.len()
            &&& (forall|i: int|
                0 <= i < keys.len() ==> spec_is_rendered_entry(
                    #[trigger] keys[i],
                    m1[keys[i]],
                    #[trigger] lines[i],
                ))
            &&& out1 == spec_join_sep(spec_drop_star(lines), seq!['\n'])
        };
    let (keys2, lines2) = choose|keys: Seq<Seq<char>>, lines: Seq<Seq<char>>|
        {
            &&& strictly_sorted_lex(keys)
            &&& keys.to_set() == m2.dom()
            &&& lines.len() == keys.len()
            &&& (forall|i: int|
                0 <= i < keys.len() ==> spec_is_rendered_entry(
                    #[trigger] keys[i],
                    m2[keys[i]],
                    #[trigger] lines[i],
                ))
            &&& out2 == spec_join_sep(spec_drop_star(lines), seq!['\n'])
        };
    lemma_sorted_distinct_unique(keys1, keys2);
    assert forall|i: int| 0 <= i < lines1.len() implies lines1[i] == lines2[i] by {
        assert(spec_is_rendered_entry(keys1[i], m1[keys1[i]], lines1[i]));
        assert(spec_is_rendered_entry(keys2[i], m2[keys2[i]], lines2[i]));
        let os1 = choose|os: Seq<Seq<char>>|
            strictly_sorted_lex(os) && os.to_set() == m1[keys1[i]] && lines1[i] == spec_entry_text(
                keys1[i],
                os,
            );
        let os2 = choose|os: Seq<Seq<char>>|
            strictly_sorted_lex(os) && os.to_set() == m2[keys2[i]] && lines2[i] == spec_entry_text(
                keys2[i],
                os,
            );
        lemma_sorted_distinct_unique(os1, os2);
    }
    assert(lines1 =~= lines2);
}

} // verus!
