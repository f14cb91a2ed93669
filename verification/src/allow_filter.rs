//! Admission predicates: which paths participate in tree building.
use crate::owners_set::owner_names;
use crate::paths::{file_name, parent_dir, spec_file_name, spec_parent_dir, split_str};
use crate::strutil::str_eq;
use vstd::prelude::*;

verus! {

/// A caller-supplied predicate deciding whether a path participates in tree
/// building at all.
pub trait AllowFilter {
    /// The predicate's verdict on a path, as the contracts see it.
    spec fn allowed_spec(&self, path: Seq<char>) -> bool;

    fn allowed(&self, path: &str) -> (r: bool)
        ensures
            r == self.allowed_spec(path@),
    ;
}

/// Allows everything except git metadata (paths with a `.git` component).
pub struct FilterGitMetadata {}

/// Whether any `/`-separated component of the path is `.git`.
pub open spec fn spec_has_git_component(p: Seq<char>) -> bool {
    crate::paths::spec_split(p, '/').contains(seq!['.', 'g', 'i', 't'])
}

impl FilterGitMetadata {
    /// The predicate itself: a path is admitted unless one of its components
    /// is `.git`.
    pub fn admits(&self, path: &str) -> (r: bool)
        ensures
            r == !spec_has_git_component(path@),
    {
        let comps = split_str(path, '/');
        let ghost compsv = comps@.map_values(|x: String| x@);
        let n = comps.len();
        proof {
            reveal_strlit(".git");
            assert(".git"@ =~= seq!['.', 'g', 'i', 't']);
        }
        for i in 0..n
            invariant
                n == comps@.len(),
                compsv == comps@.map_values(|x: String| x@),
                compsv == crate::paths::spec_split(path@, '/'),
                forall|j: int| 0 <= j < i ==> compsv[j] != seq!['.', 'g', 'i', 't'],
        {
            proof {
                assert(compsv[i as int] == comps@[i as int]@);
            }
            if str_eq(comps[i].as_str(), ".git") {
                proof {
                    assert(compsv.contains(compsv[i as int]));
                }
                return false;
            }
        }
        proof {
            if spec_has_git_component(path@) {
                let j = choose|j: int| 0 <= j < compsv.len() && compsv[j] == seq!['.', 'g', 'i', 't'];
                assert(false);
            }
        }
        true
    }
}

impl AllowFilter for FilterGitMetadata {
    open spec fn allowed_spec(&self, path: Seq<char>) -> bool {
        !spec_has_git_component(path)
    }

    fn allowed(&self, path: &str) -> (r: bool) {
        self.admits(path)
    }
}

/// The directories on the way from the root down to `p`, including `p`.
pub open spec fn spec_dir_chain(p: Seq<char>) -> Set<Seq<char>>
    decreases p.len(),
    via spec_dir_chain_decreases
{
    if p.len() == 0 {
        Set::empty()
    } else if p == seq!['/'] {
        Set::empty().insert(p)
    } else {
        spec_dir_chain(spec_parent_dir(p)).insert(p)
    }
}

#[via_fn]
proof fn spec_dir_chain_decreases(p: Seq<char>) {
    if p.len() > 0 && p != seq!['/'] {
        crate::paths::lemma_parent_dir_shorter(p);
    }
}

/// The set of paths an explicit allow list admits: each listed path whose
/// file name is `OWNERS`, together with every directory above it.
pub open spec fn spec_allow_expand(paths: Seq<Seq<char>>, i: int) -> Set<Seq<char>>
    decreases paths.len() - i,
    when 0 <= i <= paths.len()
{
    if i == paths.len() {
        Set::empty()
    } else {
        let rest = spec_allow_expand(paths, i + 1);
        if spec_file_name(paths[i]) == owners_chars() {
            rest.insert(paths[i]).union(spec_dir_chain(spec_parent_dir(paths[i])))
        } else {
            rest
        }
    }
}

/// The name of the per-directory declaration file.
pub open spec fn owners_chars() -> Seq<char> {
    seq!['O', 'W', 'N', 'E', 'R', 'S']
}

/// Allows exactly an explicit set of paths: the listed declaration files and
/// the directories above them.
pub struct AllowList {
    allowed_files: Vec<String>,
    _private: (),
}

impl View for AllowList {
    type V = Set<Seq<char>>;

    closed spec fn view(&self) -> Set<Seq<char>> {
        owner_names(self.allowed_files@)
    }
}

impl AllowFilter for AllowList {
    open spec fn allowed_spec(&self, path: Seq<char>) -> bool {
        self@.contains(path)
    }

    fn allowed(&self, path: &str) -> (r: bool) {
        self.contains_path(path)
    }
}

impl AllowList {
    /// Whether the expanded allow list holds `path`.
    pub fn contains_path(&self, path: &str) -> (r: bool)
        ensures
            r == self@.contains(path@),
    {
        let n = self.allowed_files.len();
        let ghost views = self.allowed_files@.map_values(|o: String| o@);
        for i in 0..n
            invariant
                n == self.allowed_files@.len(),
                views == self.allowed_files@.map_values(|o: String| o@),
                forall|j: int| 0 <= j < i ==> views[j] != path@,
        {
            if str_eq(self.allowed_files[i].as_str(), path) {
                proof {
                    assert(views[i as int] == path@);
                }
                return true;
            }
        }
        proof {
            if self@.contains(path@) {
                let j = choose|j: int| 0 <= j < views.len() && views[j] == path@;
                assert(false);
            }
        }
        false
    }

    /// Build an allow list from candidate paths: paths not naming an `OWNERS`
    /// file are dropped, and each kept file brings every directory above it.
    pub fn from(paths: Vec<String>) -> (r: AllowList)
        ensures
            r@ == spec_allow_expand(paths@.map_values(|s: String| s@), 0),
    {
        let ghost pviews = paths@.map_values(|s: String| s@);
        let mut out = AllowList { allowed_files: Vec::new(), _private: () };
        let n = paths.len();
        proof {
            reveal_strlit("OWNERS");
            assert("OWNERS"@ =~= owners_chars());
        }
        let mut i = n;
        while i > 0
            invariant
                i <= n == paths@.len(),
                pviews == paths@.map_values(|s: String| s@),
                "OWNERS"@ =~= owners_chars(),
                out@ == spec_allow_expand(pviews, i as int),
            decreases i,
        {
            i = i - 1;
            let ghost before = out@;
            let p = &paths[i];
            proof {
                assert(pviews[i as int] == p@);
            }
            if str_eq(file_name(p.as_str()), "OWNERS") {
                let ghost target = before.insert(pviews[i as int]).union(
                    spec_dir_chain(spec_parent_dir(pviews[i as int])),
                );
                out.insert_path(p.clone());
                let mut dir = parent_dir(p.as_str()).to_owned();
                proof {
                    reveal_strlit("/");
                    assert("/"@ =~= seq!['/']);
                    assert(out@.union(spec_dir_chain(dir@)) =~= target);
                }
                loop
                    invariant
                        "/"@ =~= seq!['/'],
                        out@.union(spec_dir_chain(dir@)) == target,
                    decreases dir@.len(),
                {
                    if dir.as_str().unicode_len() == 0 {
                        proof {
                            assert(spec_dir_chain(dir@) =~= Set::<Seq<char>>::empty());
                            assert(out@ =~= target);
                        }
                        break ;
                    }
                    out.insert_path(dir.clone());
                    if str_eq(dir.as_str(), "/") {
                        proof {
                            assert(spec_dir_chain(dir@) =~= Set::<Seq<char>>::empty().insert(
                                dir@,
                            ));
                            assert(out@ =~= target);
                        }
                        break ;
                    }
                    let next = parent_dir(dir.as_str()).to_owned();
                    proof {
                        crate::paths::lemma_parent_dir_shorter(dir@);
                        assert(spec_dir_chain(dir@) == spec_dir_chain(next@).insert(dir@));
                        assert(out@.union(spec_dir_chain(next@)) =~= target);
                    }
                    dir = next;
                }
                proof {
                    assert(out@ =~= spec_allow_expand(pviews, i as int));
                }
            } else {
                proof {
                    assert(out@ == spec_allow_expand(pviews, i as int));
                }
            }
        }
        out
    }

    /// Add one path to the allowed set.
    fn insert_path(&mut self, path: String)
        ensures
            final(self)@ == old(self)@.insert(path@),
    {
        let ghost old_views = self.allowed_files@.map_values(|o: String| o@);
        let ghost pv = path@;
        if !self.contains_path(path.as_str()) {
            self.allowed_files.push(path);
            proof {
                let views = self.allowed_files@.map_values(|o: String| o@);
                assert(views =~= old_views.push(pv));
                assert forall|x: Seq<char>| #[trigger] views.to_set().contains(x) implies
                    old_views.to_set().contains(x) || x == pv by {
                    let k = choose|k: int| 0 <= k < views.len() && views[k] == x;
                    if k < old_views.len() {
                        assert(old_views.contains(x));
                    }
                }
                assert forall|x: Seq<char>| old_views.to_set().contains(x) || x == pv implies
                    #[trigger] views.to_set().contains(x) by {
                    if old_views.to_set().contains(x) {
                        let k = choose|k: int| 0 <= k < old_views.len() && old_views[k] == x;
                        assert(views[k] == x);
                        assert(views.contains(x));
                    } else {
                        assert(views[old_views.len() as int] == x);
                        assert(views.contains(x));
                    }
                }
                assert(views.to_set() =~= old_views.to_set().insert(pv));
            }
        } else {
            proof {
                assert(self@ =~= old(self)@.insert(pv));
            }
        }
    }
}

} // verus!
