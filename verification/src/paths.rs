//! Path strings, modelled as `/`-separated character sequences: parent
//! directories, splitting into components, textual normalization of `.` and
//! `..` components, and the prefix test used to keep includes inside the
//! repository base.
use crate::strutil::{
    find_char, join_strings, lemma_find_char, spec_find_char, spec_join_sep, str_eq,
};
use vstd::prelude::*;
use vstd::string::StringExecFns;

verus! {

/// Index of the last occurrence of `c`, or `-1`.
pub open spec fn spec_rfind_char(l: Seq<char>, c: char) -> int
    decreases l.len(),
{
    if l.len() == 0 {
        -1
    } else if l[l.len() - 1] == c {
        l.len() - 1
    } else {
        spec_rfind_char(l.drop_last(), c)
    }
}

pub proof fn lemma_rfind_char(l: Seq<char>, c: char)
    ensures
        -1 <= spec_rfind_char(l, c) < l.len(),
        spec_rfind_char(l, c) >= 0 ==> l[spec_rfind_char(l, c)] == c,
        forall|j: int| spec_rfind_char(l, c) < j < l.len() ==> l[j] != c,
    decreases l.len(),
{
    if l.len() > 0 && l[l.len() - 1] != c {
        lemma_rfind_char(l.drop_last(), c);
        let k = spec_rfind_char(l, c);
        if k >= 0 {
            assert(l.drop_last()[k] == l[k]);
        }
        assert forall|j: int| k < j < l.len() implies l[j] != c by {
            if j < l.len() - 1 {
                assert(l.drop_last()[j] == l[j]);
            }
        }
    }
}

/// The directory holding the file at `p`: everything before the last `/`
/// (the root `/` is kept; a path without `/` has the empty parent).
pub open spec fn spec_parent_dir(p: Seq<char>) -> Seq<char> {
    let k = spec_rfind_char(p, '/');
    if k < 0 {
        Seq::empty()
    } else if k == 0 {
        seq!['/']
    } else {
        p.subrange(0, k)
    }
}

pub fn parent_dir(p: &str) -> (r: &str)
    ensures
        r@ == spec_parent_dir(p@),
{
    proof {
        lemma_rfind_char(p@, '/');
    }
    let n = p.unicode_len();
    let mut j = n;
    while j > 0 && p.get_char(j - 1) != '/'
        invariant
            j <= n == p@.len(),
            forall|i: int| j <= i < n ==> p@[i] != '/',
        decreases j,
    {
        j = j - 1;
    }
    if j == 0 {
        // no separator at all
        proof {
            if spec_rfind_char(p@, '/') >= 0 {
                assert(p@[spec_rfind_char(p@, '/')] == '/');
            }
            assert(p@.subrange(0, 0) =~= spec_parent_dir(p@));
        }
        p.substring_char(0, 0)
    } else {
        // p[j-1] == '/' and nothing after it is '/'
        proof {
            let k = spec_rfind_char(p@, '/');
            assert(p@[j - 1] == '/');
            assert(k >= j - 1);
            assert(k <= j - 1);
        }
        if j == 1 {
            let r = p.substring_char(0, 1);
            proof {
                assert(r@ =~= seq!['/']);
            }
            r
        } else {
            p.substring_char(0, j - 1)
        }
    }
}

/// The parent of a non-root path is a strictly shorter string.
pub proof fn lemma_parent_dir_shorter(p: Seq<char>)
    requires
        p.len() > 0,
        p != seq!['/'],
    ensures
        spec_parent_dir(p).len() < p.len(),
{
    lemma_rfind_char(p, '/');
    let k = spec_rfind_char(p, '/');
    if k == 0 {
        assert(p[0] == '/');
        if p.len() == 1 {
            assert(p =~= seq!['/']);
        }
    }
}

/// The component after the last `/` (the whole path when there is none).
pub open spec fn spec_file_name(p: Seq<char>) -> Seq<char> {
    p.subrange(spec_rfind_char(p, '/') + 1, p.len() as int)
}

pub fn file_name(p: &str) -> (r: &str)
    ensures
        r@ == spec_file_name(p@),
{
    proof {
        lemma_rfind_char(p@, '/');
    }
    let n = p.unicode_len();
    let mut j = n;
    while j > 0 && p.get_char(j - 1) != '/'
        invariant
            j <= n == p@.len(),
            forall|i: int| j <= i < n ==> p@[i] != '/',
        decreases j,
    {
        j = j - 1;
    }
    proof {
        let k = spec_rfind_char(p@, '/');
        if j == 0 {
            if k >= 0 {
                assert(p@[k] == '/');
            }
        } else {
            assert(p@[j - 1] == '/');
            assert(k >= j - 1);
            assert(k <= j - 1);
        }
    }
    p.substring_char(j, n)
}

/// The segments of `l` between occurrences of `c`; a sequence of `n`
/// separators yields `n + 1` segments.
pub open spec fn spec_split(l: Seq<char>, c: char) -> Seq<Seq<char>>
    decreases l.len(),
    via spec_split_decreases
{
    let k = spec_find_char(l, 0, c);
    if k == l.len() {
        seq![l]
    } else {
        seq![l.subrange(0, k)] + spec_split(l.subrange(k + 1, l.len() as int), c)
    }
}

#[via_fn]
proof fn spec_split_decreases(l: Seq<char>, c: char) {
    lemma_find_char(l, 0, c);
}

pub fn split_str(s: &str, c: char) -> (r: Vec<String>)
    ensures
        r@.map_values(|x: String| x@) == spec_split(s@, c),
    decreases s@.len(),
{
    proof {
        lemma_find_char(s@, 0, c);
    }
    let n = s.unicode_len();
    let k = find_char(s, 0, c);
    if k == n {
        let mut v: Vec<String> = Vec::new();
        v.push(s.to_owned());
        proof {
            assert(v@.map_values(|x: String| x@) =~= spec_split(s@, c));
        }
        v
    } else {
        let head = s.substring_char(0, k);
        let tail = s.substring_char(k + 1, n);
        let mut v = split_str(tail, c);
        v.insert(0, head.to_owned());
        proof {
            assert(v@.map_values(|x: String| x@) =~= spec_split(s@, c));
        }
        v
    }
}

/// Normalization stack: empty and `.` components vanish, `..` pops, others
/// push.
pub open spec fn spec_norm_fold(comps: Seq<Seq<char>>, i: int, acc: Seq<Seq<char>>) -> Seq<
    Seq<char>,
>
    decreases comps.len() - i,
    when 0 <= i <= comps.len()
{
    if i == comps.len() {
        acc
    } else {
        let c = comps[i];
        let acc2 = if c.len() == 0 || c == seq!['.'] {
            acc
        } else if c == seq!['.', '.'] {
            if acc.len() > 0 {
                acc.drop_last()
            } else {
                acc
            }
        } else {
            acc.push(c)
        };
        spec_norm_fold(comps, i + 1, acc2)
    }
}

/// Textual normalization of a path: `.` and empty components are dropped and
/// `..` removes the preceding component; a leading `/` is kept.
pub open spec fn spec_normalize(p: Seq<char>) -> Seq<char> {
    let stack = spec_norm_fold(spec_split(p, '/'), 0, Seq::empty());
    let joined = spec_join_sep(stack, seq!['/']);
    if p.len() > 0 && p[0] == '/' {
        seq!['/'] + joined
    } else {
        joined
    }
}

pub fn normalize_path(p: &str) -> (r: String)
    ensures
        r@ == spec_normalize(p@),
{
    let comps = split_str(p, '/');
    let ghost compsv = comps@.map_values(|x: String| x@);
    let mut stack: Vec<String> = Vec::new();
    proof {
        reveal_strlit(".");
        reveal_strlit("..");
        reveal_strlit("/");
        assert("."@ =~= seq!['.']);
        assert(".."@ =~= seq!['.', '.']);
        assert("/"@ =~= seq!['/']);
        assert(Seq::<String>::empty().map_values(|x: String| x@) =~= Seq::<Seq<char>>::empty());
    }
    let m = comps.len();
    for i in 0..m
        invariant
            m == comps@.len(),
            compsv == comps@.map_values(|x: String| x@),
            spec_norm_fold(compsv, 0, Seq::empty()) == spec_norm_fold(
                compsv,
                i as int,
                stack@.map_values(|x: String| x@),
            ),
            "."@ =~= seq!['.'],
            ".."@ =~= seq!['.', '.'],
    {
        let ghost pre = stack@.map_values(|x: String| x@);
        let comp = &comps[i];
        proof {
            assert(compsv[i as int] == comp@);
        }
        if comp.unicode_len() == 0 || str_eq(comp.as_str(), ".") {
            // dropped
        } else if str_eq(comp.as_str(), "..") {
            if stack.len() > 0 {
                stack.pop();
                proof {
                    assert(stack@.map_values(|x: String| x@) =~= pre.drop_last());
                }
            }
        } else {
            stack.push(comp.clone());
            proof {
                assert(stack@.map_values(|x: String| x@) =~= pre.push(comp@));
            }
        }
    }
    let joined = join_strings(&stack, "/");
    let n = p.unicode_len();
    if n > 0 && p.get_char(0) == '/' {
        let mut r = "/".to_owned();
        r.append(joined.as_str());
        r
    } else {
        joined
    }
}

/// A relative segment joined onto a base path with a separator; joining onto
/// the empty base leaves the segment alone.
pub open spec fn spec_join_path(a: Seq<char>, b: Seq<char>) -> Seq<char> {
    if a.len() == 0 {
        b
    } else {
        a + seq!['/'] + b
    }
}

pub fn join_path(a: &str, b: &str) -> (r: String)
    ensures
        r@ == spec_join_path(a@, b@),
{
    if a.unicode_len() == 0 {
        b.to_owned()
    } else {
        proof {
            reveal_strlit("/");
            assert("/"@ =~= seq!['/']);
        }
        let mut s = a.to_owned();
        s.append("/");
        s.append(b);
        proof {
            assert(s@ =~= spec_join_path(a@, b@));
        }
        s
    }
}

/// Whether `p` lies at or below `base`, compared on whole components.
pub open spec fn spec_path_within(p: Seq<char>, base: Seq<char>) -> bool {
    p == base || (p.len() > base.len() && p.subrange(0, base.len() as int) == base && (p[base.len() as int]
        == '/' || (base.len() > 0 && base[base.len() - 1] == '/')))
}

pub fn path_within(p: &str, base: &str) -> (r: bool)
    ensures
        r == spec_path_within(p@, base@),
{
    let n = p.unicode_len();
    let m = base.unicode_len();
    if !crate::strutil::is_char_prefix(p, base) {
        proof {
            if p@ == base@ {
                assert(p@.subrange(0, m as int) =~= base@);
            }
        }
        return false;
    }
    if n == m {
        proof {
            assert(p@ =~= base@);
        }
        return true;
    }
    p.get_char(m) == '/' || (m > 0 && base.get_char(m - 1) == '/')
}

} // verus!
