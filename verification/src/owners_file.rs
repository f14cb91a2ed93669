//! Parsing the text of one ownership declaration file into a blanket owner
//! set plus named pattern-override sets, resolving `include` directives
//! recursively with cycle detection.
//!
//! Reading bytes from disk is not this crate's business: the parser takes a
//! [`FileStore`], an in-memory snapshot mapping resolved include paths to
//! their text. When an include names a path the store lacks, parsing fails
//! with [`OwnersError::MissingIncludeFile`]; the caller may read that file,
//! add it to the store, and run the parse again.
use crate::errors::{OwnersError, OwnersErrorV};
use crate::kvlist::{
    kv_find, kv_map, kv_unique, kv_unique_check, lemma_kv_contains, lemma_kv_index, lemma_kv_push,
    lemma_kv_update,
};
use crate::owners_set::{
    false_chars, inherit_chars, spec_parse_set_line, true_chars, OwnersSet, OwnersSetV,
    SetLineParse,
};
use crate::paths::{
    join_path, normalize_path, parent_dir, path_within, spec_join_path, spec_normalize,
    spec_parent_dir, spec_path_within, spec_split,
};
use crate::strutil::{
    find_char, lemma_find_char, lemma_rskip_ws, lemma_skip_nonws, lemma_skip_ws, rskip_ws,
    skip_nonws, skip_ws, spec_find_char, spec_rskip_ws, spec_skip_nonws, spec_skip_ws, spec_trim,
    str_eq, trim,
};
use vstd::prelude::*;

verus! {

// ---------------------------------------------------------------------------
// The in-memory snapshot of declaration files, keyed by resolved path.
// ---------------------------------------------------------------------------
/// A snapshot of file texts keyed by resolved path strings.
#[derive(Debug)]
pub struct FileStore {
    pub files: Vec<(String, String)>,
}

impl View for FileStore {
    type V = Map<Seq<char>, Seq<char>>;

    open spec fn view(&self) -> Map<Seq<char>, Seq<char>> {
        kv_map(self.files@, |t: String| t@)
    }
}

impl FileStore {
    pub open spec fn wf(&self) -> bool {
        kv_unique(self.files@)
    }

    pub fn new() -> (r: FileStore)
        ensures
            r.wf(),
            r@ == Map::<Seq<char>, Seq<char>>::empty(),
    {
        FileStore { files: Vec::new() }
    }

    /// Record the text found at a path; an existing entry is replaced.
    pub fn add(&mut self, path: String, text: String)
        requires
            old(self).wf(),
        ensures
            final(self).wf(),
            final(self)@ == old(self)@.insert(path@, text@),
    {
        let ghost f = |t: String| t@;
        match kv_find(&self.files, path.as_str()) {
            Some(i) => {
                proof {
                    lemma_kv_update(self.files@, f, i as int, path, text);
                }
                self.files[i] = (path, text);
            },
            None => {
                proof {
                    lemma_kv_push(self.files@, f, path, text);
                }
                self.files.push((path, text));
            },
        }
    }

    /// The text stored at a path, if any.
    pub fn get<'a>(&'a self, path: &str) -> (r: Option<&'a String>)
        requires
            self.wf(),
        ensures
            match r {
                Some(t) => self@.contains_key(path@) && t@ == self@[path@],
                None => !self@.contains_key(path@),
            },
    {
        let ghost f = |t: String| t@;
        proof {
            lemma_kv_contains(self.files@, f, path@);
        }
        match kv_find(&self.files, path) {
            Some(i) => {
                proof {
                    lemma_kv_index(self.files@, f, i as int);
                }
                Some(&self.files[i].1)
            },
            None => None,
        }
    }
}

// ---------------------------------------------------------------------------
// The parsed declaration file.
// ---------------------------------------------------------------------------
/// Abstract value of an [`OwnersFileConfig`].
#[verifier::ext_equal]
pub struct OwnersFileConfigV {
    pub all_files: OwnersSetV,
    pub pattern_overrides: Map<Seq<char>, OwnersSetV>,
}

/// The view of an optional pattern key.
pub open spec fn opt_key_view(a: Option<String>) -> Option<Seq<char>> {
    match a {
        None => None,
        Some(s) => Some(s@),
    }
}

/// One declaration file, parsed: the blanket owner set applying to all files
/// in the owning directory, plus one owner set per declared pattern override.
#[derive(Debug)]
pub struct OwnersFileConfig {
    pub all_files: OwnersSet,
    pub pattern_overrides: Vec<(String, OwnersSet)>,
}

impl View for OwnersFileConfig {
    type V = OwnersFileConfigV;

    open spec fn view(&self) -> OwnersFileConfigV {
        OwnersFileConfigV {
            all_files: self.all_files@,
            pattern_overrides: kv_map(self.pattern_overrides@, |s: OwnersSet| s@),
        }
    }
}

impl OwnersFileConfig {
    pub open spec fn wf(&self) -> bool {
        &&& self.all_files.wf()
        &&& kv_unique(self.pattern_overrides@)
        &&& forall|i: int|
            0 <= i < self.pattern_overrides@.len() ==> self.pattern_overrides@[i].1.wf()
    }

    pub fn new() -> (r: OwnersFileConfig)
        ensures
            r.wf(),
            r@ == empty_config_v(),
    {
        let r = OwnersFileConfig { all_files: OwnersSet::new(), pattern_overrides: Vec::new() };
        proof {
            assert(r@ =~~= empty_config_v());
        }
        r
    }

    /// The key of the owner set a target index points at (blanket for `None`).
    pub open spec fn target_key(&self, idx: Option<usize>) -> Option<Seq<char>> {
        match idx {
            None => None,
            Some(ix) => Some(self.pattern_overrides@[ix as int].0@),
        }
    }

    pub open spec fn target_idx_ok(&self, idx: Option<usize>) -> bool {
        match idx {
            None => true,
            Some(ix) => (ix as int) < self.pattern_overrides@.len(),
        }
    }

    /// Find or create the owner set the parse is aimed at, returning its
    /// index among the overrides (`None` for the blanket set).
    fn touch_target(&mut self, active: &Option<String>) -> (idx: Option<usize>)
        requires
            old(self).wf(),
        ensures
            final(self).wf(),
            final(self)@ == spec_touch(old(self)@, opt_key_view(*active)),
            final(self).target_idx_ok(idx),
            final(self).target_key(idx) == opt_key_view(*active),
            final(self).all_files == old(self).all_files,
    {
        let ghost f = |s: OwnersSet| s@;
        match active {
            None => {
                proof {
                    assert(self@ =~~= spec_touch(self@, opt_key_view(*active)));
                }
                None
            },
            Some(key) => {
                proof {
                    lemma_kv_contains(self.pattern_overrides@, f, key@);
                }
                match kv_find(&self.pattern_overrides, key.as_str()) {
                    Some(ix) => {
                        proof {
                            let i = choose|i: int|
                                0 <= i < self.pattern_overrides@.len()
                                    && self.pattern_overrides@[i].0@ == key@;
                            assert(self@.pattern_overrides.contains_key(key@));
                            assert(self@ =~~= spec_touch(self@, opt_key_view(*active)));
                        }
                        Some(ix)
                    },
                    None => {
                        let fresh = OwnersSet::new();
                        let key2 = key.clone();
                        proof {
                            assert(fresh@ =~~= empty_set_v());
                            lemma_kv_push(self.pattern_overrides@, f, key2, fresh);
                        }
                        let ix = self.pattern_overrides.len();
                        self.pattern_overrides.push((key2, fresh));
                        proof {
                            assert(!old(self)@.pattern_overrides.contains_key(key@));
                            assert(self@ =~~= spec_touch(old(self)@, opt_key_view(*active)));
                        }
                        Some(ix)
                    },
                }
            },
        }
    }

    /// Apply a possible directive line to the owner set at the target index.
    fn target_process_set(&mut self, idx: Option<usize>, line: &str) -> (r: Result<
        bool,
        OwnersError,
    >)
        requires
            old(self).wf(),
            old(self).target_idx_ok(idx),
        ensures
            final(self).wf(),
            final(self).target_idx_ok(idx),
            final(self).target_key(idx) == old(self).target_key(idx),
            ({
                let key = old(self).target_key(idx);
                match spec_parse_set_line(line@) {
                    SetLineParse::NotSet => r == Ok::<bool, OwnersError>(false) && final(self)@
                        == old(self)@,
                    SetLineParse::Malformed => (r matches Err(e) && e@
                        == (OwnersErrorV::MalformedSetLine { line: line@ })) && final(self)@ == old(
                        self,
                    )@,
                    SetLineParse::Directive { variable, value } => {
                        if variable == inherit_chars() && (value == true_chars() || value
                            == false_chars()) {
                            r == Ok::<bool, OwnersError>(true) && final(self)@ == spec_set_inherit(
                                old(self)@,
                                key,
                                value == true_chars(),
                            )
                        } else if variable == inherit_chars() {
                            (r matches Err(e) && e@ == (OwnersErrorV::InvalidInheritValue {
                                value,
                            })) && final(self)@ == old(self)@
                        } else {
                            (r matches Err(e) && e@ == (OwnersErrorV::UnknownSetVariable {
                                variable,
                            })) && final(self)@ == old(self)@
                        }
                    },
                }
            }),
    {
        let ghost f = |s: OwnersSet| s@;
        match idx {
            None => {
                let r = self.all_files.maybe_process_set(line);
                proof {
                    assert(self.pattern_overrides@ == old(self).pattern_overrides@);
                    match spec_parse_set_line(line@) {
                        SetLineParse::Directive { variable, value } => {
                            if variable == inherit_chars() && (value == true_chars() || value
                                == false_chars()) {
                                assert(self@ =~~= spec_set_inherit(
                                    old(self)@,
                                    None,
                                    value == true_chars(),
                                ));
                            } else {
                                assert(self@ =~~= old(self)@);
                            }
                        },
                        _ => {
                            assert(self@ =~~= old(self)@);
                        },
                    }
                }
                r
            },
            Some(ix) => {
                proof {
                    lemma_kv_index(self.pattern_overrides@, f, ix as int);
                }
                let ghost old_entries = self.pattern_overrides@;
                let ghost k = old_entries[ix as int].0;
                let r = self.pattern_overrides[ix].1.maybe_process_set(line);
                proof {
                    let entries = self.pattern_overrides@;
                    assert(entries == old_entries.update(
                        ix as int,
                        (k, entries[ix as int].1),
                    )) by {
                        assert(entries =~= old_entries.update(ix as int, entries[ix as int]));
                        assert(entries[ix as int].0 == k);
                    }
                    lemma_kv_update(old_entries, f, ix as int, k, entries[ix as int].1);
                    match spec_parse_set_line(line@) {
                        SetLineParse::Directive { variable, value } => {
                            if variable == inherit_chars() && (value == true_chars() || value
                                == false_chars()) {
                                assert(self@ =~~= spec_set_inherit(
                                    old(self)@,
                                    Some(k@),
                                    value == true_chars(),
                                ));
                            } else {
                                assert(entries[ix as int].1 == old_entries[ix as int].1);
                                assert(self@ =~~= old(self)@);
                            }
                        },
                        _ => {
                            assert(entries[ix as int].1 == old_entries[ix as int].1);
                            assert(self@ =~~= old(self)@);
                        },
                    }
                }
                r
            },
        }
    }

    /// Add an owner name to the owner set at the target index.
    fn target_insert_owner(&mut self, idx: Option<usize>, owner: String)
        requires
            old(self).wf(),
            old(self).target_idx_ok(idx),
        ensures
            final(self).wf(),
            final(self)@ == spec_add_owner(old(self)@, old(self).target_key(idx), owner@),
    {
        let ghost f = |s: OwnersSet| s@;
        match idx {
            None => {
                self.all_files.insert_owner(owner);
                proof {
                    assert(self@ =~~= spec_add_owner(old(self)@, None, owner@));
                }
            },
            Some(ix) => {
                proof {
                    lemma_kv_index(self.pattern_overrides@, f, ix as int);
                }
                let ghost old_entries = self.pattern_overrides@;
                let ghost k = old_entries[ix as int].0;
                let ghost ov = owner@;
                self.pattern_overrides[ix].1.insert_owner(owner);
                proof {
                    let entries = self.pattern_overrides@;
                    assert(entries == old_entries.update(
                        ix as int,
                        (k, entries[ix as int].1),
                    )) by {
                        assert(entries =~= old_entries.update(ix as int, entries[ix as int]));
                        assert(entries[ix as int].0 == k);
                    }
                    lemma_kv_update(old_entries, f, ix as int, k, entries[ix as int].1);
                    assert(entries[ix as int].1@.owners =~= old_entries[ix as int].1@.owners.insert(
                        ov,
                    ));
                    assert(entries[ix as int].1@ =~~= (OwnersSetV {
                        inherit: old_entries[ix as int].1@.inherit,
                        owners: old_entries[ix as int].1@.owners.insert(ov),
                    }));
                    assert(self@ =~~= spec_add_owner(old(self)@, Some(k@), ov));
                }
            },
        }
    }
}

/// Equality of configurations: same blanket set and, for lists with unique
/// keys, the same override map.
pub open spec fn config_eq_spec(a: OwnersFileConfig, b: OwnersFileConfig) -> bool {
    &&& kv_unique(a.pattern_overrides@)
    &&& kv_unique(b.pattern_overrides@)
    &&& a@ == b@
}

pub fn config_eq(a: &OwnersFileConfig, b: &OwnersFileConfig) -> (r: bool)
    ensures
        r == config_eq_spec(*a, *b),
{
    let ghost f = |s: OwnersSet| s@;
    if !kv_unique_check(&a.pattern_overrides) || !kv_unique_check(&b.pattern_overrides) {
        return false;
    }
    if !(crate::owners_set::opt_bool_eq(&a.all_files.inherit, &b.all_files.inherit)
        && crate::owners_set::same_owner_names(&a.all_files.owners, &b.all_files.owners)) {
        proof {
            if a@ == b@ {
                assert(a@.all_files == b@.all_files);
            }
        }
        return false;
    }
    let n = a.pattern_overrides.len();
    for i in 0..n
        invariant
            n == a.pattern_overrides@.len(),
            kv_unique(a.pattern_overrides@),
            kv_unique(b.pattern_overrides@),
            forall|q: int|
                0 <= q < i ==> {
                    let k = #[trigger] a.pattern_overrides@[q].0@;
                    b@.pattern_overrides.contains_key(k) && b@.pattern_overrides[k]
                        == a.pattern_overrides@[q].1@
                },
    {
        proof {
            lemma_kv_index(a.pattern_overrides@, f, i as int);
            lemma_kv_contains(b.pattern_overrides@, f, a.pattern_overrides@[i as int].0@);
        }
        match kv_find(&b.pattern_overrides, a.pattern_overrides[i].0.as_str()) {
            None => {
                proof {
                    if a@ == b@ {
                        assert(a@.pattern_overrides.contains_key(
                            a.pattern_overrides@[i as int].0@,
                        ));
                    }
                }
                return false;
            },
            Some(ix) => {
                proof {
                    lemma_kv_index(b.pattern_overrides@, f, ix as int);
                }
                if !(crate::owners_set::opt_bool_eq(
                    &a.pattern_overrides[i].1.inherit,
                    &b.pattern_overrides[ix].1.inherit,
                ) && crate::owners_set::same_owner_names(
                    &a.pattern_overrides[i].1.owners,
                    &b.pattern_overrides[ix].1.owners,
                )) {
                    proof {
                        if a@ == b@ {
                            assert(a@.pattern_overrides[a.pattern_overrides@[i as int].0@]
                                == b@.pattern_overrides[a.pattern_overrides@[i as int].0@]);
                        }
                    }
                    return false;
                }
                proof {
                    assert(a.pattern_overrides@[i as int].1@ =~~= b.pattern_overrides@[ix as int].1@);
                }
            },
        }
    }
    let m = b.pattern_overrides.len();
    for i in 0..m
        invariant
            m == b.pattern_overrides@.len(),
            kv_unique(a.pattern_overrides@),
            kv_unique(b.pattern_overrides@),
            forall|q: int|
                0 <= q < a.pattern_overrides@.len() ==> {
                    let k = #[trigger] a.pattern_overrides@[q].0@;
                    b@.pattern_overrides.contains_key(k) && b@.pattern_overrides[k]
                        == a.pattern_overrides@[q].1@
                },
            forall|q: int|
                0 <= q < i ==> a@.pattern_overrides.contains_key(
                    #[trigger] b.pattern_overrides@[q].0@,
                ),
    {
        proof {
            lemma_kv_index(b.pattern_overrides@, f, i as int);
            lemma_kv_contains(a.pattern_overrides@, f, b.pattern_overrides@[i as int].0@);
        }
        match kv_find(&a.pattern_overrides, b.pattern_overrides[i].0.as_str()) {
            None => {
                proof {
                    if a@ == b@ {
                        assert(b@.pattern_overrides.contains_key(
                            b.pattern_overrides@[i as int].0@,
                        ));
                        lemma_kv_contains(
                            a.pattern_overrides@,
                            f,
                            b.pattern_overrides@[i as int].0@,
                        );
                    }
                }
                return false;
            },
            Some(ix) => {
                proof {
                    lemma_kv_index(a.pattern_overrides@, f, ix as int);
                }
            },
        }
    }
    proof {
        let am = a@.pattern_overrides;
        let bm = b@.pattern_overrides;
        assert forall|k: Seq<char>| #[trigger] am.dom().contains(k) implies bm.dom().contains(k)
            && am[k] == bm[k] by {
            assert(am.contains_key(k));
            lemma_kv_contains(a.pattern_overrides@, f, k);
            let q = choose|q: int|
                0 <= q < a.pattern_overrides@.len() && a.pattern_overrides@[q].0@ == k;
            lemma_kv_index(a.pattern_overrides@, f, q);
            assert(bm.contains_key(k));
        }
        assert forall|k: Seq<char>| #[trigger] bm.dom().contains(k) implies am.dom().contains(
            k,
        ) by {
            assert(bm.contains_key(k));
            lemma_kv_contains(b.pattern_overrides@, f, k);
            let q = choose|q: int|
                0 <= q < b.pattern_overrides@.len() && b.pattern_overrides@[q].0@ == k;
            assert(am.contains_key(k));
        }
        assert(am.dom() =~= bm.dom());
        assert(am =~~= bm);
        assert(a@.all_files =~~= b@.all_files);
        assert(a@ =~~= b@);
    }
    true
}

impl PartialEq for OwnersFileConfig {
    /// Configurations are equal when their blanket sets agree and they map
    /// the same patterns to the same owner sets.
    fn eq(&self, other: &OwnersFileConfig) -> (r: bool) {
        config_eq(self, other)
    }
}

impl vstd::std_specs::cmp::PartialEqSpecImpl for OwnersFileConfig {
    open spec fn obeys_eq_spec() -> bool {
        true
    }

    open spec fn eq_spec(&self, other: &OwnersFileConfig) -> bool {
        config_eq_spec(*self, *other)
    }
}

impl Default for OwnersFileConfig {
    fn default() -> (r: OwnersFileConfig)
        ensures
            r.wf(),
            r@ == empty_config_v(),
    {
        OwnersFileConfig::new()
    }
}

// ---------------------------------------------------------------------------
// Line shapes: comment stripping, pattern headers, include directives.
// ---------------------------------------------------------------------------
/// A line with any comment (from the first `#`) and surrounding whitespace
/// removed.
pub open spec fn spec_clean_line(l: Seq<char>) -> Seq<char> {
    spec_trim(l.subrange(0, spec_find_char(l, 0, '#')))
}

/// Remove extraneous info in the line, such as comments and surrounding
/// whitespace.
pub fn clean_line(line: &str) -> (r: &str)
    ensures
        r@ == spec_clean_line(line@),
{
    proof {
        lemma_find_char(line@, 0, '#');
    }
    let h = find_char(line, 0, '#');
    let cut = line.substring_char(0, h);
    trim(cut)
}

/// A pattern header: `[`, an optionally space-padded pattern token without
/// whitespace, `]`, allowing surrounding whitespace.
pub open spec fn spec_pattern_header(l: Seq<char>) -> Option<Seq<char>> {
    let a = spec_skip_ws(l, 0);
    let b = spec_rskip_ws(l, l.len() as int);
    if a == l.len() || l[a] != '[' || b <= a + 1 || l[b - 1] != ']' {
        None::<Seq<char>>
    } else {
        let t = spec_trim(l.subrange(a + 1, b - 1));
        if t.len() == 0 || spec_skip_nonws(t, 0) != t.len() {
            None::<Seq<char>>
        } else {
            Some(t)
        }
    }
}

/// Parses a file pattern line, e.g., `[*.rs]`.
pub fn maybe_get_file_pattern(line: &str) -> (r: Option<String>)
    ensures
        match spec_pattern_header(line@) {
            Some(p) => r matches Some(s) && s@ == p,
            None => r is None,
        },
{
    let n = line.unicode_len();
    proof {
        lemma_skip_ws(line@, 0);
        lemma_rskip_ws(line@, line@.len() as int);
    }
    let a = skip_ws(line, 0);
    let b = rskip_ws(line, n);
    if a == n || line.get_char(a) != '[' || b <= a + 1 || line.get_char(b - 1) != ']' {
        return None;
    }
    let interior = line.substring_char(a + 1, b - 1);
    let t = trim(interior);
    let tn = t.unicode_len();
    proof {
        lemma_skip_nonws(t@, 0);
    }
    if tn == 0 || skip_nonws(t, 0) != tn {
        return None;
    }
    Some(t.to_owned())
}

/// Outcome of matching one line against the include grammar.
pub enum IncludeParse {
    /// Not an include line at all.
    NotInclude,
    /// Looks like an include (even case-insensitively) but carries no single
    /// whitespace-free path token.
    Malformed,
    /// `include <path>`, with the path token.
    Include(Seq<char>),
}

pub open spec fn include_chars() -> Seq<char> {
    seq!['i', 'n', 'c', 'l', 'u', 'd', 'e']
}

/// Whether `c` equals the lowercase letter `lc` up to ASCII case.
pub open spec fn lower_matches(c: char, lc: char) -> bool {
    c == lc || c as u32 + 32 == lc as u32
}

/// Whether the raw line starts with `include ` once ASCII case is ignored.
pub open spec fn spec_lower_prefix_include(l: Seq<char>) -> bool {
    l.len() >= 8 && (forall|i: int| 0 <= i < 7 ==> lower_matches(l[i], #[trigger] include_chars()[i]))
        && l[7] == ' '
}

/// The include grammar: optional leading whitespace, the literal `include`,
/// whitespace, one whitespace-free path token, optional trailing whitespace.
/// A line that fails that but still starts with `include ` ignoring ASCII
/// case is malformed rather than an owner line.
pub open spec fn spec_include_line(l: Seq<char>) -> IncludeParse {
    let a = spec_skip_ws(l, 0);
    if a + 7 <= l.len() && l.subrange(a, a + 7) == include_chars() {
        let t = spec_skip_ws(l, a + 7);
        if t == a + 7 && t < l.len() {
            if spec_lower_prefix_include(l) {
                IncludeParse::Malformed
            } else {
                IncludeParse::NotInclude
            }
        } else if t == l.len() {
            IncludeParse::Malformed
        } else {
            let e = spec_skip_nonws(l, t);
            if spec_skip_ws(l, e) == l.len() {
                IncludeParse::Include(l.subrange(t, e))
            } else if spec_lower_prefix_include(l) {
                IncludeParse::Malformed
            } else {
                IncludeParse::NotInclude
            }
        }
    } else {
        if spec_lower_prefix_include(l) {
            IncludeParse::Malformed
        } else {
            IncludeParse::NotInclude
        }
    }
}

fn lower_prefix_include(line: &str) -> (r: bool)
    ensures
        r == spec_lower_prefix_include(line@),
{
    let n = line.unicode_len();
    if n < 8 {
        return false;
    }
    proof {
        assert(include_chars()[0] == 'i');
        assert(include_chars()[1] == 'n');
        assert(include_chars()[2] == 'c');
        assert(include_chars()[3] == 'l');
        assert(include_chars()[4] == 'u');
        assert(include_chars()[5] == 'd');
        assert(include_chars()[6] == 'e');
    }
    let ok = lower_match(line.get_char(0), 'i') && lower_match(line.get_char(1), 'n')
        && lower_match(line.get_char(2), 'c') && lower_match(line.get_char(3), 'l') && lower_match(
        line.get_char(4),
        'u',
    ) && lower_match(line.get_char(5), 'd') && lower_match(line.get_char(6), 'e') && line.get_char(
        7,
    ) == ' ';
    proof {
        if ok {
            assert forall|i: int| 0 <= i < 7 implies lower_matches(
                line@[i],
                #[trigger] include_chars()[i],
            ) by {
            }
        }
    }
    ok
}

fn lower_match(c: char, lc: char) -> (r: bool)
    requires
        lc as u32 >= 32,
    ensures
        r == lower_matches(c, lc),
{
    c == lc || c as u32 == lc as u32 - 32
}

/// Parses an include directive, e.g., `include path/to/another/file`.
pub fn maybe_get_include(line: &str) -> (r: Result<Option<String>, OwnersError>)
    ensures
        match spec_include_line(line@) {
            IncludeParse::NotInclude => r == Ok::<Option<String>, OwnersError>(None),
            IncludeParse::Malformed => r matches Err(e) && e@ == (OwnersErrorV::MalformedInclude {
                line: line@,
            }),
            IncludeParse::Include(p) => r matches Ok(Some(s)) && s@ == p,
        },
{
    let n = line.unicode_len();
    proof {
        lemma_skip_ws(line@, 0);
    }
    let a = skip_ws(line, 0);
    let lit_match = if n >= 7 && a <= n - 7 {
        let m = line.get_char(a) == 'i' && line.get_char(a + 1) == 'n' && line.get_char(a + 2)
            == 'c' && line.get_char(a + 3) == 'l' && line.get_char(a + 4) == 'u' && line.get_char(
            a + 5,
        ) == 'd' && line.get_char(a + 6) == 'e';
        proof {
            if m {
                assert(line@.subrange(a as int, a + 7) =~= include_chars());
            } else {
                assert(line@.subrange(a as int, a + 7) != include_chars()) by {
                    if line@.subrange(a as int, a + 7) == include_chars() {
                        assert(line@.subrange(a as int, a + 7)[0] == 'i');
                        assert(line@.subrange(a as int, a + 7)[1] == 'n');
                        assert(line@.subrange(a as int, a + 7)[2] == 'c');
                        assert(line@.subrange(a as int, a + 7)[3] == 'l');
                        assert(line@.subrange(a as int, a + 7)[4] == 'u');
                        assert(line@.subrange(a as int, a + 7)[5] == 'd');
                        assert(line@.subrange(a as int, a + 7)[6] == 'e');
                    }
                }
            }
        }
        m
    } else {
        false
    };
    if lit_match {
        proof {
            lemma_skip_ws(line@, a + 7);
        }
        let t = skip_ws(line, a + 7);
        if t == a + 7 && t < n {
            if lower_prefix_include(line) {
                Err(OwnersError::MalformedInclude { line: line.to_owned() })
            } else {
                Ok(None)
            }
        } else if t == n {
            Err(OwnersError::MalformedInclude { line: line.to_owned() })
        } else {
            proof {
                lemma_skip_nonws(line@, t as int);
            }
            let e = skip_nonws(line, t);
            proof {
                lemma_skip_ws(line@, e as int);
            }
            if skip_ws(line, e) == n {
                Ok(Some(line.substring_char(t, e).to_owned()))
            } else if lower_prefix_include(line) {
                Err(OwnersError::MalformedInclude { line: line.to_owned() })
            } else {
                Ok(None)
            }
        }
    } else {
        if lower_prefix_include(line) {
            Err(OwnersError::MalformedInclude { line: line.to_owned() })
        } else {
            Ok(None)
        }
    }
}

// ---------------------------------------------------------------------------
// The parse, specified: a fold over the file's lines, recursing into included
// files, with the active include chain threaded through.
// ---------------------------------------------------------------------------
/// The lines of a file's text.
pub open spec fn spec_lines(text: Seq<char>) -> Seq<Seq<char>> {
    spec_split(text, '\n')
}

pub open spec fn empty_set_v() -> OwnersSetV {
    OwnersSetV { inherit: None, owners: Set::empty() }
}

pub open spec fn empty_config_v() -> OwnersFileConfigV {
    OwnersFileConfigV { all_files: empty_set_v(), pattern_overrides: Map::empty() }
}

/// The owner set a line is currently aimed at: the blanket set, or the named
/// pattern override.
pub open spec fn spec_target_of(cfg: OwnersFileConfigV, active: Option<Seq<char>>) -> OwnersSetV {
    match active {
        None => cfg.all_files,
        Some(k) => cfg.pattern_overrides[k],
    }
}

/// Store back the owner set a line is aimed at.
pub open spec fn spec_set_target(
    cfg: OwnersFileConfigV,
    active: Option<Seq<char>>,
    s: OwnersSetV,
) -> OwnersFileConfigV {
    match active {
        None => OwnersFileConfigV { all_files: s, pattern_overrides: cfg.pattern_overrides },
        Some(k) => OwnersFileConfigV {
            all_files: cfg.all_files,
            pattern_overrides: cfg.pattern_overrides.insert(k, s),
        },
    }
}

/// Materialize the active pattern override, empty, if it does not exist yet.
/// This happens the first time any line is handled while the pattern is
/// active, so a trailing pattern header without lines leaves no entry.
pub open spec fn spec_touch(cfg: OwnersFileConfigV, active: Option<Seq<char>>) -> OwnersFileConfigV {
    match active {
        None => cfg,
        Some(k) => if cfg.pattern_overrides.contains_key(k) {
            cfg
        } else {
            OwnersFileConfigV {
                all_files: cfg.all_files,
                pattern_overrides: cfg.pattern_overrides.insert(k, empty_set_v()),
            }
        },
    }
}

pub open spec fn spec_set_inherit(
    cfg: OwnersFileConfigV,
    active: Option<Seq<char>>,
    b: bool,
) -> OwnersFileConfigV {
    let t = spec_target_of(cfg, active);
    spec_set_target(cfg, active, OwnersSetV { inherit: Some(b), owners: t.owners })
}

pub open spec fn spec_add_owner(
    cfg: OwnersFileConfigV,
    active: Option<Seq<char>>,
    o: Seq<char>,
) -> OwnersFileConfigV {
    let t = spec_target_of(cfg, active);
    spec_set_target(cfg, active, OwnersSetV { inherit: t.inherit, owners: t.owners.insert(o) })
}

pub open spec fn at_line_v(e: OwnersErrorV, path: Seq<char>, line_number: nat) -> OwnersErrorV {
    OwnersErrorV::AtLine { error: Box::new(e), path, line_number }
}

/// The include chain is sane: no file twice, every included file in the
/// store, and the store's key set finite.
pub open spec fn wf_parse_state(store: Map<Seq<char>, Seq<char>>, seen: Seq<Seq<char>>) -> bool {
    &&& store.dom().finite()
    &&& seen.no_duplicates()
    &&& forall|j: int| 1 <= j < seen.len() ==> store.contains_key(#[trigger] seen[j])
}

/// Files of the store not currently being expanded; the recursion's measure.
pub open spec fn spec_avail(store: Map<Seq<char>, Seq<char>>, seen: Seq<Seq<char>>) -> int {
    store.dom().len() + 1 - seen.len()
}

pub proof fn lemma_seen_bound(
    store: Map<Seq<char>, Seq<char>>,
    seen: Seq<Seq<char>>,
    resolved: Seq<char>,
)
    requires
        wf_parse_state(store, seen),
        seen.len() >= 1,
        store.contains_key(resolved),
        !seen.contains(resolved),
    ensures
        seen.len() <= store.dom().len(),
        wf_parse_state(store, seen.push(resolved)),
{
    let tail = seen.drop_first();
    assert forall|i: int, j: int| 0 <= i < j < tail.len() implies tail[i] != tail[j] by {
        assert(seen[i + 1] == tail[i]);
        assert(seen[j + 1] == tail[j]);
    }
    tail.unique_seq_to_set();
    let small = store.dom().remove(resolved);
    assert forall|x: Seq<char>| tail.to_set().contains(x) implies small.contains(x) by {
        let i = choose|i: int| 0 <= i < tail.len() && tail[i] == x;
        assert(seen[i + 1] == x);
        assert(store.contains_key(x));
        assert(seen.contains(x));
    }
    vstd::set_lib::lemma_len_subset(tail.to_set(), small);
    vstd::set::axiom_set_remove_len(store.dom(), resolved);
    let pushed = seen.push(resolved);
    assert forall|i: int, j: int| 0 <= i < j < pushed.len() implies pushed[i] != pushed[j] by {
        if j < seen.len() {
            assert(seen[i] == pushed[i] && seen[j] == pushed[j]);
        } else {
            assert(pushed[j] == resolved);
            assert(seen[i] == pushed[i]);
            assert(seen.contains(seen[i]));
        }
    }
    assert forall|j: int| 1 <= j < pushed.len() implies store.contains_key(
        #[trigger] pushed[j],
    ) by {
        if j < seen.len() {
            assert(pushed[j] == seen[j]);
        }
    }
}

/// One parse of `lines[i..]` of the file at `path`, acting on the
/// accumulated configuration; `seen` is the active include chain, whose last
/// element is `path` itself.
pub open spec fn spec_parse_lines(
    store: Map<Seq<char>, Seq<char>>,
    repo_base: Seq<char>,
    path: Seq<char>,
    lines: Seq<Seq<char>>,
    i: int,
    active: Option<Seq<char>>,
    cfg: OwnersFileConfigV,
    seen: Seq<Seq<char>>,
) -> Result<OwnersFileConfigV, OwnersErrorV>
    decreases spec_avail(store, seen), lines.len() - i,
    when wf_parse_state(store, seen) && 0 <= i <= lines.len() && seen.len() >= 1
    via spec_parse_lines_decreases
{
    if i == lines.len() {
        Ok(cfg)
    } else {
        let l = spec_clean_line(lines[i]);
        let lineno = (i + 1) as nat;
        if l.len() == 0 {
            spec_parse_lines(store, repo_base, path, lines, i + 1, active, cfg, seen)
        } else {
            match spec_include_line(l) {
                IncludeParse::Malformed => Err(
                    at_line_v(OwnersErrorV::MalformedInclude { line: l }, path, lineno),
                ),
                IncludeParse::Include(inc) => {
                    if active is Some {
                        Err(at_line_v(OwnersErrorV::IncludeInPatternSection, path, lineno))
                    } else {
                        let resolved = spec_resolve_include(repo_base, path, inc);
                        if !spec_path_within(resolved, repo_base) {
                            Err(
                                at_line_v(
                                    OwnersErrorV::IncludeOutsideRepo { path: resolved },
                                    path,
                                    lineno,
                                ),
                            )
                        } else if !store.contains_key(resolved) {
                            Err(
                                at_line_v(
                                    OwnersErrorV::MissingIncludeFile { path: resolved },
                                    resolved,
                                    lineno,
                                ),
                            )
                        } else if seen.contains(resolved) {
                            let idx = choose|idx: int|
                                0 <= idx < seen.len() && seen[idx] == resolved;
                            Err(OwnersErrorV::IncludeCycle { chain: seen.subrange(0, idx + 1) })
                        } else {
                            match spec_parse_lines(
                                store,
                                repo_base,
                                resolved,
                                spec_lines(store[resolved]),
                                0,
                                None,
                                cfg,
                                seen.push(resolved),
                            ) {
                                Ok(cfg2) => spec_parse_lines(
                                    store,
                                    repo_base,
                                    path,
                                    lines,
                                    i + 1,
                                    active,
                                    cfg2,
                                    seen,
                                ),
                                Err(e) => Err(e),
                            }
                        }
                    }
                },
                IncludeParse::NotInclude => {
                    let cfg1 = spec_touch(cfg, active);
                    match spec_parse_set_line(l) {
                        SetLineParse::Malformed => Err(
                            at_line_v(OwnersErrorV::MalformedSetLine { line: l }, path, lineno),
                        ),
                        SetLineParse::Directive { variable, value } => {
                            if variable == inherit_chars() && (value == true_chars() || value
                                == false_chars()) {
                                if seen.len() > 1 {
                                    Err(at_line_v(OwnersErrorV::SetInsideInclude, path, lineno))
                                } else {
                                    spec_parse_lines(
                                        store,
                                        repo_base,
                                        path,
                                        lines,
                                        i + 1,
                                        active,
                                        spec_set_inherit(cfg1, active, value == true_chars()),
                                        seen,
                                    )
                                }
                            } else if variable == inherit_chars() {
                                Err(
                                    at_line_v(
                                        OwnersErrorV::InvalidInheritValue { value },
                                        path,
                                        lineno,
                                    ),
                                )
                            } else {
                                Err(
                                    at_line_v(
                                        OwnersErrorV::UnknownSetVariable { variable },
                                        path,
                                        lineno,
                                    ),
                                )
                            }
                        },
                        SetLineParse::NotSet => {
                            match spec_pattern_header(l) {
                                Some(pat) => spec_parse_lines(
                                    store,
                                    repo_base,
                                    path,
                                    lines,
                                    i + 1,
                                    Some(pat),
                                    cfg1,
                                    seen,
                                ),
                                None => {
                                    if spec_skip_nonws(l, 0) != l.len() {
                                        Err(
                                            at_line_v(
                                                OwnersErrorV::OwnerWithWhitespace { owner: l },
                                                path,
                                                lineno,
                                            ),
                                        )
                                    } else {
                                        spec_parse_lines(
                                            store,
                                            repo_base,
                                            path,
                                            lines,
                                            i + 1,
                                            active,
                                            spec_add_owner(cfg1, active, l),
                                            seen,
                                        )
                                    }
                                },
                            }
                        },
                    }
                },
            }
        }
    }
}

#[via_fn]
proof fn spec_parse_lines_decreases(
    store: Map<Seq<char>, Seq<char>>,
    repo_base: Seq<char>,
    path: Seq<char>,
    lines: Seq<Seq<char>>,
    i: int,
    active: Option<Seq<char>>,
    cfg: OwnersFileConfigV,
    seen: Seq<Seq<char>>,
) {
    if wf_parse_state(store, seen) && 0 <= i <= lines.len() && seen.len() >= 1 {
        assert forall|resolved: Seq<char>|
            store.contains_key(resolved) && !seen.contains(resolved) implies 0 <= spec_avail(
            store,
            seen.push(resolved),
        ) < spec_avail(store, seen) by {
            lemma_seen_bound(store, seen, resolved);
        }
    }
}

/// The include's path token resolved against the repository base (when it
/// begins with a separator) or the including file's directory, normalized.
pub open spec fn spec_resolve_include(
    repo_base: Seq<char>,
    current_path: Seq<char>,
    inc: Seq<char>,
) -> Seq<char> {
    let joined = if inc.len() > 0 && inc[0] == '/' {
        spec_join_path(repo_base, inc.drop_first())
    } else {
        spec_join_path(spec_parent_dir(current_path), inc)
    };
    spec_normalize(joined)
}

/// Resolve an include path token against the repository base or the current
/// file's directory.
pub fn resolve_include_path(repo_base: &str, current_path: &str, include_path: &str) -> (r: String)
    ensures
        r@ == spec_resolve_include(repo_base@, current_path@, include_path@),
{
    let n = include_path.unicode_len();
    let joined: String = if n > 0 && include_path.get_char(0) == '/' {
        let rest = include_path.substring_char(1, n);
        proof {
            assert(rest@ =~= include_path@.drop_first());
        }
        join_path(repo_base, rest)
    } else {
        join_path(parent_dir(current_path), include_path)
    };
    normalize_path(joined.as_str())
}

/// The first chain position holding `key`, scanning from the outermost file.
fn chain_find(seen: &Vec<String>, key: &str) -> (r: Option<usize>)
    ensures
        match r {
            Some(ix) => ix < seen@.len() && seen@[ix as int]@ == key@,
            None => forall|j: int| 0 <= j < seen@.len() ==> seen@[j]@ != key@,
        },
{
    let n = seen.len();
    for i in 0..n
        invariant
            n == seen@.len(),
            forall|j: int| 0 <= j < i ==> seen@[j]@ != key@,
    {
        if str_eq(seen[i].as_str(), key) {
            return Some(i);
        }
    }
    None
}

/// The first `k` chain entries, as owned strings.
fn clone_prefix(seen: &Vec<String>, k: usize) -> (r: Vec<String>)
    requires
        k <= seen@.len(),
    ensures
        r@.map_values(|s: String| s@) == seen@.map_values(|s: String| s@).subrange(0, k as int),
{
    let mut r: Vec<String> = Vec::new();
    for i in 0..k
        invariant
            k <= seen@.len(),
            r@.map_values(|s: String| s@) =~= seen@.map_values(|s: String| s@).subrange(
                0,
                i as int,
            ),
    {
        let ghost pre = r@.map_values(|s: String| s@);
        r.push(seen[i].clone());
        proof {
            assert(r@.map_values(|s: String| s@) =~= pre.push(seen@[i as int]@));
            assert(r@.map_values(|s: String| s@) =~= seen@.map_values(|s: String| s@).subrange(
                0,
                i + 1,
            ));
        }
    }
    r
}

impl OwnersFileConfig {
    /// Parse declaration-file text, folding it (and any included files from
    /// the store) into this configuration. `seen` is the active include
    /// chain; this file is popped from it again before returning, on success
    /// and on failure alike.
    fn parse_text(
        &mut self,
        text: &str,
        path: &str,
        repo_base: &str,
        store: &FileStore,
        seen: &mut Vec<String>,
    ) -> (r: Result<(), OwnersError>)
        requires
            old(self).wf(),
            store.wf(),
            wf_parse_state(store@, old(seen)@.map_values(|s: String| s@)),
            old(seen)@.len() >= 1,
        ensures
            ({
                let res = spec_parse_lines(
                    store@,
                    repo_base@,
                    path@,
                    spec_lines(text@),
                    0,
                    None,
                    old(self)@,
                    old(seen)@.map_values(|s: String| s@),
                );
                match r {
                    Ok(u) => {
                        &&& res == Ok::<OwnersFileConfigV, OwnersErrorV>(final(self)@)
                        &&& final(self).wf()
                        &&& final(seen)@ == old(seen)@.drop_last()
                    },
                    Err(e) => {
                        &&& res == Err::<OwnersFileConfigV, OwnersErrorV>(e@)
                        &&& final(seen)@ == old(seen)@.drop_last()
                    },
                }
            }),
        decreases spec_avail(store@, old(seen)@.map_values(|s: String| s@)),
    {
        let ghost seen0 = seen@.map_values(|s: String| s@);
        let ghost seenv0 = seen@;
        let ghost cfg0 = self@;
        let lines: Vec<String> = crate::paths::split_str(text, '\n');
        let ghost linesv = lines@.map_values(|x: String| x@);
        let mut active: Option<String> = None;
        let n = lines.len();
        for i in 0..n
            invariant
                self.wf(),
                store.wf(),
                seen@ == seenv0,
                wf_parse_state(store@, seen0),
                seen0.len() >= 1,
                n == lines@.len(),
                linesv == lines@.map_values(|x: String| x@),
                spec_parse_lines(store@, repo_base@, path@, linesv, 0, None, cfg0, seen0)
                    == spec_parse_lines(
                    store@,
                    repo_base@,
                    path@,
                    linesv,
                    i as int,
                    opt_key_view(active),
                    self@,
                    seen0,
                ),
        {
            let ghost av = opt_key_view(active);
            let ghost cfg_pre = self@;
            let raw = &lines[i];
            proof {
                assert(linesv[i as int] == raw@);
            }
            let line = clean_line(raw.as_str());
            let ghost l = spec_clean_line(linesv[i as int]);
            if line.unicode_len() != 0 {
            // include handling comes first; a malformed include aborts, an
            // include line must not appear inside a pattern section
            match maybe_get_include(line) {
                Err(e) => {
                    seen.pop();
                    return Err(e.at_line(path, i + 1));
                },
                Ok(Some(inc)) => {
                    if active.is_some() {
                        seen.pop();
                        return Err(OwnersError::IncludeInPatternSection.at_line(path, i + 1));
                    }
                    let resolved = resolve_include_path(repo_base, path, inc.as_str());
                    if !path_within(resolved.as_str(), repo_base) {
                        let e = OwnersError::IncludeOutsideRepo { path: resolved };
                        seen.pop();
                        return Err(e.at_line(path, i + 1));
                    }
                    match store.get(resolved.as_str()) {
                        None => {
                            let e = OwnersError::MissingIncludeFile { path: resolved.clone() };
                            seen.pop();
                            return Err(e.at_line(resolved.as_str(), i + 1));
                        },
                        Some(text2) => {
                            match chain_find(seen, resolved.as_str()) {
                                Some(ci) => {
                                    // the exec length bounds `ci + 1`
                                    let _chain_bound = seen.len();
                                    proof {
                                        assert(seen0[ci as int] == resolved@);
                                        assert(seen0.contains(resolved@));
                                    }
                                    let chain = clone_prefix(seen, ci + 1);
                                    proof {
                                        let idx = choose|idx: int|
                                            0 <= idx < seen0.len() && seen0[idx] == resolved@;
                                        assert(seen0[ci as int] == resolved@);
                                        assert(idx == ci);
                                    }
                                    seen.pop();
                                    return Err(OwnersError::IncludeCycle { chain });
                                },
                                None => {},
                            }
                            proof {
                                assert(!seen0.contains(resolved@)) by {
                                    if seen0.contains(resolved@) {
                                        let j = choose|j: int|
                                            0 <= j < seen0.len() && seen0[j] == resolved@;
                                        assert(seen@[j]@ == resolved@);
                                    }
                                }
                                lemma_seen_bound(store@, seen0, resolved@);
                            }
                            seen.push(resolved.clone());
                            proof {
                                assert(seen@.map_values(|s: String| s@) =~= seen0.push(resolved@));
                            }
                            let res = self.parse_text(
                                text2.as_str(),
                                resolved.as_str(),
                                repo_base,
                                store,
                                seen,
                            );
                            match res {
                                Err(e) => {
                                    proof {
                                        assert(seen@ =~= seenv0);
                                    }
                                    seen.pop();
                                    return Err(e);
                                },
                                Ok(u) => {
                                    proof {
                                        assert(seen@ =~= seenv0);
                                    }
                                },
                            }
                        },
                    }
                },
                Ok(None) => {
                    // not an include: materialize the target, then classify
                    let idx = self.touch_target(&active);
                    let ghost cfg1 = self@;
                    match self.target_process_set(idx, line) {
                        Err(e) => {
                            seen.pop();
                            return Err(e.at_line(path, i + 1));
                        },
                        Ok(true) => {
                            if seen.len() > 1 {
                                seen.pop();
                                return Err(OwnersError::SetInsideInclude.at_line(path, i + 1));
                            }
                        },
                        Ok(false) => {
                            match maybe_get_file_pattern(line) {
                                Some(pat) => {
                                    active = Some(pat);
                                },
                                None => {
                                    proof {
                                        lemma_skip_nonws(l, 0);
                                    }
                                    if skip_nonws(line, 0) != line.unicode_len() {
                                        let e = OwnersError::OwnerWithWhitespace {
                                            owner: line.to_owned(),
                                        };
                                        seen.pop();
                                        return Err(e.at_line(path, i + 1));
                                    }
                                    self.target_insert_owner(idx, line.to_owned());
                                },
                            }
                        },
                    }
                },
            }
            }
        }
        proof {
            assert(spec_parse_lines(
                store@,
                repo_base@,
                path@,
                linesv,
                n as int,
                opt_key_view(active),
                self@,
                seen0,
            ) == Ok::<OwnersFileConfigV, OwnersErrorV>(self@));
        }
        seen.pop();
        Ok(())
    }

    /// Parse one declaration file's text against a store of include targets.
    pub fn from_text(text: &str, path: &str, repo_base: &str, store: &FileStore) -> (r: Result<
        OwnersFileConfig,
        OwnersError,
    >)
        requires
            store.wf(),
        ensures
            ({
                let res = spec_from_text(store@, repo_base@, path@, text@);
                match r {
                    Ok(c) => c.wf() && res == Ok::<OwnersFileConfigV, OwnersErrorV>(c@),
                    Err(e) => res == Err::<OwnersFileConfigV, OwnersErrorV>(e@),
                }
            }),
    {
        let mut config = OwnersFileConfig::new();
        let mut seen: Vec<String> = Vec::new();
        seen.push(path.to_owned());
        proof {
            let sv = seen@.map_values(|s: String| s@);
            assert(sv =~= seq![path@]);
            crate::kvlist::lemma_kv_dom(store.files@, |t: String| t@);
        }
        match config.parse_text(text, path, repo_base, store, &mut seen) {
            Ok(u) => Ok(config),
            Err(e) => Err(e),
        }
    }
}

// ---------------------------------------------------------------------------
// Cycle rejection, proved: a parse can never succeed once the include graph
// leads back into the active chain.
// ---------------------------------------------------------------------------
/// Whether some line of `lines`, at or after `i`, is an include directive
/// whose path resolves (against `path`'s directory or the repository base)
/// to `target`.
pub open spec fn spec_has_include_to(
    lines: Seq<Seq<char>>,
    i: int,
    repo_base: Seq<char>,
    path: Seq<char>,
    target: Seq<char>,
) -> bool {
    exists|j: int|
        i <= j < lines.len() && (spec_include_line(
            spec_clean_line(#[trigger] lines[j]),
        ) matches IncludeParse::Include(inc) && spec_resolve_include(repo_base, path, inc)
            == target)
}

/// The include edges of a route through the store: each file's text
/// includes the next route member, and the last file's text includes the
/// target `back_to`.
pub open spec fn spec_include_route(
    store: Map<Seq<char>, Seq<char>>,
    repo_base: Seq<char>,
    route: Seq<Seq<char>>,
    back_to: Seq<char>,
) -> bool {
    &&& forall|k: int| 0 <= k < route.len() ==> store.contains_key(#[trigger] route[k])
    &&& forall|k: int|
        0 <= k < route.len() - 1 ==> spec_has_include_to(
            spec_lines(store[#[trigger] route[k]]),
            0,
            repo_base,
            route[k],
            route[k + 1],
        )
    &&& route.len() > 0 ==> spec_has_include_to(
        spec_lines(store[route.last()]),
        0,
        repo_base,
        route.last(),
        back_to,
    )
}

/// The parse of `lines[i..]` fails whenever some line includes a target `t`
/// that is already on the active chain, or that starts a route of includes
/// whose last member includes a chain member back. The failing line may
/// never be reached, but then an earlier line failed first.
proof fn lemma_route_hit_fails(
    store: Map<Seq<char>, Seq<char>>,
    repo_base: Seq<char>,
    path: Seq<char>,
    lines: Seq<Seq<char>>,
    i: int,
    active: Option<Seq<char>>,
    cfg: OwnersFileConfigV,
    seen: Seq<Seq<char>>,
    route: Seq<Seq<char>>,
    back_to: Seq<char>,
    t: Seq<char>,
)
    requires
        wf_parse_state(store, seen),
        0 <= i <= lines.len(),
        seen.len() >= 1,
        spec_include_route(store, repo_base, route, back_to),
        route.len() > 0 ==> seen.contains(back_to),
        seen.contains(t) || (route.len() > 0 && t == route[0]),
        spec_has_include_to(lines, i, repo_base, path, t),
    ensures
        spec_parse_lines(store, repo_base, path, lines, i, active, cfg, seen) is Err,
    decreases route.len(), lines.len() - i,
{
    let j = choose|j: int|
        i <= j < lines.len() && (spec_include_line(
            spec_clean_line(#[trigger] lines[j]),
        ) matches IncludeParse::Include(inc) && spec_resolve_include(repo_base, path, inc) == t);
    let l = spec_clean_line(lines[i]);
    if l.len() == 0 {
        assert(j != i);
        assert(spec_has_include_to(lines, i + 1, repo_base, path, t));
        lemma_route_hit_fails(
            store,
            repo_base,
            path,
            lines,
            i + 1,
            active,
            cfg,
            seen,
            route,
            back_to,
            t,
        );
    } else {
        match spec_include_line(l) {
            IncludeParse::Malformed => {},
            IncludeParse::Include(inc) => {
                if active is Some {
                } else {
                    let resolved = spec_resolve_include(repo_base, path, inc);
                    if store.contains_key(resolved) && spec_path_within(resolved, repo_base)
                        && !seen.contains(resolved) {
                        lemma_seen_bound(store, seen, resolved);
                        if route.len() > 0 && resolved == route[0] {
                            // descend into the route's first file: the rest
                            // of the route leads back into the grown chain
                            let seen2 = seen.push(resolved);
                            let route2 = route.drop_first();
                            let t2 = if route.len() == 1 {
                                back_to
                            } else {
                                route[1]
                            };
                            assert(seen2.contains(back_to)) by {
                                let k = choose|k: int|
                                    0 <= k < seen.len() && seen[k] == back_to;
                                assert(seen2[k] == back_to);
                            }
                            assert forall|k: int| 0 <= k < route2.len() implies store.contains_key(
                                #[trigger] route2[k],
                            ) by {
                                assert(route2[k] == route[k + 1]);
                            }
                            assert forall|k: int| 0 <= k < route2.len() - 1 implies
                                spec_has_include_to(
                                spec_lines(store[#[trigger] route2[k]]),
                                0,
                                repo_base,
                                route2[k],
                                route2[k + 1],
                            ) by {
                                assert(route2[k] == route[k + 1]);
                                assert(route2[k + 1] == route[k + 2]);
                            }
                            if route2.len() > 0 {
                                assert(route2.last() == route.last());
                                assert(route2[0] == route[1]);
                            }
                            assert(spec_has_include_to(
                                spec_lines(store[resolved]),
                                0,
                                repo_base,
                                resolved,
                                t2,
                            )) by {
                                if route.len() == 1 {
                                    assert(route.last() == route[0]);
                                } else {
                                    assert(spec_has_include_to(
                                        spec_lines(store[route[0]]),
                                        0,
                                        repo_base,
                                        route[0],
                                        route[1],
                                    ));
                                }
                            }
                            lemma_route_hit_fails(
                                store,
                                repo_base,
                                resolved,
                                spec_lines(store[resolved]),
                                0,
                                None,
                                cfg,
                                seen2,
                                route2,
                                back_to,
                                t2,
                            );
                        } else {
                            assert(j != i);
                            match spec_parse_lines(
                                store,
                                repo_base,
                                resolved,
                                spec_lines(store[resolved]),
                                0,
                                None,
                                cfg,
                                seen.push(resolved),
                            ) {
                                Ok(cfg2) => {
                                    assert(spec_has_include_to(lines, i + 1, repo_base, path, t));
                                    lemma_route_hit_fails(
                                        store,
                                        repo_base,
                                        path,
                                        lines,
                                        i + 1,
                                        active,
                                        cfg2,
                                        seen,
                                        route,
                                        back_to,
                                        t,
                                    );
                                },
                                Err(e) => {},
                            }
                        }
                    }
                }
            },
            IncludeParse::NotInclude => {
                assert(j != i);
                assert(spec_has_include_to(lines, i + 1, repo_base, path, t));
                let cfg1 = spec_touch(cfg, active);
                match spec_parse_set_line(l) {
                    SetLineParse::Malformed => {},
                    SetLineParse::Directive { variable, value } => {
                        if variable == inherit_chars() && (value == true_chars() || value
                            == false_chars()) && seen.len() == 1 {
                            lemma_route_hit_fails(
                                store,
                                repo_base,
                                path,
                                lines,
                                i + 1,
                                active,
                                spec_set_inherit(cfg1, active, value == true_chars()),
                                seen,
                                route,
                                back_to,
                                t,
                            );
                        }
                    },
                    SetLineParse::NotSet => {
                        match spec_pattern_header(l) {
                            Some(pat) => {
                                lemma_route_hit_fails(
                                    store,
                                    repo_base,
                                    path,
                                    lines,
                                    i + 1,
                                    Some(pat),
                                    cfg1,
                                    seen,
                                    route,
                                    back_to,
                                    t,
                                );
                            },
                            None => {
                                if spec_skip_nonws(l, 0) == l.len() {
                                    lemma_route_hit_fails(
                                        store,
                                        repo_base,
                                        path,
                                        lines,
                                        i + 1,
                                        active,
                                        spec_add_owner(cfg1, active, l),
                                        seen,
                                        route,
                                        back_to,
                                        t,
                                    );
                                }
                            },
                        }
                    },
                }
            },
        }
    }
}

/// A file whose text includes a path resolving to the file itself can never
/// parse successfully, whatever else the text or the store holds.
pub proof fn lemma_self_include_fails(
    store: Map<Seq<char>, Seq<char>>,
    repo_base: Seq<char>,
    path: Seq<char>,
    text: Seq<char>,
)
    requires
        store.dom().finite(),
        spec_has_include_to(spec_lines(text), 0, repo_base, path, path),
    ensures
        spec_from_text(store, repo_base, path, text) is Err,
{
    let seen = seq![path];
    assert(seen[0] == path);
    assert(seen.contains(path));
    lemma_route_hit_fails(
        store,
        repo_base,
        path,
        spec_lines(text),
        0,
        None,
        empty_config_v(),
        seen,
        Seq::empty(),
        path,
        path,
    );
}

/// Any include cycle is rejected, whatever its length: when each file of a
/// route includes the next and the last includes the first file back,
/// parsing the first file's text can never succeed, whatever else the texts
/// or the store hold.
pub proof fn lemma_include_cycle_fails(
    store: Map<Seq<char>, Seq<char>>,
    repo_base: Seq<char>,
    x_path: Seq<char>,
    x_text: Seq<char>,
    route: Seq<Seq<char>>,
)
    requires
        store.dom().finite(),
        route.len() > 0,
        spec_has_include_to(spec_lines(x_text), 0, repo_base, x_path, route[0]),
        spec_include_route(store, repo_base, route, x_path),
    ensures
        spec_from_text(store, repo_base, x_path, x_text) is Err,
{
    let seen = seq![x_path];
    assert(seen[0] == x_path);
    assert(seen.contains(x_path));
    lemma_route_hit_fails(
        store,
        repo_base,
        x_path,
        spec_lines(x_text),
        0,
        None,
        empty_config_v(),
        seen,
        route,
        x_path,
        route[0],
    );
}

/// Two files including each other can never parse successfully: parsing the
/// first fails, whatever else their texts or the store hold.
pub proof fn lemma_mutual_include_fails(
    store: Map<Seq<char>, Seq<char>>,
    repo_base: Seq<char>,
    x_path: Seq<char>,
    x_text: Seq<char>,
    y: Seq<char>,
)
    requires
        store.dom().finite(),
        store.contains_key(y),
        spec_has_include_to(spec_lines(x_text), 0, repo_base, x_path, y),
        spec_has_include_to(spec_lines(store[y]), 0, repo_base, y, x_path),
    ensures
        spec_from_text(store, repo_base, x_path, x_text) is Err,
{
    let route = seq![y];
    assert(route[0] == y);
    assert(route.last() == y);
    lemma_include_cycle_fails(store, repo_base, x_path, x_text, route);
}

/// The whole parse of one file's text, from a fresh accumulator and a chain
/// holding only the file itself.
pub open spec fn spec_from_text(
    store: Map<Seq<char>, Seq<char>>,
    repo_base: Seq<char>,
    path: Seq<char>,
    text: Seq<char>,
) -> Result<OwnersFileConfigV, OwnersErrorV> {
    spec_parse_lines(store, repo_base, path, spec_lines(text), 0, None, empty_config_v(), seq![path])
}

} // verus!
