//! The smallest unit of the model: an inheritance flag plus a set of owner
//! names, with the interpreter for `set <variable> = <value>` directive lines.
use crate::errors::{OwnersError, OwnersErrorV};
use crate::strutil::{
    lemma_skip_word, lemma_skip_ws, skip_word, skip_ws, spec_skip_word, spec_skip_ws, str_eq,
};
use vstd::prelude::*;

verus! {

/// Outcome of matching one line against `set <variable> = <value>`.
pub enum SetLineParse {
    /// The line does not begin with the token `set ` and is no directive.
    NotSet,
    /// The line begins with `set ` but does not match the directive grammar.
    Malformed,
    /// A well-formed directive with its variable and value tokens.
    Directive { variable: Seq<char>, value: Seq<char> },
}

pub open spec fn inherit_chars() -> Seq<char> {
    seq!['i', 'n', 'h', 'e', 'r', 'i', 't']
}

pub open spec fn true_chars() -> Seq<char> {
    seq!['t', 'r', 'u', 'e']
}

pub open spec fn false_chars() -> Seq<char> {
    seq!['f', 'a', 'l', 's', 'e']
}

/// The directive grammar: the literal `set`, one whitespace character, a word,
/// optionally spaced `=`, a word, and nothing else. A line that does not even
/// start with `set ` is not a directive at all.
pub open spec fn spec_parse_set_line(l: Seq<char>) -> SetLineParse {
    if !(l.len() >= 4 && l[0] == 's' && l[1] == 'e' && l[2] == 't' && l[3] == ' ') {
        SetLineParse::NotSet
    } else {
        let var_end = spec_skip_word(l, 4);
        let eq_at = spec_skip_ws(l, var_end);
        if var_end == 4 || eq_at == l.len() || l[eq_at] != '=' {
            SetLineParse::Malformed
        } else {
            let val_start = spec_skip_ws(l, eq_at + 1);
            let val_end = spec_skip_word(l, val_start);
            if val_end == val_start || spec_skip_ws(l, val_end) != l.len() {
                SetLineParse::Malformed
            } else {
                SetLineParse::Directive {
                    variable: l.subrange(4, var_end),
                    value: l.subrange(val_start, val_end),
                }
            }
        }
    }
}

/// Abstract value of an [`OwnersSet`]: the tri-state inheritance flag and the
/// owner names as a mathematical set of character sequences.
#[verifier::ext_equal]
pub struct OwnersSetV {
    pub inherit: Option<bool>,
    pub owners: Set<Seq<char>>,
}

/// The owner names declared by a sequence of owner strings, as a set.
pub open spec fn owner_names(s: Seq<String>) -> Set<Seq<char>> {
    s.map_values(|o: String| o@).to_set()
}

/// No two strings of the sequence read the same.
pub open spec fn distinct_views(s: Seq<String>) -> bool {
    forall|i: int, j: int| 0 <= i < j < s.len() ==> s[i]@ != s[j]@
}

pub proof fn lemma_owner_names_contains(s: Seq<String>, x: Seq<char>)
    ensures
        owner_names(s).contains(x) <==> exists|i: int| 0 <= i < s.len() && s[i]@ == x,
{
    let views = s.map_values(|o: String| o@);
    if owner_names(s).contains(x) {
        let i = choose|i: int| 0 <= i < views.len() && views[i] == x;
        assert(s[i]@ == x);
    }
    if exists|i: int| 0 <= i < s.len() && s[i]@ == x {
        let i = choose|i: int| 0 <= i < s.len() && s[i]@ == x;
        assert(views[i] == x);
        assert(views.contains(x));
    }
}

pub proof fn lemma_owner_names_push(s: Seq<String>, x: String)
    ensures
        owner_names(s.push(x)) == owner_names(s).insert(x@),
        distinct_views(s) && !owner_names(s).contains(x@) ==> distinct_views(s.push(x)),
{
    let views = s.map_values(|o: String| o@);
    let pushed = s.push(x).map_values(|o: String| o@);
    assert(pushed =~= views.push(x@));
    assert forall|y: Seq<char>| #[trigger] pushed.to_set().contains(y) implies views.to_set().contains(
        y,
    ) || y == x@ by {
        let i = choose|i: int| 0 <= i < pushed.len() && pushed[i] == y;
        if i < views.len() {
            assert(views.contains(y));
        }
    }
    assert forall|y: Seq<char>| views.to_set().contains(y) || y == x@ implies
        #[trigger] pushed.to_set().contains(y) by {
        if views.to_set().contains(y) {
            let i = choose|i: int| 0 <= i < views.len() && views[i] == y;
            assert(pushed[i] == y);
            assert(pushed.contains(y));
        } else {
            assert(pushed[views.len() as int] == y);
            assert(pushed.contains(y));
        }
    }
    assert(pushed.to_set() =~= views.to_set().insert(x@));
    if distinct_views(s) && !owner_names(s).contains(x@) {
        lemma_owner_names_contains(s, x@);
        assert forall|i: int, j: int| 0 <= i < j < s.push(x).len() implies s.push(x)[i]@ != s.push(
            x,
        )[j]@ by {
            if j < s.len() {
            } else {
                assert(s.push(x)[j] == x);
            }
        }
    }
}

/// Whether `name` reads like one of the strings in `v`.
pub fn vec_contains_str(v: &Vec<String>, name: &str) -> (r: bool)
    ensures
        r == owner_names(v@).contains(name@),
{
    proof {
        lemma_owner_names_contains(v@, name@);
    }
    let n = v.len();
    for i in 0..n
        invariant
            n == v@.len(),
            forall|j: int| 0 <= j < i ==> v@[j]@ != name@,
    {
        if str_eq(v[i].as_str(), name) {
            return true;
        }
    }
    false
}

/// An inheritance flag plus a collection of owner identifiers.
///
/// `inherit` is `None` when the declaration leaves inheritance to the global
/// default, `Some(b)` when a `set inherit = ...` directive fixed it.
/// Owner names are kept in first-insertion order, without duplicates.
#[derive(Debug)]
pub struct OwnersSet {
    pub inherit: Option<bool>,
    pub owners: Vec<String>,
}

/// Equality of the tri-state inheritance flags.
pub fn opt_bool_eq(a: &Option<bool>, b: &Option<bool>) -> (r: bool)
    ensures
        r == (a == b),
{
    match (a, b) {
        (None, None) => true,
        (Some(x), Some(y)) => *x == *y,
        _ => false,
    }
}

/// Whether two owner lists name the same owners.
pub fn same_owner_names(a: &Vec<String>, b: &Vec<String>) -> (r: bool)
    ensures
        r == (owner_names(a@) == owner_names(b@)),
{
    let n = a.len();
    for i in 0..n
        invariant
            n == a@.len(),
            forall|j: int| 0 <= j < i ==> owner_names(b@).contains(#[trigger] a@[j]@),
    {
        proof {
            lemma_owner_names_contains(a@, a@[i as int]@);
        }
        if !vec_contains_str(b, a[i].as_str()) {
            proof {
                assert(owner_names(a@).contains(a@[i as int]@));
            }
            return false;
        }
    }
    let m = b.len();
    for i in 0..m
        invariant
            m == b@.len(),
            forall|j: int| 0 <= j < a@.len() ==> owner_names(b@).contains(#[trigger] a@[j]@),
            forall|j: int| 0 <= j < i ==> owner_names(a@).contains(#[trigger] b@[j]@),
    {
        proof {
            lemma_owner_names_contains(b@, b@[i as int]@);
        }
        if !vec_contains_str(a, b[i].as_str()) {
            proof {
                assert(owner_names(b@).contains(b@[i as int]@));
            }
            return false;
        }
    }
    proof {
        assert forall|x: Seq<char>| owner_names(a@).contains(x) implies owner_names(b@).contains(
            x,
        ) by {
            lemma_owner_names_contains(a@, x);
            let j = choose|j: int| 0 <= j < a@.len() && a@[j]@ == x;
        }
        assert forall|x: Seq<char>| owner_names(b@).contains(x) implies owner_names(a@).contains(
            x,
        ) by {
            lemma_owner_names_contains(b@, x);
            let j = choose|j: int| 0 <= j < b@.len() && b@[j]@ == x;
        }
        assert(owner_names(a@) =~= owner_names(b@));
    }
    true
}

impl PartialEq for OwnersSet {
    /// Two owner sets are equal when their flags agree and they name the
    /// same owners, in whatever order.
    fn eq(&self, other: &OwnersSet) -> (r: bool) {
        opt_bool_eq(&self.inherit, &other.inherit) && same_owner_names(&self.owners, &other.owners)
    }
}

impl vstd::std_specs::cmp::PartialEqSpecImpl for OwnersSet {
    open spec fn obeys_eq_spec() -> bool {
        true
    }

    open spec fn eq_spec(&self, other: &OwnersSet) -> bool {
        self@ == other@
    }
}

impl Eq for OwnersSet {

}

impl Default for OwnersSet {
    fn default() -> (r: OwnersSet)
        ensures
            r.inherit is None,
            r@.owners =~= Set::<Seq<char>>::empty(),
            r.owners@.len() == 0,
            r.wf(),
    {
        OwnersSet::new()
    }
}

impl View for OwnersSet {
    type V = OwnersSetV;

    open spec fn view(&self) -> OwnersSetV {
        OwnersSetV { inherit: self.inherit, owners: owner_names(self.owners@) }
    }
}

impl OwnersSet {
    /// The owner list holds no duplicate names.
    pub open spec fn wf(&self) -> bool {
        forall|i: int, j: int|
            0 <= i < j < self.owners@.len() ==> self.owners@[i]@ != self.owners@[j]@
    }

    pub fn new() -> (r: OwnersSet)
        ensures
            r.inherit is None,
            r@.owners =~= Set::<Seq<char>>::empty(),
            r.owners@.len() == 0,
            r.wf(),
    {
        let r = OwnersSet { inherit: None, owners: Vec::new() };
        proof {
            assert(r.owners@.map_values(|o: String| o@) =~= Seq::<Seq<char>>::empty());
        }
        r
    }

    /// Whether `name` is among the declared owners.
    pub fn contains_owner(&self, name: &str) -> (r: bool)
        ensures
            r == self@.owners.contains(name@),
    {
        let ghost views = self.owners@.map_values(|o: String| o@);
        let n = self.owners.len();
        for i in 0..n
            invariant
                n == self.owners@.len(),
            forall|j: int| 0 <= j < i ==> self.owners@[j]@ != name@,
        {
            if str_eq(self.owners[i].as_str(), name) {
                proof {
                    assert(views[i as int] == name@);
                }
                return true;
            }
        }
        proof {
            assert(forall|j: int| 0 <= j < views.len() ==> views[j] != name@);
            if self@.owners.contains(name@) {
                let j = choose|j: int| 0 <= j < views.len() && views[j] == name@;
                assert(false);
            }
        }
        false
    }

    /// Evaluates the line for `set <variable> = <value>` directive syntax.
    /// A recognized directive updates this set's inheritance flag; the result
    /// reports whether the line was a directive line.
    pub fn maybe_process_set(&mut self, line: &str) -> (r: Result<bool, OwnersError>)
        ensures
            final(self).owners == old(self).owners,
            match spec_parse_set_line(line@) {
                SetLineParse::NotSet => r == Ok::<bool, OwnersError>(false) && *final(self)
                    == *old(self),
                SetLineParse::Malformed => (r matches Err(e) && e@ == (OwnersErrorV::MalformedSetLine {
                    line: line@,
                })) && *final(self) == *old(self),
                SetLineParse::Directive { variable, value } => {
                    if variable == inherit_chars() {
                        if value == true_chars() {
                            r == Ok::<bool, OwnersError>(true) && final(self).inherit == Some(true)
                        } else if value == false_chars() {
                            r == Ok::<bool, OwnersError>(true) && final(self).inherit == Some(
                                false,
                            )
                        } else {
                            (r matches Err(e) && e@ == (OwnersErrorV::InvalidInheritValue {
                                value,
                            })) && *final(self) == *old(self)
                        }
                    } else {
                        (r matches Err(e) && e@ == (OwnersErrorV::UnknownSetVariable {
                            variable,
                        })) && *final(self) == *old(self)
                    }
                },
            },
    {
        let n = line.unicode_len();
        if !(n >= 4 && line.get_char(0) == 's' && line.get_char(1) == 'e' && line.get_char(2)
            == 't' && line.get_char(3) == ' ') {
            return Ok(false);
        }
        proof {
            lemma_skip_word(line@, 4);
        }
        let var_end = skip_word(line, 4);
        proof {
            lemma_skip_ws(line@, var_end as int);
        }
        let eq_at = skip_ws(line, var_end);
        if var_end == 4 || eq_at == n || line.get_char(eq_at) != '=' {
            return Err(OwnersError::MalformedSetLine { line: line.to_owned() });
        }
        proof {
            lemma_skip_ws(line@, eq_at + 1);
        }
        let val_start = skip_ws(line, eq_at + 1);
        proof {
            lemma_skip_word(line@, val_start as int);
        }
        let val_end = skip_word(line, val_start);
        if val_end == val_start {
            return Err(OwnersError::MalformedSetLine { line: line.to_owned() });
        }
        proof {
            lemma_skip_ws(line@, val_end as int);
        }
        if skip_ws(line, val_end) != n {
            return Err(OwnersError::MalformedSetLine { line: line.to_owned() });
        }
        let variable = line.substring_char(4, var_end);
        let value = line.substring_char(val_start, val_end);
        proof {
            reveal_strlit("inherit");
            reveal_strlit("true");
            reveal_strlit("false");
            assert("inherit"@ =~= inherit_chars());
            assert("true"@ =~= true_chars());
            assert("false"@ =~= false_chars());
        }
        if str_eq(variable, "inherit") {
            if str_eq(value, "true") {
                self.inherit = Some(true);
                Ok(true)
            } else if str_eq(value, "false") {
                self.inherit = Some(false);
                Ok(true)
            } else {
                Err(OwnersError::InvalidInheritValue { value: value.to_owned() })
            }
        } else {
            Err(OwnersError::UnknownSetVariable { variable: variable.to_owned() })
        }
    }

    /// Add an owner name; a name already present is left alone.
    pub fn insert_owner(&mut self, name: String)
        requires
            old(self).wf(),
        ensures
            final(self).wf(),
            final(self).inherit == old(self).inherit,
            final(self)@.owners =~= old(self)@.owners.insert(name@),
    {
        if !self.contains_owner(name.as_str()) {
            let ghost old_views = self.owners@.map_values(|o: String| o@);
            let ghost nv = name@;
            self.owners.push(name);
            proof {
                let views = self.owners@.map_values(|o: String| o@);
                assert(views =~= old_views.push(nv));
                assert forall|j: int| 0 <= j < old_views.len() implies old_views[j] != nv by {
                    assert(old_views.contains(old_views[j]));
                    assert(old_views.to_set().contains(old_views[j]));
                }
                assert forall|x: Seq<char>| #[trigger] views.to_set().contains(x) implies
                    old_views.to_set().contains(x) || x == nv by {
                    let i = choose|i: int| 0 <= i < views.len() && views[i] == x;
                    if i < old_views.len() {
                        assert(old_views.contains(x));
                    }
                }
                assert forall|x: Seq<char>| old_views.to_set().contains(x) || x == nv implies
                    #[trigger] views.to_set().contains(x) by {
                    if old_views.to_set().contains(x) {
                        let i = choose|i: int| 0 <= i < old_views.len() && old_views[i] == x;
                        assert(views[i] == x);
                        assert(views.contains(x));
                    } else {
                        assert(views[old_views.len() as int] == x);
                        assert(views.contains(x));
                    }
                }
                assert(views.to_set() =~= old_views.to_set().insert(nv));
                assert forall|i: int, j: int|
                    0 <= i < j < self.owners@.len() implies self.owners@[i]@
                    != self.owners@[j]@ by {
                    assert(self.owners@[i] == old(self).owners@[i]);
                    assert(old_views[i] == old(self).owners@[i]@);
                    if j < self.owners@.len() - 1 {
                        assert(self.owners@[j] == old(self).owners@[j]);
                        assert(old_views[j] == old(self).owners@[j]@);
                    }
                }
            }
        } else {
            proof {
                assert(self@.owners =~= old(self)@.owners.insert(name@));
            }
        }
    }
}

} // verus!
