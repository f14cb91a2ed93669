//! Character classes and string helpers shared by the declaration grammar,
//! the path logic and the serializer.
use itertools::Itertools;
use vstd::prelude::*;

verus! {

/// The parts concatenated in order, with `sep` between adjacent parts.
pub open spec fn spec_join_sep(parts: Seq<Seq<char>>, sep: Seq<char>) -> Seq<char>
    decreases parts.len(),
{
    if parts.len() == 0 {
        Seq::empty()
    } else if parts.len() == 1 {
        parts[0]
    } else {
        parts[0] + sep + spec_join_sep(parts.drop_first(), sep)
    }
}

/// Relies on itertools' `Itertools::join`: the items written in order with
/// `sep` between adjacent items.
#[verifier::external_body]
pub fn join_strings(items: &Vec<String>, sep: &str) -> (r: String)
    ensures
        r@ == spec_join_sep(items@.map_values(|s: String| s@), sep@),
{
    items.iter().join(sep)
}

/// Strict lexicographic order on character sequences, by code point.
pub open spec fn lex_lt(a: Seq<char>, b: Seq<char>) -> bool
    decreases a.len(),
{
    if b.len() == 0 {
        false
    } else if a.len() == 0 {
        true
    } else if a[0] == b[0] {
        lex_lt(a.drop_first(), b.drop_first())
    } else {
        (a[0] as u32) < (b[0] as u32)
    }
}

pub open spec fn lex_leq(a: Seq<char>, b: Seq<char>) -> bool {
    a == b || lex_lt(a, b)
}

/// Nondecreasing in lexicographic order.
pub open spec fn sorted_lex(s: Seq<Seq<char>>) -> bool {
    forall|i: int, j: int| 0 <= i < j < s.len() ==> lex_leq(#[trigger] s[i], #[trigger] s[j])
}

/// Strictly increasing in lexicographic order.
pub open spec fn strictly_sorted_lex(s: Seq<Seq<char>>) -> bool {
    forall|i: int, j: int| 0 <= i < j < s.len() ==> lex_lt(#[trigger] s[i], #[trigger] s[j])
}

/// The order is asymmetric (hence irreflexive).
pub proof fn lemma_lex_asym(a: Seq<char>, b: Seq<char>)
    ensures
        !(lex_lt(a, b) && lex_lt(b, a)),
    decreases a.len(),
{
    if a.len() > 0 && b.len() > 0 && a[0] == b[0] {
        lemma_lex_asym(a.drop_first(), b.drop_first());
    }
}

/// A finite set of sequences has exactly one strictly sorted enumeration.
pub proof fn lemma_sorted_distinct_unique(s1: Seq<Seq<char>>, s2: Seq<Seq<char>>)
    requires
        strictly_sorted_lex(s1),
        strictly_sorted_lex(s2),
        s1.to_set() == s2.to_set(),
    ensures
        s1 == s2,
    decreases s1.len(),
{
    if s1.len() == 0 {
        if s2.len() > 0 {
            assert(s2.contains(s2[0]));
            assert(s1.to_set().contains(s2[0]));
            let i = choose|i: int| 0 <= i < s1.len() && s1[i] == s2[0];
            assert(false);
        }
        assert(s1 =~= s2);
    } else if s2.len() == 0 {
        assert(s1.contains(s1[0]));
        assert(s2.to_set().contains(s1[0]));
        let i = choose|i: int| 0 <= i < s2.len() && s2[i] == s1[0];
        assert(false);
    } else {
        // the heads are both the minimum of the common set
        assert(s1.contains(s1[0]));
        assert(s2.to_set().contains(s1[0]));
        let j = choose|j: int| 0 <= j < s2.len() && s2[j] == s1[0];
        assert(s2.contains(s2[0]));
        assert(s1.to_set().contains(s2[0]));
        let i = choose|i: int| 0 <= i < s1.len() && s1[i] == s2[0];
        if j > 0 {
            assert(lex_lt(s2[0], s2[j]));
            if i > 0 {
                assert(lex_lt(s1[0], s1[i]));
                lemma_lex_asym(s1[0], s2[0]);
                assert(false);
            }
            lemma_lex_asym(s1[0], s2[0]);
            assert(false);
        }
        assert(s1[0] == s2[0]);
        let t1 = s1.drop_first();
        let t2 = s2.drop_first();
        assert forall|x: Seq<char>| t1.to_set().contains(x) implies t2.to_set().contains(x) by {
            let k = choose|k: int| 0 <= k < t1.len() && t1[k] == x;
            assert(s1[k + 1] == x);
            assert(lex_lt(s1[0], x));
            lemma_lex_asym(s1[0], x);
            assert(s1.to_set().contains(x));
            let k2 = choose|k2: int| 0 <= k2 < s2.len() && s2[k2] == x;
            assert(k2 != 0);
            assert(t2[k2 - 1] == x);
            assert(t2.contains(x));
        }
        assert forall|x: Seq<char>| t2.to_set().contains(x) implies t1.to_set().contains(x) by {
            let k = choose|k: int| 0 <= k < t2.len() && t2[k] == x;
            assert(s2[k + 1] == x);
            assert(lex_lt(s2[0], x));
            lemma_lex_asym(s2[0], x);
            assert(s2.to_set().contains(x));
            let k2 = choose|k2: int| 0 <= k2 < s1.len() && s1[k2] == x;
            assert(k2 != 0);
            assert(t1[k2 - 1] == x);
            assert(t1.contains(x));
        }
        assert(t1.to_set() =~= t2.to_set());
        assert forall|p: int, q: int| 0 <= p < q < t1.len() implies lex_lt(
            #[trigger] t1[p],
            #[trigger] t1[q],
        ) by {
            assert(s1[p + 1] == t1[p]);
            assert(s1[q + 1] == t1[q]);
        }
        assert forall|p: int, q: int| 0 <= p < q < t2.len() implies lex_lt(
            #[trigger] t2[p],
            #[trigger] t2[q],
        ) by {
            assert(s2[p + 1] == t2[p]);
            assert(s2[q + 1] == t2[q]);
        }
        lemma_sorted_distinct_unique(t1, t2);
        assert(s1.len() == s2.len());
        assert forall|k: int| 0 <= k < s1.len() implies s1[k] == s2[k] by {
            if k > 0 {
                assert(t1[k - 1] == s1[k]);
                assert(t2[k - 1] == s2[k]);
            }
        }
        assert(s1 =~= s2);
    }
}

/// Relies on itertools' `Itertools::sorted` on strings: the same strings
/// back, arranged nondecreasingly. Rust compares strings byte by byte, which
/// on UTF-8 text is exactly the code-point order `lex_leq` states.
#[verifier::external_body]
pub fn sorted_strings(items: Vec<String>) -> (r: Vec<String>)
    ensures
        r@.map_values(|s: String| s@).to_multiset() == items@.map_values(
            |s: String| s@,
        ).to_multiset(),
        sorted_lex(r@.map_values(|s: String| s@)),
{
    items.into_iter().sorted().collect()
}

/// What the sorting wrapper yields on a duplicate-free input: the same
/// strings exactly once each, strictly ordered.
pub proof fn lemma_sorted_output(input: Seq<Seq<char>>, out: Seq<Seq<char>>)
    requires
        input.no_duplicates(),
        out.to_multiset() == input.to_multiset(),
        sorted_lex(out),
    ensures
        strictly_sorted_lex(out),
        out.to_set() == input.to_set(),
        out.len() == input.len(),
        out.no_duplicates(),
{
    broadcast use vstd::seq_lib::group_to_multiset_ensures;

    input.lemma_multiset_has_no_duplicates();
    out.lemma_multiset_has_no_duplicates_conv();
    assert(out.len() == out.to_multiset().len());
    assert(input.len() == input.to_multiset().len());
    assert forall|x: Seq<char>| out.to_set().contains(x) implies input.to_set().contains(x) by {
        assert(out.contains(x));
        assert(out.to_multiset().count(x) > 0);
        assert(input.to_multiset().count(x) > 0);
        assert(input.contains(x));
    }
    assert forall|x: Seq<char>| input.to_set().contains(x) implies out.to_set().contains(x) by {
        assert(input.contains(x));
        assert(input.to_multiset().count(x) > 0);
        assert(out.to_multiset().count(x) > 0);
        assert(out.contains(x));
    }
    assert(out.to_set() =~= input.to_set());
    assert forall|i: int, j: int| 0 <= i < j < out.len() implies lex_lt(
        #[trigger] out[i],
        #[trigger] out[j],
    ) by {
        assert(lex_leq(out[i], out[j]));
        assert(out[i] != out[j]);
    }
}

/// Whether `base` is a character-for-character prefix of `p`.
pub fn is_char_prefix(p: &str, base: &str) -> (r: bool)
    ensures
        r == (p@.len() >= base@.len() && p@.subrange(0, base@.len() as int) == base@),
{
    let n = p.unicode_len();
    let m = base.unicode_len();
    if n < m {
        return false;
    }
    for i in 0..m
        invariant
            m <= n,
            n == p@.len() && m == base@.len(),
            forall|j: int| 0 <= j < i ==> p@[j] == base@[j],
    {
        if p.get_char(i) != base.get_char(i) {
            proof {
                assert(p@.subrange(0, m as int)[i as int] != base@[i as int]);
            }
            return false;
        }
    }
    proof {
        assert(p@.subrange(0, m as int) =~= base@);
    }
    true
}

/// The whitespace characters the declaration grammar recognizes: the
/// Unicode white-space code points, the set `char::is_whitespace` accepts.
pub open spec fn is_space_char(c: char) -> bool {
    let u = c as u32;
    (0x09 <= u && u <= 0x0D) || u == 0x20 || u == 0x85 || u == 0xA0 || u == 0x1680 || (0x2000 <= u
        && u <= 0x200A) || u == 0x2028 || u == 0x2029 || u == 0x202F || u == 0x205F || u == 0x3000
}

/// Word characters, as accepted in `set <variable> = <value>` tokens. The
/// class is deliberately ASCII: the two word tokens the grammar ever accepts
/// (`inherit`, `true`, `false`) are ASCII, and a directive written with
/// other characters is rejected either way.
pub open spec fn is_word_char(c: char) -> bool {
    ('a' as u32 <= c as u32 && c as u32 <= 'z' as u32) || ('A' as u32 <= c as u32 && c as u32
        <= 'Z' as u32) || ('0' as u32 <= c as u32 && c as u32 <= '9' as u32) || c == '_'
}

pub fn space_char(c: char) -> (r: bool)
    ensures
        r == is_space_char(c),
{
    let u = c as u32;
    (0x09 <= u && u <= 0x0D) || u == 0x20 || u == 0x85 || u == 0xA0 || u == 0x1680 || (0x2000 <= u
        && u <= 0x200A) || u == 0x2028 || u == 0x2029 || u == 0x202F || u == 0x205F || u == 0x3000
}

pub fn word_char(c: char) -> (r: bool)
    ensures
        r == is_word_char(c),
{
    let u = c as u32;
    ('a' as u32 <= u && u <= 'z' as u32) || ('A' as u32 <= u && u <= 'Z' as u32) || ('0' as u32 <= u
        && u <= '9' as u32) || c == '_'
}

/// String equality, decided character by character.
pub fn str_eq(a: &str, b: &str) -> (r: bool)
    ensures
        r == (a@ == b@),
{
    let n = a.unicode_len();
    let m = b.unicode_len();
    if n != m {
        return false;
    }
    for i in 0..n
        invariant
            n == a@.len() && n == b@.len(),
            forall|j: int| 0 <= j < i ==> a@[j] == b@[j],
    {
        if a.get_char(i) != b.get_char(i) {
            return false;
        }
    }
    proof {
        assert(a@ =~= b@);
    }
    true
}

/// First index at or after `i` that does not hold a whitespace character.
pub open spec fn spec_skip_ws(l: Seq<char>, i: int) -> int
    decreases l.len() - i,
    when 0 <= i <= l.len()
{
    if i == l.len() || !is_space_char(l[i]) {
        i
    } else {
        spec_skip_ws(l, i + 1)
    }
}

pub proof fn lemma_skip_ws(l: Seq<char>, i: int)
    requires
        0 <= i <= l.len(),
    ensures
        i <= spec_skip_ws(l, i) <= l.len(),
        forall|j: int| i <= j < spec_skip_ws(l, i) ==> is_space_char(l[j]),
        spec_skip_ws(l, i) == l.len() || !is_space_char(l[spec_skip_ws(l, i)]),
    decreases l.len() - i,
{
    if !(i == l.len() || !is_space_char(l[i])) {
        lemma_skip_ws(l, i + 1);
    }
}

/// First index at or after `i` that does not hold a word character.
pub open spec fn spec_skip_word(l: Seq<char>, i: int) -> int
    decreases l.len() - i,
    when 0 <= i <= l.len()
{
    if i == l.len() || !is_word_char(l[i]) {
        i
    } else {
        spec_skip_word(l, i + 1)
    }
}

pub proof fn lemma_skip_word(l: Seq<char>, i: int)
    requires
        0 <= i <= l.len(),
    ensures
        i <= spec_skip_word(l, i) <= l.len(),
        forall|j: int| i <= j < spec_skip_word(l, i) ==> is_word_char(l[j]),
        spec_skip_word(l, i) == l.len() || !is_word_char(l[spec_skip_word(l, i)]),
    decreases l.len() - i,
{
    if !(i == l.len() || !is_word_char(l[i])) {
        lemma_skip_word(l, i + 1);
    }
}

pub fn skip_ws(s: &str, i: usize) -> (r: usize)
    requires
        i <= s@.len(),
    ensures
        r == spec_skip_ws(s@, i as int),
{
    let n = s.unicode_len();
    let mut j = i;
    while j < n && space_char(s.get_char(j))
        invariant
            i <= j <= n,
            spec_skip_ws(s@, i as int) == spec_skip_ws(s@, j as int),
        decreases n - j,
    {
        j = j + 1;
    }
    j
}

pub fn skip_word(s: &str, i: usize) -> (r: usize)
    requires
        i <= s@.len(),
    ensures
        r == spec_skip_word(s@, i as int),
{
    let n = s.unicode_len();
    let mut j = i;
    while j < n && word_char(s.get_char(j))
        invariant
            i <= j <= n,
            spec_skip_word(s@, i as int) == spec_skip_word(s@, j as int),
        decreases n - j,
    {
        j = j + 1;
    }
    j
}

/// First index at or after `i` that does not hold a non-whitespace character.
pub open spec fn spec_skip_nonws(l: Seq<char>, i: int) -> int
    decreases l.len() - i,
    when 0 <= i <= l.len()
{
    if i == l.len() || is_space_char(l[i]) {
        i
    } else {
        spec_skip_nonws(l, i + 1)
    }
}

pub proof fn lemma_skip_nonws(l: Seq<char>, i: int)
    requires
        0 <= i <= l.len(),
    ensures
        i <= spec_skip_nonws(l, i) <= l.len(),
        forall|j: int| i <= j < spec_skip_nonws(l, i) ==> !is_space_char(l[j]),
        spec_skip_nonws(l, i) == l.len() || is_space_char(l[spec_skip_nonws(l, i)]),
    decreases l.len() - i,
{
    if !(i == l.len() || is_space_char(l[i])) {
        lemma_skip_nonws(l, i + 1);
    }
}

pub fn skip_nonws(s: &str, i: usize) -> (r: usize)
    requires
        i <= s@.len(),
    ensures
        r == spec_skip_nonws(s@, i as int),
{
    let n = s.unicode_len();
    let mut j = i;
    while j < n && !space_char(s.get_char(j))
        invariant
            i <= j <= n,
            spec_skip_nonws(s@, i as int) == spec_skip_nonws(s@, j as int),
        decreases n - j,
    {
        j = j + 1;
    }
    j
}

/// Index just past the last non-whitespace character strictly before `i`;
/// scanning leftwards, whitespace is dropped.
pub open spec fn spec_rskip_ws(l: Seq<char>, i: int) -> int
    decreases i,
    when 0 <= i <= l.len()
{
    if i == 0 || !is_space_char(l[i - 1]) {
        i
    } else {
        spec_rskip_ws(l, i - 1)
    }
}

pub proof fn lemma_rskip_ws(l: Seq<char>, i: int)
    requires
        0 <= i <= l.len(),
    ensures
        0 <= spec_rskip_ws(l, i) <= i,
        forall|j: int| spec_rskip_ws(l, i) <= j < i ==> is_space_char(l[j]),
        spec_rskip_ws(l, i) == 0 || !is_space_char(l[spec_rskip_ws(l, i) - 1]),
    decreases i,
{
    if !(i == 0 || !is_space_char(l[i - 1])) {
        lemma_rskip_ws(l, i - 1);
    }
}

pub fn rskip_ws(s: &str, i: usize) -> (r: usize)
    requires
        i <= s@.len(),
    ensures
        r == spec_rskip_ws(s@, i as int),
{
    let mut j = i;
    while j > 0 && space_char(s.get_char(j - 1))
        invariant
            j <= i <= s@.len(),
            spec_rskip_ws(s@, i as int) == spec_rskip_ws(s@, j as int),
        decreases j,
    {
        j = j - 1;
    }
    j
}

/// First index at or after `i` holding the character `c`, or the length.
pub open spec fn spec_find_char(l: Seq<char>, i: int, c: char) -> int
    decreases l.len() - i,
    when 0 <= i <= l.len()
{
    if i == l.len() || l[i] == c {
        i
    } else {
        spec_find_char(l, i + 1, c)
    }
}

pub proof fn lemma_find_char(l: Seq<char>, i: int, c: char)
    requires
        0 <= i <= l.len(),
    ensures
        i <= spec_find_char(l, i, c) <= l.len(),
        forall|j: int| i <= j < spec_find_char(l, i, c) ==> l[j] != c,
        spec_find_char(l, i, c) == l.len() || l[spec_find_char(l, i, c)] == c,
    decreases l.len() - i,
{
    if !(i == l.len() || l[i] == c) {
        lemma_find_char(l, i + 1, c);
    }
}

pub fn find_char(s: &str, i: usize, c: char) -> (r: usize)
    requires
        i <= s@.len(),
    ensures
        r == spec_find_char(s@, i as int, c),
{
    let n = s.unicode_len();
    let mut j = i;
    while j < n && s.get_char(j) != c
        invariant
            i <= j <= n,
            spec_find_char(s@, i as int, c) == spec_find_char(s@, j as int, c),
        decreases n - j,
    {
        j = j + 1;
    }
    j
}

/// The sequence with surrounding whitespace removed.
pub open spec fn spec_trim(l: Seq<char>) -> Seq<char> {
    let a = spec_skip_ws(l, 0);
    if a == l.len() {
        Seq::empty()
    } else {
        l.subrange(a, spec_rskip_ws(l, l.len() as int))
    }
}

pub proof fn lemma_trim(l: Seq<char>)
    ensures
        spec_trim(l).len() <= l.len(),
        spec_skip_ws(l, 0) < l.len() ==> spec_skip_ws(l, 0) < spec_rskip_ws(
            l,
            l.len() as int,
        ),
{
    lemma_skip_ws(l, 0);
    lemma_rskip_ws(l, l.len() as int);
    let a = spec_skip_ws(l, 0);
    let b = spec_rskip_ws(l, l.len() as int);
    if a < l.len() && b <= a {
        assert(is_space_char(l[a]));
        assert(false);
    }
}

/// `spec_trim` of a trimmed string: slicing between the scan bounds.
pub fn trim(s: &str) -> (r: &str)
    ensures
        r@ == spec_trim(s@),
{
    let n = s.unicode_len();
    proof {
        lemma_trim(s@);
    }
    let a = skip_ws(s, 0);
    if a == n {
        let r = s.substring_char(0, 0);
        proof {
            assert(r@ =~= spec_trim(s@));
        }
        r
    } else {
        proof {
            lemma_skip_ws(s@, 0);
            lemma_rskip_ws(s@, s@.len() as int);
        }
        let b = rskip_ws(s, n);
        s.substring_char(a, b)
    }
}

/// Whether the sequence `s` contains the character `c`.
pub open spec fn seq_contains_char(s: Seq<char>, c: char) -> bool {
    exists|i: int| 0 <= i < s.len() && s[i] == c
}

pub fn str_contains_char(s: &str, c: char) -> (r: bool)
    ensures
        r == seq_contains_char(s@, c),
{
    let n = s.unicode_len();
    for i in 0..n
        invariant
            n == s@.len(),
            forall|j: int| 0 <= j < i ==> s@[j] != c,
    {
        if s.get_char(i) == c {
            return true;
        }
    }
    false
}

} // verus!
