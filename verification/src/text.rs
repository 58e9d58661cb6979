//! Character and string utilities shared by the URL, robots and HTML modules.

use vstd::prelude::*;

verus! {

/// ASCII upper-case letters map to lower case; every other character is kept.
pub open spec fn lower_char(c: char) -> char {
    if 'A' <= c && c <= 'Z' {
        (((c as u8) + 32) as char)
    } else {
        c
    }
}

/// Case-fold a whole sequence, character by character.
pub open spec fn lower(s: Seq<char>) -> Seq<char> {
    s.map(|_i: int, c: char| lower_char(c))
}

/// Horizontal whitespace stripped around robots.txt fields and values.
pub open spec fn is_space(c: char) -> bool {
    c == ' ' || c == '\t' || c == '\r'
}

pub open spec fn is_digit(c: char) -> bool {
    '0' <= c && c <= '9'
}

pub open spec fn is_alpha(c: char) -> bool {
    ('a' <= c && c <= 'z') || ('A' <= c && c <= 'Z')
}

/// `p` is a prefix of `s`.
pub open spec fn is_prefix_of(p: Seq<char>, s: Seq<char>) -> bool {
    p.len() <= s.len() && p == s.subrange(0, p.len() as int)
}

/// Index of the last occurrence of `c` in `a`, or -1 when absent.
pub open spec fn last_index_of(a: Seq<char>, c: char) -> int
    decreases a.len(),
{
    if a.len() == 0 {
        -1
    } else if a[a.len() - 1] == c {
        a.len() - 1
    } else {
        last_index_of(a.drop_last(), c)
    }
}

/// Index of the first occurrence of `c` in `a`, or `a.len()` when absent.
pub open spec fn first_index_of(a: Seq<char>, c: char) -> int
    decreases a.len(),
{
    if a.len() == 0 {
        0
    } else if a[0] == c {
        0
    } else {
        1 + first_index_of(a.drop_first(), c)
    }
}

/// When `first_index_of` answers inside the sequence, the character stands
/// there, and nowhere earlier.
pub proof fn lemma_first_index_found(a: Seq<char>, c: char)
    ensures
        first_index_of(a, c) < a.len() ==> a[first_index_of(a, c)] == c,
        forall|k: int| 0 <= k < first_index_of(a, c) && k < a.len() ==> a[k] != c,
        0 <= first_index_of(a, c) <= a.len(),
    decreases a.len(),
{
    if a.len() == 0 {
    } else if a[0] == c {
    } else {
        lemma_first_index_found(a.drop_first(), c);
        assert forall|k: int| 0 <= k < first_index_of(a, c) && k < a.len() implies a[k] != c by {
            if k > 0 {
                assert(a.drop_first()[k - 1] == a[k]);
            }
        }
    }
}

/// `first_index_of` answers exactly the first occurrence of `c`.
pub proof fn lemma_first_index_exact(a: Seq<char>, c: char, f: int)
    requires
        0 <= f <= a.len(),
        forall|k: int| 0 <= k < f ==> a[k] != c,
        f == a.len() || a[f] == c,
    ensures
        first_index_of(a, c) == f,
    decreases a.len(),
{
    if a.len() > 0 && a[0] != c {
        assert forall|k: int| 0 <= k < f - 1 implies a.drop_first()[k] != c by {
            assert(a.drop_first()[k] == a[k + 1]);
        }
        lemma_first_index_exact(a.drop_first(), c, f - 1);
    }
}

/// A sequence without `c` has no last occurrence of it.
pub proof fn lemma_last_index_none(a: Seq<char>, c: char)
    requires
        forall|k: int| 0 <= k < a.len() ==> a[k] != c,
    ensures
        last_index_of(a, c) == -1,
    decreases a.len(),
{
    if a.len() > 0 {
        lemma_last_index_none(a.drop_last(), c);
    }
}

/// Bounds and character facts for `last_index_of`.
pub proof fn lemma_last_index_bounds(a: Seq<char>, c: char)
    ensures
        -1 <= last_index_of(a, c) < a.len(),
        forall|k: int| last_index_of(a, c) < k < a.len() ==> a[k] != c,
    decreases a.len(),
{
    if a.len() > 0 && a[a.len() - 1] != c {
        lemma_last_index_bounds(a.drop_last(), c);
        assert forall|k: int| last_index_of(a, c) < k < a.len() implies a[k] != c by {
            if k < a.len() - 1 {
                assert(a.drop_last()[k] == a[k]);
            }
        }
    }
}

/// One unfolding step of `last_index_of`, stated for loop proofs.
pub proof fn lemma_last_index_drop(a: Seq<char>, c: char)
    requires
        a.len() > 0,
    ensures
        a.last() == c ==> last_index_of(a, c) == a.len() - 1,
        a.last() != c ==> last_index_of(a, c) == last_index_of(a.drop_last(), c),
{
}

pub fn to_lower(c: char) -> (r: char)
    ensures
        r == lower_char(c),
{
    if 'A' <= c && c <= 'Z' {
        ((c as u8) + 32) as char
    } else {
        c
    }
}

pub fn char_is_space(c: char) -> (r: bool)
    ensures
        r == is_space(c),
{
    c == ' ' || c == '\t' || c == '\r'
}

pub fn char_is_digit(c: char) -> (r: bool)
    ensures
        r == is_digit(c),
{
    '0' <= c && c <= '9'
}

/// Compare two character vectors.
pub fn chars_eq(a: &Vec<char>, b: &Vec<char>) -> (r: bool)
    ensures
        r == (a@ == b@),
{
    if a.len() != b.len() {
        return false;
    }
    let mut i: usize = 0;
    while i < a.len()
        invariant
            a@.len() == b@.len(),
            i <= a@.len(),
            forall|k: int| 0 <= k < i ==> a@[k] == b@[k],
        decreases a@.len() - i,
    {
        if a[i] != b[i] {
            return false;
        }
        i = i + 1;
    }
    proof {
        assert(a@ =~= b@);
    }
    true
}

/// Compare two string slices character by character.
pub fn str_eq(a: &str, b: &str) -> (r: bool)
    ensures
        r == (a@ == b@),
{
    let n = a.unicode_len();
    if n != b.unicode_len() {
        return false;
    }
    let mut k: usize = 0;
    while k < n && a.get_char(k) == b.get_char(k)
        invariant
            n == a@.len(),
            a@.len() == b@.len(),
            k <= n,
            forall|j: int| 0 <= j < k ==> a@[j] == b@[j],
        decreases n - k,
    {
        k = k + 1;
    }
    if k == n {
        proof {
            assert(a@ =~= b@);
        }
        true
    } else {
        false
    }
}

/// Collect the characters of a string slice into a vector.
pub fn chars_of(s: &str) -> (v: Vec<char>)
    ensures
        v@ == s@,
{
    let mut v: Vec<char> = Vec::new();
    for c in it: s.chars()
        invariant
            it.seq() == s@,
            v@ == it.seq().take(it.index() as int),
    {
        v.push(c);
    }
    proof {
        assert(v@ =~= s@);
    }
    v
}

/// Relies on `String::push`: appends exactly the given character at the end.
#[verifier::external_body]
pub(crate) fn push_char(s: &mut String, c: char)
    ensures
        final(s)@ == old(s)@.push(c),
{
    s.push(c);
}

/// Build a string out of the characters `v[from..to]`.
pub fn string_of_range(v: &Vec<char>, from: usize, to: usize) -> (s: String)
    requires
        from <= to <= v@.len(),
    ensures
        s@ == v@.subrange(from as int, to as int),
{
    let mut s = String::new();
    let mut i = from;
    while i < to
        invariant
            from <= i <= to <= v@.len(),
            s@ == v@.subrange(from as int, i as int),
        decreases to - i,
    {
        push_char(&mut s, v[i]);
        i = i + 1;
        proof {
            assert(s@ =~= v@.subrange(from as int, i as int));
        }
    }
    s
}

/// Build a string out of all the characters of `v`.
pub fn string_of(v: &Vec<char>) -> (s: String)
    ensures
        s@ == v@,
{
    let s = string_of_range(v, 0, v.len());
    proof {
        assert(v@.subrange(0, v@.len() as int) =~= v@);
    }
    s
}

} // verus!
