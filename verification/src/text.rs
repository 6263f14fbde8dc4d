//! Small verified helpers over strings and character sequences.
//!
//! Whitespace here means the ASCII blanks (space, tab, carriage return,
//! line feed); card files and typed answers do not use exotic spacing.

use vstd::prelude::*;

verus! {

/// String equality, decided character by character.
pub fn str_eq(a: &str, b: &str) -> (r: bool)
    ensures
        r == (a@ == b@),
{
    let na = a.unicode_len();
    let nb = b.unicode_len();
    if na != nb {
        return false;
    }
    let mut i: usize = 0;
    while i < na
        invariant
            0 <= i <= na,
            na == a@.len() && na == b@.len(),
            forall|j: int| 0 <= j < i ==> a@[j] == b@[j],
        decreases na - i,
    {
        if a.get_char(i) != b.get_char(i) {
            return false;
        }
        i += 1;
    }
    proof {
        assert(a@ =~= b@);
    }
    true
}

/// The characters of `s` as a vector.
pub fn chars_of_str(s: &str) -> (v: Vec<char>)
    ensures
        v@ == s@,
{
    let n = s.unicode_len();
    let mut v: Vec<char> = Vec::new();
    let mut i: usize = 0;
    while i < n
        invariant
            0 <= i <= n,
            n == s@.len(),
            v@ == s@.take(i as int),
        decreases n - i,
    {
        v.push(s.get_char(i));
        proof {
            assert(v@ =~= s@.take(i + 1));
        }
        i += 1;
    }
    proof {
        assert(s@.take(n as int) =~= s@);
    }
    v
}

/// Relies on `String::push`: appends one character to the string.
#[verifier::external_body]
pub fn push_char_onto(s: &mut String, c: char)
    ensures
        final(s)@ == old(s)@.push(c),
{
    s.push(c);
}

/// A `String` holding exactly the given characters.
pub fn string_from_chars(v: &Vec<char>) -> (s: String)
    ensures
        s@ == v@,
{
    let mut s = String::new();
    let mut i: usize = 0;
    while i < v.len()
        invariant
            0 <= i <= v@.len(),
            s@ == v@.take(i as int),
        decreases v@.len() - i,
    {
        push_char_onto(&mut s, v[i]);
        proof {
            assert(s@ =~= v@.take(i + 1));
        }
        i += 1;
    }
    proof {
        assert(v@.take(v@.len() as int) =~= v@);
    }
    s
}

pub open spec fn is_blank_char(c: char) -> bool {
    c == ' ' || c == '\t' || c == '\r' || c == '\n'
}

/// Whether `c` is an ASCII blank.
pub fn blank_char(c: char) -> (r: bool)
    ensures
        r == is_blank_char(c),
{
    c == ' ' || c == '\t' || c == '\r' || c == '\n'
}

/// Number of leading blanks of `s`.
pub open spec fn leading_blanks(s: Seq<char>) -> int
    decreases s.len(),
{
    if s.len() == 0 || !is_blank_char(s[0]) {
        0
    } else {
        1 + leading_blanks(s.drop_first())
    }
}

/// Number of trailing blanks of `s`.
pub open spec fn trailing_blanks(s: Seq<char>) -> int
    decreases s.len(),
{
    if s.len() == 0 || !is_blank_char(s.last()) {
        0
    } else {
        1 + trailing_blanks(s.drop_last())
    }
}

pub proof fn lemma_leading_blanks_bound(s: Seq<char>)
    ensures
        0 <= leading_blanks(s) <= s.len(),
        forall|j: int| 0 <= j < leading_blanks(s) ==> is_blank_char(#[trigger] s[j]),
        leading_blanks(s) < s.len() ==> !is_blank_char(s[leading_blanks(s)]),
    decreases s.len(),
{
    if s.len() > 0 && is_blank_char(s[0]) {
        lemma_leading_blanks_bound(s.drop_first());
        let t = s.drop_first();
        assert forall|j: int| 0 <= j < leading_blanks(s) implies is_blank_char(#[trigger] s[j]) by {
            if j > 0 {
                assert(s[j] == t[j - 1]);
            }
        }
    }
}

pub proof fn lemma_trailing_blanks_bound(s: Seq<char>)
    ensures
        0 <= trailing_blanks(s) <= s.len(),
        forall|j: int| s.len() - trailing_blanks(s) <= j < s.len() ==> is_blank_char(#[trigger] s[j]),
        trailing_blanks(s) < s.len() ==> !is_blank_char(s[s.len() - trailing_blanks(s) - 1]),
    decreases s.len(),
{
    if s.len() > 0 && is_blank_char(s.last()) {
        lemma_trailing_blanks_bound(s.drop_last());
        let t = s.drop_last();
        assert forall|j: int| s.len() - trailing_blanks(s) <= j < s.len() implies is_blank_char(
            #[trigger] s[j],
        ) by {
            if j < s.len() - 1 {
                assert(s[j] == t[j]);
            }
        }
    }
}

/// `s` with leading and trailing blanks removed.
pub open spec fn spec_trim(s: Seq<char>) -> Seq<char> {
    if leading_blanks(s) == s.len() {
        Seq::empty()
    } else {
        s.subrange(leading_blanks(s), s.len() - trailing_blanks(s))
    }
}

pub proof fn lemma_trim_bounds(s: Seq<char>)
    ensures
        leading_blanks(s) < s.len() ==> leading_blanks(s) + trailing_blanks(s) < s.len(),
    decreases s.len(),
{
    lemma_leading_blanks_bound(s);
    lemma_trailing_blanks_bound(s);
    if leading_blanks(s) < s.len() {
        let lead = leading_blanks(s);
        let trail = trailing_blanks(s);
        if lead + trail >= s.len() {
            // the non-blank at `lead` would also lie in the blank tail
            assert(is_blank_char(s[lead]));
        }
    }
}

/// Trims ASCII blanks from both ends of a character vector.
pub fn trim_chars(v: &Vec<char>) -> (r: Vec<char>)
    ensures
        r@ == spec_trim(v@),
{
    proof {
        lemma_leading_blanks_bound(v@);
        lemma_trailing_blanks_bound(v@);
        lemma_trim_bounds(v@);
    }
    let n = v.len();
    let mut start: usize = 0;
    while start < n && blank_char(v[start])
        invariant
            0 <= start <= n,
            n == v@.len(),
            forall|j: int| 0 <= j < start ==> is_blank_char(#[trigger] v@[j]),
            start <= leading_blanks(v@),
        decreases n - start,
    {
        proof {
            lemma_leading_blanks_skip(v@, start as int);
        }
        start += 1;
    }
    proof {
        lemma_leading_blanks_bound(v@);
        assert(start == leading_blanks(v@));
    }
    if start == n {
        return Vec::new();
    }
    let mut end: usize = n;
    while end > start && blank_char(v[end - 1])
        invariant
            start <= end <= n,
            n == v@.len(),
            start == leading_blanks(v@),
            start < n,
            forall|j: int| end <= j < n ==> is_blank_char(#[trigger] v@[j]),
            n - end <= trailing_blanks(v@),
        decreases end,
    {
        proof {
            lemma_trailing_blanks_skip(v@, n - end as int);
        }
        end -= 1;
    }
    proof {
        lemma_trailing_blanks_bound(v@);
        lemma_trim_bounds(v@);
        assert(n - end == trailing_blanks(v@));
    }
    let mut r: Vec<char> = Vec::new();
    let mut i: usize = start;
    while i < end
        invariant
            start <= i <= end <= n,
            n == v@.len(),
            r@ == v@.subrange(start as int, i as int),
        decreases end - i,
    {
        r.push(v[i]);
        proof {
            assert(r@ =~= v@.subrange(start as int, i + 1));
        }
        i += 1;
    }
    r
}

proof fn lemma_leading_blanks_skip(s: Seq<char>, k: int)
    requires
        0 <= k < s.len(),
        forall|j: int| 0 <= j < k ==> is_blank_char(#[trigger] s[j]),
        is_blank_char(s[k]),
    ensures
        leading_blanks(s) >= k + 1,
    decreases k,
{
    if k == 0 {
        lemma_leading_blanks_bound(s.drop_first());
    } else {
        lemma_leading_blanks_skip(s.drop_first(), k - 1);
    }
}

proof fn lemma_trailing_blanks_skip(s: Seq<char>, k: int)
    requires
        0 <= k < s.len(),
        forall|j: int| s.len() - k <= j < s.len() ==> is_blank_char(#[trigger] s[j]),
        is_blank_char(s[s.len() - k - 1]),
    ensures
        trailing_blanks(s) >= k + 1,
    decreases k,
{
    if k == 0 {
        lemma_trailing_blanks_bound(s.drop_last());
    } else {
        let t = s.drop_last();
        assert forall|j: int| t.len() - (k - 1) <= j < t.len() implies is_blank_char(
            #[trigger] t[j],
        ) by {
            assert(t[j] == s[j]);
        }
        assert(t[t.len() - (k - 1) - 1] == s[s.len() - k - 1]);
        lemma_trailing_blanks_skip(t, k - 1);
    }
}

} // verus!
