//! Character and string helpers shared by the cursor and the tokenizer.
use vstd::prelude::*;
use vstd::string::*;
use crate::consumer::{find_from, lemma_find_from_first};

verus! {

/// Whether a character has the Unicode `Alphabetic` property.
pub uninterp spec fn alphabetic(c: char) -> bool;

/// Whether a character is `Alphabetic` or `Numeric` in Unicode.
pub uninterp spec fn alphanumeric(c: char) -> bool;

/// Relies on `char::is_alphabetic`: the answer depends on the character alone.
#[verifier::external_body]
pub(crate) fn is_alphabetic(c: char) -> (r: bool)
    ensures
        r == alphabetic(c),
{
    c.is_alphabetic()
}

/// Relies on `char::is_alphanumeric`: the answer depends on the character alone.
#[verifier::external_body]
pub(crate) fn is_alphanumeric(c: char) -> (r: bool)
    ensures
        r == alphanumeric(c),
{
    c.is_alphanumeric()
}

/// Relies on `String::push`: appends one character at the end.
#[verifier::external_body]
pub(crate) fn push_char(s: &mut String, c: char)
    ensures
        final(s)@ == old(s)@.push(c),
{
    s.push(c);
}

/// The characters of `s`, in order.
pub fn str_to_chars(s: &str) -> (r: Vec<char>)
    ensures
        r@ == s@,
{
    let n = s.unicode_len();
    let mut v: Vec<char> = Vec::new();
    let mut i: usize = 0;
    while i < n
        invariant
            n == s@.len(),
            i <= n,
            v@ == s@.subrange(0, i as int),
        decreases n - i,
    {
        v.push(s.get_char(i));
        i = i + 1;
    }
    assert(v@ =~= s@);
    v
}

/// A string holding the characters `v[lo..hi]`.
pub fn chars_to_string(v: &Vec<char>, lo: usize, hi: usize) -> (r: String)
    requires
        lo <= hi <= v.len(),
    ensures
        r@ == v@.subrange(lo as int, hi as int),
{
    let mut s = String::new();
    let mut i: usize = lo;
    while i < hi
        invariant
            lo <= i <= hi <= v.len(),
            s@ == v@.subrange(lo as int, i as int),
        decreases hi - i,
    {
        push_char(&mut s, v[i]);
        assert(v@.subrange(lo as int, i + 1) =~= v@.subrange(lo as int, i as int).push(v@[i as int]));
        i = i + 1;
    }
    s
}

/// A string of the single character `c`.
pub fn char_to_string(c: char) -> (r: String)
    ensures
        r@ == seq![c],
{
    let mut s = String::new();
    push_char(&mut s, c);
    assert(s@ =~= seq![c]);
    s
}

/// Whether the characters `d` stand in `v` at index `i`.
fn matches_at(v: &Vec<char>, i: usize, d: &Vec<char>) -> (r: bool)
    requires
        i + d.len() <= v.len(),
    ensures
        r == (v@.subrange(i as int, i + d.len()) == d@),
{
    let mut k: usize = 0;
    while k < d.len()
        invariant
            i + d.len() <= v.len(),
            k <= d.len(),
            forall|j: int| 0 <= j < k ==> v@[i + j] == d@[j],
        decreases d.len() - k,
    {
        if v[i + k] != d[k] {
            assert(v@.subrange(i as int, i + d.len())[k as int] != d@[k as int]);
            return false;
        }
        k = k + 1;
    }
    assert(v@.subrange(i as int, i + d.len()) =~= d@);
    true
}

/// The first index at or after `from` where `d` stands in `v`, if any.
pub fn find_chars(v: &Vec<char>, from: usize, d: &Vec<char>) -> (r: Option<usize>)
    requires
        from <= v.len(),
    ensures
        r == match find_from(v@, from as int, d@) {
            Some(k) => Some(k as usize),
            None => None::<usize>,
        },
        r matches Some(k) ==> from <= k && k + d.len() <= v.len(),
{
    proof {
        lemma_find_from_first(v@, from as int, d@);
    }
    let m = d.len();
    let mut n: usize = from;
    while m <= v.len() - n
        invariant
            from <= n <= v.len(),
            m == d.len(),
            find_from(v@, from as int, d@) == find_from(v@, n as int, d@),
        decreases v.len() - n,
    {
        if matches_at(v, n, d) {
            return Some(n);
        }
        proof {
            if m == 0 {
                assert(v@.subrange(n as int, n + m) =~= d@);
            }
        }
        n = n + 1;
    }
    None
}

/// The string without the Unicode white space at either end.
pub uninterp spec fn trimmed(s: Seq<char>) -> Seq<char>;

/// Relies on `str::trim`: the result depends on the characters alone.
#[verifier::external_body]
pub(crate) fn trim(s: &str) -> (r: String)
    ensures
        r@ == trimmed(s@),
{
    s.trim().to_string()
}

} // verus!
