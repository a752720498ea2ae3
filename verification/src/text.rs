//! Character-level helpers shared by the scanner, the analyzer and the
//! query builder.  The library works on `Vec<char>` internally so that
//! every step over a record's text is verified; these wrappers move
//! between `String` and `Vec<char>` at the boundary.
use vstd::prelude::*;

verus! {

/// Relies on str::chars: iterating a string slice yields exactly the
/// characters of its view, in order.
#[verifier::external_body]
pub fn chars_of(s: &str) -> (r: Vec<char>)
    ensures
        r@ == s@,
{
    s.chars().collect()
}

/// Relies on String's FromIterator<char>: collecting characters builds
/// the string whose view is exactly that character sequence.
#[verifier::external_body]
pub fn string_of(v: &Vec<char>) -> (r: String)
    ensures
        r@ == v@,
{
    v.iter().collect()
}

/// The Unicode lowercase folding of a character sequence, as
/// str::to_lowercase computes it.  The result depends on the characters
/// alone.
pub uninterp spec fn lower_of(s: Seq<char>) -> Seq<char>;

/// Relies on str::to_lowercase: the lowercase equivalent of the string,
/// a function of its characters alone.
#[verifier::external_body]
pub fn lowercase(s: &str) -> (r: String)
    ensures
        r@ == lower_of(s@),
{
    s.to_lowercase()
}

/// The character sequences of a string list, in order.
pub open spec fn strs_view(s: Seq<String>) -> Seq<Seq<char>> {
    s.map(|_i: int, x: String| x@)
}

/// True when `hay` has `needle` as a contiguous subsequence.
pub open spec fn contains_seq(hay: Seq<char>, needle: Seq<char>) -> bool {
    exists|k: int|
        0 <= k <= hay.len() - needle.len() && #[trigger] hay.subrange(k, k + needle.len() as int)
            == needle
}

/// Substring search: does `hay` contain `needle` as a contiguous run?
pub fn contains_sub(hay: &Vec<char>, needle: &Vec<char>) -> (r: bool)
    ensures
        r == contains_seq(hay@, needle@),
{
    if needle.len() > hay.len() {
        assert(!contains_seq(hay@, needle@));
        return false;
    }
    let mut k: usize = 0;
    while k <= hay.len() - needle.len()
        invariant
            needle.len() <= hay.len(),
            k <= hay.len() - needle.len() + 1,
            forall|k0: int|
                0 <= k0 < k ==> #[trigger] hay@.subrange(k0, k0 + needle@.len() as int)
                    != needle@,
        decreases hay.len() - needle.len() - k + 1,
    {
        let mut j: usize = 0;
        let mut hit = true;
        while j < needle.len()
            invariant
                needle.len() <= hay.len(),
                k + needle.len() <= hay.len(),
                j <= needle.len(),
                hit == (forall|j0: int| 0 <= j0 < j ==> hay@[k + j0] == needle@[j0]),
            decreases needle.len() - j,
        {
            if hay[k + j] != needle[j] {
                hit = false;
                assert(!(forall|j0: int| 0 <= j0 < j + 1 ==> hay@[k + j0] == needle@[j0]));
                j = needle.len();
            } else {
                j = j + 1;
            }
        }
        if hit {
            assert(hay@.subrange(k as int, k + needle@.len() as int) =~= needle@);
            return true;
        }
        assert(hay@.subrange(k as int, k + needle@.len() as int) != needle@);
        k = k + 1;
    }
    assert(!contains_seq(hay@, needle@));
    false
}

} // verus!
