//! Small verified string helpers shared by the codecs and the token tools.

use vstd::prelude::*;
use vstd::string::*;

verus! {

/// Character-exact comparison of two string slices.
pub fn str_eq(a: &str, b: &str) -> (r: bool)
    ensures
        r == (a@ == b@),
{
    let la: usize = a.unicode_len();
    let lb: usize = b.unicode_len();
    if la != lb {
        return false;
    }
    let mut i: usize = 0;
    while i < la
        invariant
            la == a@.len(),
            la == b@.len(),
            i <= la,
            forall|j: int| 0 <= j < i ==> a@[j] == b@[j],
        decreases la - i,
    {
        if a.get_char(i) != b.get_char(i) {
            return false;
        }
        i = i + 1;
    }
    proof {
        assert(a@ =~= b@);
    }
    true
}

/// The whitespace characters recognised when a short name is split into
/// words.
pub open spec fn is_space(c: char) -> bool {
    c == ' ' || c == '\t' || c == '\n' || c == '\r'
}

/// The first index at or after `i` holding a non-space character, or the
/// length of `s` if every remaining character is a space.
pub open spec fn word_start(s: Seq<char>, i: int) -> int
    decreases s.len() - i,
{
    if i < s.len() && is_space(s[i]) {
        word_start(s, i + 1)
    } else {
        i
    }
}

/// The first index at or after `i` holding a space character, or the length
/// of `s` if no space follows.
pub open spec fn word_end(s: Seq<char>, i: int) -> int
    decreases s.len() - i,
{
    if i < s.len() && !is_space(s[i]) {
        word_end(s, i + 1)
    } else {
        i
    }
}

/// The first whitespace-delimited word of `s`: the maximal run of non-space
/// characters after any leading spaces.  Empty when `s` has no such run.
pub open spec fn first_word(s: Seq<char>) -> Seq<char> {
    s.subrange(word_start(s, 0), word_end(s, word_start(s, 0)))
}

fn is_space_char(c: char) -> (r: bool)
    ensures
        r == is_space(c),
{
    c == ' ' || c == '\t' || c == '\n' || c == '\r'
}

/// Extracts the first whitespace-delimited word of `s`.
pub fn first_word_of(s: &str) -> (r: &str)
    ensures
        r@ == first_word(s@),
{
    let len: usize = s.unicode_len();
    let mut i: usize = 0;
    while i < len
        invariant_except_break
            i <= len,
            len == s@.len(),
            word_start(s@, 0) == word_start(s@, i as int),
        ensures
            i <= len,
            len == s@.len(),
            i as int == word_start(s@, 0),
        decreases len - i,
    {
        if !is_space_char(s.get_char(i)) {
            break;
        }
        i = i + 1;
    }
    let mut j: usize = i;
    while j < len
        invariant_except_break
            i <= j <= len,
            len == s@.len(),
            word_end(s@, i as int) == word_end(s@, j as int),
        ensures
            i <= j <= len,
            len == s@.len(),
            j as int == word_end(s@, i as int),
        decreases len - j,
    {
        if is_space_char(s.get_char(j)) {
            break;
        }
        j = j + 1;
    }
    s.substring_char(i, j)
}

} // verus!
