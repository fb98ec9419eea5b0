//! Decimal text: the canonical representation of statement ids and lengths,
//! its printer, and a bounded scanner used by both codecs.

use vstd::prelude::*;
use vstd::string::*;
use vstd::arithmetic::div_mod::lemma_fundamental_div_mod;

verus! {

pub open spec fn is_digit(c: char) -> bool {
    '0' <= c && c <= '9'
}

pub open spec fn digit_val(c: char) -> int {
    c as int - '0' as int
}

pub open spec fn digit_char(d: int) -> char
    recommends
        0 <= d <= 9,
{
    if d == 0 {
        '0'
    } else if d == 1 {
        '1'
    } else if d == 2 {
        '2'
    } else if d == 3 {
        '3'
    } else if d == 4 {
        '4'
    } else if d == 5 {
        '5'
    } else if d == 6 {
        '6'
    } else if d == 7 {
        '7'
    } else if d == 8 {
        '8'
    } else {
        '9'
    }
}

/// The canonical decimal representation of `n`, most significant digit
/// first, no leading zeros (except for `0` itself).
pub open spec fn dec_rep(n: nat) -> Seq<char>
    decreases n,
{
    if n < 10 {
        seq![digit_char(n as int)]
    } else {
        dec_rep(n / 10) + seq![digit_char((n % 10) as int)]
    }
}

/// The value of a run of decimal digits, most significant first.
pub open spec fn dec_val(s: Seq<char>) -> int
    decreases s.len(),
{
    if s.len() == 0 {
        0
    } else {
        dec_val(s.drop_last()) * 10 + digit_val(s.last())
    }
}

pub open spec fn all_digits(s: Seq<char>) -> bool {
    forall|i: int| 0 <= i < s.len() ==> is_digit(#[trigger] s[i])
}

pub proof fn lemma_dec_rep_digits(n: nat)
    ensures
        dec_rep(n).len() >= 1,
        all_digits(dec_rep(n)),
    decreases n,
{
    if n < 10 {
        assert(is_digit(digit_char(n as int)));
    } else {
        lemma_dec_rep_digits(n / 10);
        assert(0 <= n % 10 <= 9);
        assert(is_digit(digit_char((n % 10) as int)));
        assert forall|i: int| 0 <= i < dec_rep(n).len() implies is_digit(#[trigger] dec_rep(n)[i]) by {
            if i < dec_rep(n / 10).len() {
                assert(dec_rep(n)[i] == dec_rep(n / 10)[i]);
            }
        }
    }
}

pub proof fn lemma_dec_val_dec_rep(n: nat)
    ensures
        dec_val(dec_rep(n)) == n,
    decreases n,
{
    if n < 10 {
        let s = dec_rep(n);
        assert(s == seq![digit_char(n as int)]);
        assert(s.drop_last() =~= Seq::<char>::empty());
        assert(dec_val(s.drop_last()) == 0);
        assert(s.last() == digit_char(n as int));
        assert(digit_val(digit_char(n as int)) == n);
        assert(dec_val(s) == 0 * 10 + digit_val(digit_char(n as int)));
    } else {
        lemma_dec_val_dec_rep(n / 10);
        let s = dec_rep(n);
        assert(s == dec_rep(n / 10) + seq![digit_char((n % 10) as int)]);
        assert(s.len() == dec_rep(n / 10).len() + 1);
        assert(s.drop_last() =~= dec_rep(n / 10));
        assert(s.last() == digit_char((n % 10) as int));
        assert(digit_val(digit_char((n % 10) as int)) == n % 10);
        assert(dec_val(s) == dec_val(dec_rep(n / 10)) * 10 + (n % 10));
        assert(dec_val(s) == (n / 10) * 10 + (n % 10));
        lemma_fundamental_div_mod(n as int, 10);
        assert(n == 10 * (n as int / 10) + n as int % 10);
    }
}

pub proof fn lemma_dec_val_nonneg(s: Seq<char>)
    requires
        all_digits(s),
    ensures
        dec_val(s) >= 0,
    decreases s.len(),
{
    if s.len() > 0 {
        assert(all_digits(s.drop_last()));
        lemma_dec_val_nonneg(s.drop_last());
        assert(is_digit(s.last()));
    }
}

/// A digit run's value never shrinks when more digits are appended.
pub proof fn lemma_dec_val_prefix_le(s: Seq<char>, m: int)
    requires
        all_digits(s),
        0 <= m <= s.len(),
    ensures
        dec_val(s.subrange(0, m)) <= dec_val(s),
    decreases s.len(),
{
    if m < s.len() {
        let t = s.drop_last();
        assert(all_digits(t));
        assert(s.subrange(0, m) =~= t.subrange(0, m));
        lemma_dec_val_prefix_le(t, m);
        lemma_dec_val_nonneg(t);
        assert(is_digit(s.last()));
    } else {
        assert(s.subrange(0, m) =~= s);
    }
}

/// The end of the digit run that starts at `i`: the first index at or after
/// `i` holding a non-digit, or the length of `s`.
pub open spec fn digits_end(s: Seq<char>, i: int) -> int
    decreases s.len() - i,
{
    if i < s.len() && is_digit(s[i]) {
        digits_end(s, i + 1)
    } else {
        i
    }
}

pub proof fn lemma_digits_end_bounds(s: Seq<char>, i: int)
    requires
        0 <= i <= s.len(),
    ensures
        i <= digits_end(s, i) <= s.len(),
        forall|j: int| i <= j < digits_end(s, i) ==> is_digit(s[j]),
        digits_end(s, i) < s.len() ==> !is_digit(s[digits_end(s, i)]),
    decreases s.len() - i,
{
    if i < s.len() && is_digit(s[i]) {
        lemma_digits_end_bounds(s, i + 1);
    }
}

/// If every index in `[i, j)` holds a digit and `j` is the length or holds a
/// non-digit, then `j` is where the digit run ends.
pub proof fn lemma_digits_end_exact(s: Seq<char>, i: int, j: int)
    requires
        0 <= i <= j <= s.len(),
        forall|k: int| i <= k < j ==> is_digit(s[k]),
        j == s.len() || !is_digit(s[j]),
    ensures
        digits_end(s, i) == j,
    decreases j - i,
{
    if i < j {
        lemma_digits_end_exact(s, i + 1, j);
    }
}

/// What a decimal scan of `s` at position `i` yields: the value of the digit
/// run starting there and the position just past it, or nothing when no digit
/// stands at `i` or the value exceeds the machine range.
pub open spec fn scan_dec_spec(s: Seq<char>, i: int) -> Option<(int, int)> {
    let j = digits_end(s, i);
    if j == i {
        None
    } else {
        let v = dec_val(s.subrange(i, j));
        if v <= usize::MAX {
            Some((v, j))
        } else {
            None
        }
    }
}

fn is_digit_char(c: char) -> (r: bool)
    ensures
        r == is_digit(c),
{
    '0' <= c && c <= '9'
}

/// Scans the decimal number at position `from` of `s`, rejecting values
/// beyond the machine range.
pub fn scan_dec(s: &str, from: usize) -> (r: Option<(usize, usize)>)
    requires
        from <= s@.len(),
    ensures
        match r {
            Some(p) => scan_dec_spec(s@, from as int) == Some((p.0 as int, p.1 as int)),
            None => scan_dec_spec(s@, from as int) is None,
        },
{
    let len: usize = s.unicode_len();
    let ghost de = digits_end(s@, from as int);
    let mut j: usize = from;
    let mut acc: usize = 0;
    while j < len
        invariant_except_break
            from <= j <= len,
            len == s@.len(),
            de == digits_end(s@, from as int),
            forall|k: int| from <= k < j ==> is_digit(s@[k]),
            acc == dec_val(s@.subrange(from as int, j as int)),
        ensures
            from <= j <= len,
            len == s@.len(),
            de == digits_end(s@, from as int),
            forall|k: int| from <= k < j ==> is_digit(s@[k]),
            acc == dec_val(s@.subrange(from as int, j as int)),
            j as int == de || j as int == len,
        decreases len - j,
    {
        let c = s.get_char(j);
        if !is_digit_char(c) {
            proof {
                lemma_digits_end_exact(s@, from as int, j as int);
            }
            break;
        }
        let d: usize = (c as u32 as usize) - ('0' as u32 as usize);
        proof {
            lemma_digits_end_bounds(s@, from as int);
            assert(d == digit_val(c));
            assert(j < de);
        }
        if acc > (usize::MAX - d) / 10 {
            proof {
                // The run's full value only grows with more digits, so it is
                // already out of range.
                let full = s@.subrange(from as int, de);
                assert(all_digits(full));
                let part = s@.subrange(from as int, j + 1);
                assert(part =~= full.subrange(0, j + 1 - from));
                lemma_dec_val_prefix_le(full, j + 1 - from);
                assert(part.drop_last() =~= s@.subrange(from as int, j as int));
                assert(part.last() == s@[j as int]);
                assert(dec_val(part) == acc * 10 + d);
                assert(acc * 10 + d > usize::MAX) by {
                    lemma_fundamental_div_mod(usize::MAX as int - d, 10);
                }
            }
            return None;
        }
        proof {
            assert(acc * 10 + d <= usize::MAX) by {
                lemma_fundamental_div_mod(usize::MAX as int - d, 10);
            }
            let part = s@.subrange(from as int, j + 1);
            assert(part.drop_last() =~= s@.subrange(from as int, j as int));
            assert(part.last() == s@[j as int]);
        }
        acc = acc * 10 + d;
        j = j + 1;
    }
    proof {
        if j as int != de {
            lemma_digits_end_exact(s@, from as int, j as int);
        }
    }
    if j == from {
        None
    } else {
        Some((acc, j))
    }
}

fn digit_str(d: usize) -> (r: &'static str)
    requires
        d <= 9,
    ensures
        r@ == seq![digit_char(d as int)],
{
    let r: &'static str = match d {
        0 => "0",
        1 => "1",
        2 => "2",
        3 => "3",
        4 => "4",
        5 => "5",
        6 => "6",
        7 => "7",
        8 => "8",
        _ => "9",
    };
    proof {
        reveal_strlit("0");
        reveal_strlit("1");
        reveal_strlit("2");
        reveal_strlit("3");
        reveal_strlit("4");
        reveal_strlit("5");
        reveal_strlit("6");
        reveal_strlit("7");
        reveal_strlit("8");
        reveal_strlit("9");
        assert(r@ =~= seq![digit_char(d as int)]);
    }
    r
}

/// Prints `n` in its canonical decimal representation.
pub fn dec_string(n: usize) -> (r: String)
    ensures
        r@ == dec_rep(n as nat),
    decreases n,
{
    if n < 10 {
        String::from_str(digit_str(n))
    } else {
        let mut r = dec_string(n / 10);
        r.append(digit_str(n % 10));
        r
    }
}

} // verus!
