//! String helpers: the two trusted bridges between `String` and `Vec<char>`,
//! and verified decimal formatting and parsing of integers.

use vstd::prelude::*;

verus! {

/// The decimal digits, in value order.
pub const DIGIT_CHARS: [char; 10] = ['0', '1', '2', '3', '4', '5', '6', '7', '8', '9'];

/// The digit character of a value below ten.
pub open spec fn digit_char(d: int) -> char {
    DIGIT_CHARS@[d]
}

/// The decimal representation of a natural number, most significant digit
/// first.
pub open spec fn dec_rep(n: nat) -> Seq<char>
    decreases n,
{
    if n < 10 {
        seq![digit_char(n as int)]
    } else {
        dec_rep(n / 10).push(digit_char((n % 10) as int))
    }
}

/// The decimal representation of an integer, with a leading minus sign when
/// negative.
pub open spec fn int_rep(x: int) -> Seq<char> {
    if x < 0 {
        seq!['-'] + dec_rep((-x) as nat)
    } else {
        dec_rep(x as nat)
    }
}

/// Whether two string slices hold the same characters.
///
/// Relies on `str` equality: two string slices are equal exactly when
/// their character sequences are.
#[verifier::external_body]
pub fn str_eq(a: &str, b: &str) -> (r: bool)
    ensures
        r == (a@ == b@),
{
    a == b
}

/// The characters of a string, as a vector.
///
/// Relies on `Iterator::collect` gathering the characters that `str::chars`
/// yields, in order.
#[verifier::external_body]
pub fn chars_of(s: &str) -> (r: Vec<char>)
    ensures
        r@ == s@,
{
    s.chars().collect()
}

/// A string made of the given characters.
///
/// Relies on `Iterator::collect` building a `String` from characters, in
/// order.
#[verifier::external_body]
pub fn string_from_chars(v: &Vec<char>) -> (r: String)
    ensures
        r@ == v@,
{
    v.iter().collect()
}

/// A vector holding `v` in reverse order.
pub fn reverse_chars(v: &Vec<char>) -> (r: Vec<char>)
    ensures
        r@ == v@.reverse(),
{
    let mut r: Vec<char> = Vec::new();
    let mut i: usize = v.len();
    while i > 0
        invariant
            0 <= i <= v@.len(),
            r@.len() == v@.len() - i,
            forall|k: int| 0 <= k < r@.len() ==> r@[k] == v@[v@.len() - 1 - k],
        decreases i,
    {
        i -= 1;
        r.push(v[i]);
    }
    proof {
        assert(r@ =~= v@.reverse());
    }
    r
}

/// The decimal digits of `m`, most significant first.
pub fn u64_to_chars(m: u64) -> (r: Vec<char>)
    ensures
        r@ == dec_rep(m as nat),
{
    let mut rev: Vec<char> = Vec::new();
    rev.push(DIGIT_CHARS[(m % 10) as usize]);
    let mut rest: u64 = m / 10;
    proof {
        assert(rev@.reverse() =~= seq![digit_char((m % 10) as int)]);
        if m >= 10 {
            assert(dec_rep(m as nat) == dec_rep((m / 10) as nat).push(
                digit_char((m % 10) as int),
            ));
            assert(dec_rep((m / 10) as nat) + rev@.reverse() =~= dec_rep(m as nat));
        } else {
            assert(dec_rep(m as nat) =~= seq![digit_char(m as int)]);
        }
    }
    while rest > 0
        invariant
            if rest > 0 {
                dec_rep(m as nat) =~= dec_rep(rest as nat) + rev@.reverse()
            } else {
                dec_rep(m as nat) =~= rev@.reverse()
            },
        decreases rest,
    {
        let ghost prev = rev@;
        let ghost prest = rest;
        let d = (rest % 10) as usize;
        rev.push(DIGIT_CHARS[d]);
        rest = rest / 10;
        proof {
            assert(rev@.reverse() =~= seq![digit_char((prest % 10) as int)] + prev.reverse());
            if prest >= 10 {
                assert(dec_rep(prest as nat) == dec_rep((prest / 10) as nat).push(
                    digit_char((prest % 10) as int),
                ));
                assert(dec_rep((prest / 10) as nat) + rev@.reverse() =~= (dec_rep(
                    (prest / 10) as nat,
                ).push(digit_char((prest % 10) as int))) + prev.reverse());
                assert(dec_rep((prest / 10) as nat) + rev@.reverse() =~= dec_rep(prest as nat)
                    + prev.reverse());
            } else {
                assert(dec_rep(prest as nat) =~= seq![digit_char(prest as int)]);
                assert(rev@.reverse() =~= dec_rep(prest as nat) + prev.reverse());
            }
        }
    }
    reverse_chars(&rev)
}

/// The decimal representation of `x`, with a leading minus sign when
/// negative.
pub fn i64_to_chars(x: i64) -> (r: Vec<char>)
    ensures
        r@ == int_rep(x as int),
{
    if x >= 0 {
        u64_to_chars(x as u64)
    } else {
        let m: u64 = if x == i64::MIN {
            9223372036854775808u64
        } else {
            (-x) as u64
        };
        let digits = u64_to_chars(m);
        let mut r: Vec<char> = Vec::new();
        r.push('-');
        let mut i: usize = 0;
        while i < digits.len()
            invariant
                0 <= i <= digits@.len(),
                r@ =~= seq!['-'] + digits@.subrange(0, i as int),
            decreases digits@.len() - i,
        {
            r.push(digits[i]);
            proof {
                assert(digits@.subrange(0, i + 1) =~= digits@.subrange(0, i as int).push(
                    digits@[i as int],
                ));
            }
            i += 1;
        }
        proof {
            assert(digits@.subrange(0, digits@.len() as int) =~= digits@);
            assert(r@ =~= int_rep(x as int));
        }
        r
    }
}

/// The numeric value of a digit sequence (reading invalid characters as
/// zero).
pub open spec fn dec_val(s: Seq<char>) -> nat
    decreases s.len(),
{
    if s.len() == 0 {
        0
    } else {
        dec_val(s.drop_last()) * 10 + digit_val(s.last())
    }
}

/// The numeric value of one digit character, or zero if it is none.
pub open spec fn digit_val(c: char) -> nat {
    if '0' <= c <= '9' {
        ((c as int) - ('0' as int)) as nat
    } else {
        0
    }
}

/// Whether every character is a decimal digit.
pub open spec fn all_digits(s: Seq<char>) -> bool {
    forall|i: int| 0 <= i < s.len() ==> '0' <= #[trigger] s[i] <= '9'
}

/// Whether `c` is a decimal digit.
pub fn is_digit_char(c: char) -> (r: bool)
    ensures
        r == ('0' <= c <= '9'),
{
    c >= '0' && c <= '9'
}

/// The value of a sequence of digit characters, or `None` if a character is
/// not a digit or the value does not fit in `u64`.
pub fn parse_u64_digits(s: &Vec<char>) -> (r: Option<u64>)
    ensures
        r matches Some(v) ==> {
            &&& s@.len() > 0
            &&& all_digits(s@)
            &&& v as nat == dec_val(s@)
        },
        s@.len() > 0 && all_digits(s@) && dec_val(s@) <= u64::MAX ==> r is Some,
{
    if s.len() == 0 {
        return None;
    }
    let mut acc: u64 = 0;
    let mut i: usize = 0;
    while i < s.len()
        invariant
            0 <= i <= s@.len(),
            all_digits(s@.subrange(0, i as int)),
            acc as nat == dec_val(s@.subrange(0, i as int)),
            dec_val(s@) <= u64::MAX ==> acc as nat <= dec_val(s@),
        decreases s@.len() - i,
    {
        let c = s[i];
        if !is_digit_char(c) {
            return None;
        }
        let d = (c as u32) - ('0' as u32);
        proof {
            lemma_dec_val_prefix_bound(s@, i + 1);
            assert(s@.subrange(0, i + 1).drop_last() =~= s@.subrange(0, i as int));
            assert(s@.subrange(0, i + 1).last() == s@[i as int]);
        }
        if acc > (u64::MAX - d as u64) / 10 {
            return None;
        }
        acc = acc * 10 + d as u64;
        i += 1;
    }
    proof {
        assert(s@.subrange(0, s@.len() as int) =~= s@);
    }
    Some(acc)
}

/// The value of a prefix of a digit string is no more than the value of the
/// whole.
proof fn lemma_dec_val_prefix_bound(s: Seq<char>, j: int)
    requires
        0 <= j <= s.len(),
    ensures
        dec_val(s.subrange(0, j)) <= dec_val(s),
    decreases s.len() - j,
{
    if j == s.len() {
        assert(s.subrange(0, j) =~= s);
    } else {
        lemma_dec_val_prefix_bound(s, j + 1);
        assert(s.subrange(0, j + 1).drop_last() =~= s.subrange(0, j));
        assert(dec_val(s.subrange(0, j + 1)) == dec_val(s.subrange(0, j)) * 10 + digit_val(
            s.subrange(0, j + 1).last(),
        ));
    }
}

} // verus!
