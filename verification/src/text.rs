//! Text: what this crate takes on trust about `str` and `String`, and
//! decimal notation.

use vstd::prelude::*;

verus! {

/// `String::push` appends one character to the end of the string.
pub assume_specification[ String::push ](s: &mut String, ch: char)
    ensures
        final(s)@ == old(s)@.push(ch),
;

/// Equality of string slices, `str::eq`, holds exactly when the two slices
/// have the same characters.
#[verifier::external_body]
pub(crate) fn str_eq(a: &str, b: &str) -> (equal: bool)
    ensures
        equal == (a@ == b@),
{
    a == b
}

/// The decimal digit `d`, for `d < 10`.
pub open spec fn digit(d: nat) -> char {
    ('0' as u8 + d) as char
}

/// `n` in decimal notation, without leading zeros.
pub open spec fn decimal(n: nat) -> Seq<char>
    decreases n,
{
    if n < 10 {
        seq![digit(n)]
    } else {
        decimal(n / 10).push(digit(n % 10))
    }
}

/// Appends `n` in decimal notation to `sql`.
pub fn push_decimal(sql: &mut String, n: usize)
    ensures
        final(sql)@ == old(sql)@ + decimal(n as nat),
{
    // The digits after the first, the last of them first.
    let mut digits: Vec<char> = Vec::new();
    let mut rest: usize = n;
    while rest >= 10
        invariant
            decimal(n as nat) == decimal(rest as nat) + digits@.reverse(),
        decreases rest,
    {
        let d: u8 = (rest % 10) as u8;
        let ghost before = digits@;
        digits.push((48u8 + d) as char);
        proof {
            assert(digits@.reverse() =~= seq![digit((rest % 10) as nat)] + before.reverse());
            assert(decimal(rest as nat) == decimal((rest / 10) as nat).push(
                digit((rest % 10) as nat),
            ));
            assert(decimal((rest / 10) as nat).push(digit((rest % 10) as nat))
                + before.reverse() =~= decimal((rest / 10) as nat) + digits@.reverse());
        }
        rest = rest / 10;
    }
    sql.push((48u8 + (rest as u8)) as char);
    let mut left: usize = digits.len();
    while left > 0
        invariant
            left <= digits.len(),
            sql@ + digits@.reverse().skip(digits.len() - left) == old(sql)@ + decimal(n as nat),
        decreases left,
    {
        left = left - 1;
        let ghost before = sql@;
        sql.push(digits[left]);
        proof {
            let rev = digits@.reverse();
            assert(rev.skip(digits.len() - left - 1) =~= seq![digits@[left as int]] + rev.skip(
                digits.len() - left,
            ));
            assert(sql@ + rev.skip(digits.len() - left) =~= before + rev.skip(
                digits.len() - left - 1,
            ));
        }
    }
    assert(digits@.reverse().skip(digits.len() as int) =~= Seq::<char>::empty());
    assert(sql@ + Seq::<char>::empty() =~= sql@);
}

} // verus!
