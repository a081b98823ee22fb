//! Decimal numerals over character sequences: the value of a digit string,
//! the canonical digit string of a number, and executable conversions.

use vstd::prelude::*;

verus! {

/// True of the ten ASCII digit characters.
pub open spec fn is_digit(c: char) -> bool {
    48 <= c as u32 <= 57
}

/// Numeric value of one digit character.
pub open spec fn digit_val(c: char) -> nat {
    (c as u32 - 48) as nat
}

/// Every character of `s` is a decimal digit.
pub open spec fn all_digits(s: Seq<char>) -> bool {
    forall|i: int| 0 <= i < s.len() ==> is_digit(#[trigger] s[i])
}

/// Value of a digit string, most significant digit first.
pub open spec fn digits_val(s: Seq<char>) -> nat
    decreases s.len(),
{
    if s.len() == 0 {
        0
    } else {
        digits_val(s.drop_last()) * 10 + digit_val(s.last())
    }
}

/// The digit character for a value below ten.
pub open spec fn digit_char(d: nat) -> char {
    if d == 0 {
        '0'
    } else if d == 1 {
        '1'
    } else if d == 2 {
        '2'
    } else if d == 3 {
        '3'
    } else if d == 4 {
        '4'
    } else if d == 5 {
        '5'
    } else if d == 6 {
        '6'
    } else if d == 7 {
        '7'
    } else if d == 8 {
        '8'
    } else {
        '9'
    }
}

/// Canonical decimal numeral of `n`, most significant digit first, no sign,
/// no leading zero except for `n == 0` itself.
pub open spec fn dec_u(n: nat) -> Seq<char>
    decreases n,
{
    if n < 10 {
        seq![digit_char(n)]
    } else {
        dec_u(n / 10).push(digit_char(n % 10))
    }
}

/// Canonical decimal numeral of a signed number: a `-` sign before the
/// magnitude for negative values.
pub open spec fn dec_i(n: int) -> Seq<char> {
    if n < 0 {
        seq!['-'] + dec_u((-n) as nat)
    } else {
        dec_u(n as nat)
    }
}

pub proof fn lemma_digit_char(d: nat)
    requires
        d < 10,
    ensures
        is_digit(digit_char(d)),
        digit_val(digit_char(d)) == d,
{
}

/// The canonical numeral is a nonempty digit string whose value is the
/// number it was built from.
pub proof fn lemma_dec_u(n: nat)
    ensures
        dec_u(n).len() >= 1,
        all_digits(dec_u(n)),
        digits_val(dec_u(n)) == n,
    decreases n,
{
    if n < 10 {
        lemma_digit_char(n);
        assert(dec_u(n).drop_last() =~= Seq::<char>::empty());
        assert(dec_u(n).last() == digit_char(n));
        assert(digits_val(dec_u(n)) == digits_val(Seq::<char>::empty()) * 10 + digit_val(
            digit_char(n),
        ));
    } else {
        lemma_dec_u(n / 10);
        lemma_digit_char(n % 10);
        vstd::arithmetic::div_mod::lemma_fundamental_div_mod(n as int, 10);
        assert(n == (n / 10) * 10 + (n % 10));
        assert(dec_u(n).drop_last() =~= dec_u(n / 10));
        assert(dec_u(n).last() == digit_char(n % 10));
        assert(digits_val(dec_u(n)) == digits_val(dec_u(n / 10)) * 10 + digit_val(
            digit_char(n % 10),
        ));
    }
}

/// Growing a digit string on the right never shrinks its value.
pub proof fn lemma_digits_val_prefix_mono(s: Seq<char>, i: int, j: int)
    requires
        0 <= i <= j <= s.len(),
    ensures
        digits_val(s.take(i)) <= digits_val(s.take(j)),
    decreases j - i,
{
    if i < j {
        lemma_digits_val_prefix_mono(s, i, j - 1);
        assert(s.take(j).drop_last() =~= s.take(j - 1));
        assert(digits_val(s.take(j)) == digits_val(s.take(j - 1)) * 10 + digit_val(
            s.take(j).last(),
        ));
        assert(digits_val(s.take(j - 1)) * 10 >= digits_val(s.take(j - 1))) by (nonlinear_arith);
    }
}

fn digit_to_char(d: u64) -> (c: char)
    requires
        d < 10,
    ensures
        c == digit_char(d as nat),
{
    if d == 0 {
        '0'
    } else if d == 1 {
        '1'
    } else if d == 2 {
        '2'
    } else if d == 3 {
        '3'
    } else if d == 4 {
        '4'
    } else if d == 5 {
        '5'
    } else if d == 6 {
        '6'
    } else if d == 7 {
        '7'
    } else if d == 8 {
        '8'
    } else {
        '9'
    }
}

fn char_to_digit(c: char) -> (r: Option<u64>)
    ensures
        r is Some <==> is_digit(c),
        r is Some ==> r->Some_0 == digit_val(c) && r->Some_0 < 10,
{
    let u = c as u32;
    if 48 <= u && u <= 57 {
        Some((u - 48) as u64)
    } else {
        None
    }
}

/// Renders `n` as its canonical decimal numeral.
pub fn render_u64(n: u64) -> (v: Vec<char>)
    ensures
        v@ == dec_u(n as nat),
{
    let mut rev: Vec<char> = Vec::new();
    let mut cur: u64 = n;
    while cur >= 10
        invariant
            dec_u(n as nat) == dec_u(cur as nat) + rev@.reverse(),
        decreases cur,
    {
        let d = cur % 10;
        proof {
            vstd::arithmetic::div_mod::lemma_fundamental_div_mod(cur as int, 10);
            assert(dec_u(cur as nat) == dec_u((cur as nat) / 10).push(digit_char((cur as nat) % 10)));
            assert(rev@.push(digit_char((cur as nat) % 10)).reverse() =~= seq![
                digit_char((cur as nat) % 10),
            ] + rev@.reverse());
            assert(dec_u((cur as nat) / 10) + rev@.push(digit_char((cur as nat) % 10)).reverse()
                =~= dec_u(cur as nat) + rev@.reverse());
        }
        rev.push(digit_to_char(d));
        cur = cur / 10;
    }
    let mut out: Vec<char> = Vec::new();
    out.push(digit_to_char(cur));
    proof {
        assert(seq![digit_char(cur as nat)] + rev@.reverse() =~= dec_u(n as nat));
        assert(out@ =~= seq![digit_char(cur as nat)]);
    }
    let mut k: usize = rev.len();
    while k > 0
        invariant
            k <= rev.len(),
            out@ == seq![digit_char(cur as nat)] + rev@.reverse().take(rev@.len() - k),
        decreases k,
    {
        k = k - 1;
        let c = rev[k];
        out.push(c);
        proof {
            assert(rev@.reverse().take(rev@.len() - k) =~= rev@.reverse().take(
                rev@.len() - (k + 1),
            ).push(rev@[k as int]));
        }
    }
    proof {
        assert(rev@.reverse().take(rev@.len() as int) =~= rev@.reverse());
        assert(out@ =~= dec_u(n as nat));
    }
    out
}

/// Renders a signed number: minus sign, then the magnitude.
pub fn render_i64(n: i64) -> (v: Vec<char>)
    ensures
        v@ == dec_i(n as int),
{
    if n < 0 {
        let mag: u64 = (-(n as i128)) as u64;
        let digits = render_u64(mag);
        let mut out: Vec<char> = Vec::new();
        out.push('-');
        let mut i: usize = 0;
        while i < digits.len()
            invariant
                i <= digits.len(),
                out@ == seq!['-'] + digits@.take(i as int),
            decreases digits.len() - i,
        {
            out.push(digits[i]);
            proof {
                assert(digits@.take(i + 1) =~= digits@.take(i as int).push(digits@[i as int]));
                assert(seq!['-'] + digits@.take(i + 1) =~= (seq!['-'] + digits@.take(i as int)).push(
                    digits@[i as int],
                ));
            }
            i = i + 1;
        }
        proof {
            assert(digits@.take(digits@.len() as int) =~= digits@);
            assert(out@ =~= dec_i(n as int));
        }
        out
    } else {
        let v = render_u64(n as u64);
        v
    }
}

/// Parses a digit string as an unsigned number. Succeeds exactly when the
/// string is nonempty, all digits, and its value fits in `usize`.
pub fn parse_usize(s: &Vec<char>) -> (r: Option<usize>)
    ensures
        r is Some <==> s@.len() > 0 && all_digits(s@) && digits_val(s@) <= usize::MAX,
        r is Some ==> r->Some_0 == digits_val(s@),
{
    if s.len() == 0 {
        return None;
    }
    let mut acc: usize = 0;
    let mut i: usize = 0;
    while i < s.len()
        invariant
            i <= s@.len(),
            forall|j: int| 0 <= j < i ==> is_digit(#[trigger] s@[j]),
            acc == digits_val(s@.take(i as int)),
        decreases s@.len() - i,
    {
        let c = s[i];
        match char_to_digit(c) {
            None => {
                return None;
            },
            Some(d) => {
                proof {
                    assert(s@.take(i + 1).drop_last() =~= s@.take(i as int));
                    assert(digits_val(s@.take(i + 1)) == digits_val(s@.take(i as int)) * 10
                        + digit_val(s@[i as int]));
                }
                let du = d as usize;
                if acc > (usize::MAX - du) / 10 {
                    proof {
                        assert(acc * 10 + du > usize::MAX) by (nonlinear_arith)
                            requires
                                acc > (usize::MAX - du) / 10,
                                du <= 9,
                        ;
                        lemma_digits_val_prefix_mono(s@, i + 1, s@.len() as int);
                        assert(s@.take(s@.len() as int) =~= s@);
                    }
                    return None;
                }
                proof {
                    assert(acc * 10 + du <= usize::MAX) by (nonlinear_arith)
                        requires
                            acc <= (usize::MAX - du) / 10,
                            du <= 9,
                    ;
                }
                acc = acc * 10 + du;
                i = i + 1;
            },
        }
    }
    proof {
        assert(s@.take(s@.len() as int) =~= s@);
    }
    Some(acc)
}

} // verus!
