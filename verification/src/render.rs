//! Decimal rendering of counts, right-aligned in fixed-width fields.

use vstd::prelude::*;
use vstd::arithmetic::div_mod::{
    lemma_div_is_ordered,
    lemma_div_multiples_vanish,
    lemma_multiply_divide_lt,
};
use vstd::string::StringExecFns;

verus! {

/// The decimal digit character for `d`.
pub open spec fn digit_char(d: int) -> char {
    if d == 0 {
        '0'
    } else if d == 1 {
        '1'
    } else if d == 2 {
        '2'
    } else if d == 3 {
        '3'
    } else if d == 4 {
        '4'
    } else if d == 5 {
        '5'
    } else if d == 6 {
        '6'
    } else if d == 7 {
        '7'
    } else if d == 8 {
        '8'
    } else {
        '9'
    }
}

/// The decimal digits of `v`, most significant first, without padding.
pub open spec fn dec_digits(v: int) -> Seq<char>
    recommends
        v >= 0,
    decreases v,
{
    if v < 10 {
        seq![digit_char(v)]
    } else {
        dec_digits(v / 10).push(digit_char(v % 10))
    }
}

/// `n` space characters.
pub open spec fn spaces(n: int) -> Seq<char>
    decreases n,
{
    if n <= 0 {
        Seq::empty()
    } else {
        spaces(n - 1).push(' ')
    }
}

/// `v` in decimal, right-aligned in a field of `w` characters; a value of
/// more than `w` digits widens the field.
pub open spec fn aligned(v: int, w: int) -> Seq<char> {
    spaces(w - dec_digits(v).len()) + dec_digits(v)
}

/// Ten to the power `k`.
pub open spec fn pow10(k: nat) -> int
    decreases k,
{
    if k == 0 {
        1
    } else {
        10 * pow10((k - 1) as nat)
    }
}

proof fn lemma_pow10_pos(k: nat)
    ensures
        pow10(k) >= 1,
    decreases k,
{
    if k > 0 {
        lemma_pow10_pos((k - 1) as nat);
    }
}

/// A value between consecutive powers of ten has exactly `k` digits.
proof fn lemma_dec_digits_len(v: int, k: nat)
    requires
        k >= 1,
        pow10((k - 1) as nat) <= v < pow10(k),
    ensures
        dec_digits(v).len() == k,
    decreases k,
{
    if k == 1 {
        assert(dec_digits(v) =~= seq![digit_char(v)]);
    } else {
        let p = pow10((k - 2) as nat);
        lemma_pow10_pos((k - 2) as nat);
        assert(pow10((k - 1) as nat) == 10 * p);
        assert(v >= 10);
        assert(v / 10 >= p) by {
            lemma_div_is_ordered(10 * p, v, 10);
            lemma_div_multiples_vanish(p, 10);
        }
        assert(v / 10 < pow10((k - 1) as nat)) by {
            lemma_multiply_divide_lt(v, 10, pow10((k - 1) as nat));
        }
        lemma_dec_digits_len(v / 10, (k - 1) as nat);
    }
}

/// A value of at least `pow10(k)` has more than `k` digits.
proof fn lemma_dec_digits_len_ge(v: int, k: nat)
    requires
        pow10(k) <= v,
    ensures
        dec_digits(v).len() >= k + 1,
    decreases k,
{
    lemma_pow10_pos(k);
    if k > 0 {
        let p = pow10((k - 1) as nat);
        lemma_pow10_pos((k - 1) as nat);
        assert(v >= 10);
        assert(v / 10 >= p) by {
            lemma_div_is_ordered(10 * p, v, 10);
            lemma_div_multiples_vanish(p, 10);
        }
        lemma_dec_digits_len_ge(v / 10, (k - 1) as nat);
    }
}

/// The one-character string for decimal digit `d`.
fn digit_str(d: u128) -> (r: &'static str)
    requires
        d < 10,
    ensures
        r@ == seq![digit_char(d as int)],
{
    let r: &'static str = if d == 0 {
        "0"
    } else if d == 1 {
        "1"
    } else if d == 2 {
        "2"
    } else if d == 3 {
        "3"
    } else if d == 4 {
        "4"
    } else if d == 5 {
        "5"
    } else if d == 6 {
        "6"
    } else if d == 7 {
        "7"
    } else if d == 8 {
        "8"
    } else {
        "9"
    };
    proof {
        reveal_strlit("0");
        reveal_strlit("1");
        reveal_strlit("2");
        reveal_strlit("3");
        reveal_strlit("4");
        reveal_strlit("5");
        reveal_strlit("6");
        reveal_strlit("7");
        reveal_strlit("8");
        reveal_strlit("9");
        assert(r@ =~= seq![digit_char(d as int)]);
    }
    r
}

/// Append the decimal digits of `v` to `s`.
fn push_decimal(s: &mut String, v: u128)
    ensures
        final(s)@ == old(s)@ + dec_digits(v as int),
    decreases v,
{
    if v < 10 {
        s.append(digit_str(v));
    } else {
        let d = v % 10;
        push_decimal(s, v / 10);
        s.append(digit_str(d));
        proof {
            assert(s@ =~= old(s)@ + dec_digits(v as int));
        }
    }
}

/// The number of decimal digits of `v`, saturated at 8.
fn dec_len_upto8(v: u128) -> (n: usize)
    ensures
        1 <= n <= 8,
        n == dec_digits(v as int).len() || (n == 8 && dec_digits(v as int).len() >= 8),
{
    proof {
        assert(pow10(0) == 1);
        assert(pow10(1) == 10);
        assert(pow10(2) == 100);
        assert(pow10(3) == 1000);
        assert(pow10(4) == 10000);
        assert(pow10(5) == 100000);
        assert(pow10(6) == 1000000);
        assert(pow10(7) == 10000000);
    }
    if v < 10 {
        proof {
            assert(dec_digits(v as int).len() == 1);
        }
        1
    } else if v < 100 {
        proof {
            lemma_dec_digits_len(v as int, 2);
        }
        2
    } else if v < 1000 {
        proof {
            lemma_dec_digits_len(v as int, 3);
        }
        3
    } else if v < 10000 {
        proof {
            lemma_dec_digits_len(v as int, 4);
        }
        4
    } else if v < 100000 {
        proof {
            lemma_dec_digits_len(v as int, 5);
        }
        5
    } else if v < 1000000 {
        proof {
            lemma_dec_digits_len(v as int, 6);
        }
        6
    } else if v < 10000000 {
        proof {
            lemma_dec_digits_len(v as int, 7);
        }
        7
    } else {
        proof {
            lemma_dec_digits_len_ge(v as int, 7);
        }
        8
    }
}

/// `v` in decimal, right-aligned with spaces to `width` characters.
pub fn right_aligned(v: u128, width: usize) -> (s: String)
    requires
        width <= 8,
    ensures
        s@ == aligned(v as int, width as int),
{
    let n = dec_len_upto8(v);
    let pad = if width > n {
        width - n
    } else {
        0
    };
    proof {
        assert(pad as int == if width as int - dec_digits(v as int).len() >= 0 {
            width as int - dec_digits(v as int).len()
        } else {
            0int
        });
    }
    let mut s = String::new();
    let mut k: usize = 0;
    proof {
        reveal_strlit(" ");
        assert(s@ =~= spaces(0));
    }
    while k < pad
        invariant
            k <= pad,
            s@ == spaces(k as int),
        decreases pad - k,
    {
        s.append(" ");
        k = k + 1;
        proof {
            reveal_strlit(" ");
            assert(s@ =~= spaces(k as int));
        }
    }
    push_decimal(&mut s, v);
    proof {
        assert(s@ =~= aligned(v as int, width as int));
    }
    s
}

} // verus!
