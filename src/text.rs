//! Decimal text of integers and of fixed-point values.
use vstd::prelude::*;
use vstd::string::*;
use crate::point::UNIT;

verus! {

/// The character of a decimal digit.
pub open spec fn digit(d: int) -> char {
    seq!['0', '1', '2', '3', '4', '5', '6', '7', '8', '9'][d]
}

/// Decimal text of a natural number, without leading zeros.
pub open spec fn decimal(n: nat) -> Seq<char>
    decreases n,
{
    if n < 10 {
        seq![digit(n as int)]
    } else {
        decimal(n / 10) + seq![digit((n % 10) as int)]
    }
}

/// The last `w` decimal digits of `f`, padded with leading zeros.
pub open spec fn padded(f: nat, w: nat) -> Seq<char>
    decreases w,
{
    if w == 0 {
        Seq::empty()
    } else {
        padded(f / 10, (w - 1) as nat) + seq![digit((f % 10) as int)]
    }
}

/// The `w` digits of the fraction `f` without its trailing zeros.
pub open spec fn fraction(f: nat, w: nat) -> Seq<char>
    decreases w,
{
    if w > 0 && f % 10 == 0 {
        fraction(f / 10, (w - 1) as nat)
    } else {
        padded(f, w)
    }
}

/// Text of a fixed-point value: the whole part, then, where the value is not
/// whole, a point and the digits of the fraction without trailing zeros.
pub open spec fn fixed_text(v: int) -> Seq<char> {
    let m = if v < 0 {
        -v
    } else {
        v
    };
    let sign = if v < 0 {
        seq!['-']
    } else {
        Seq::empty()
    };
    let whole = sign + decimal((m / (UNIT as int)) as nat);
    if m % (UNIT as int) == 0 {
        whole
    } else {
        whole + seq!['.'] + fraction((m % (UNIT as int)) as nat, 6)
    }
}

/// Text of a fixed-point value as a coordinate is shown: as `fixed_text`,
/// with `.0` after a whole value.
pub open spec fn coord_text(v: int) -> Seq<char> {
    if v % (UNIT as int) == 0 {
        fixed_text(v) + seq!['.', '0']
    } else {
        fixed_text(v)
    }
}

fn digit_str(d: u64) -> (r: &'static str)
    requires
        d < 10,
    ensures
        r@ == seq![digit(d as int)],
{
    if d == 0 {
        proof {
            reveal_strlit("0");
        }
        "0"
    } else if d == 1 {
        proof {
            reveal_strlit("1");
        }
        "1"
    } else if d == 2 {
        proof {
            reveal_strlit("2");
        }
        "2"
    } else if d == 3 {
        proof {
            reveal_strlit("3");
        }
        "3"
    } else if d == 4 {
        proof {
            reveal_strlit("4");
        }
        "4"
    } else if d == 5 {
        proof {
            reveal_strlit("5");
        }
        "5"
    } else if d == 6 {
        proof {
            reveal_strlit("6");
        }
        "6"
    } else if d == 7 {
        proof {
            reveal_strlit("7");
        }
        "7"
    } else if d == 8 {
        proof {
            reveal_strlit("8");
        }
        "8"
    } else {
        proof {
            reveal_strlit("9");
        }
        "9"
    }
}

/// Append the decimal text of `n`.
pub fn push_decimal(s: &mut String, n: u64)
    ensures
        final(s)@ == old(s)@ + decimal(n as nat),
    decreases n,
{
    if n >= 10 {
        push_decimal(s, n / 10);
    }
    s.append(digit_str(n % 10));
    assert(final(s)@ =~= old(s)@ + decimal(n as nat)) by {
        if n >= 10 {
            assert(decimal(n as nat) == decimal((n / 10) as nat) + seq![digit((n % 10) as int)]);
        }
    }
}

/// Append the last `w` digits of `f`, zero-padded.
fn push_padded(s: &mut String, f: u64, w: u64)
    ensures
        final(s)@ == old(s)@ + padded(f as nat, w as nat),
    decreases w,
{
    if w > 0 {
        push_padded(s, f / 10, w - 1);
        s.append(digit_str(f % 10));
        assert(final(s)@ =~= old(s)@ + padded(f as nat, w as nat));
    } else {
        assert(final(s)@ =~= old(s)@ + padded(f as nat, w as nat));
    }
}

/// Append the text of a fixed-point value.
pub fn push_fixed(s: &mut String, v: i64)
    ensures
        final(s)@ == old(s)@ + fixed_text(v as int),
{
    let m: u64 = if v < 0 {
        (-(v as i128)) as u64
    } else {
        v as u64
    };
    let ghost s0 = s@;
    if v < 0 {
        proof {
            reveal_strlit("-");
        }
        s.append("-");
    }
    let ghost s1 = s@;
    push_decimal(s, m / (UNIT as u64));
    let r = m % (UNIT as u64);
    if r != 0 {
        proof {
            reveal_strlit(".");
        }
        s.append(".");
        let mut f = r;
        let mut w: u64 = 6;
        while w > 0 && f % 10 == 0
            invariant
                fraction(r as nat, 6) == fraction(f as nat, w as nat),
                w <= 6,
            decreases w,
        {
            f = f / 10;
            w = w - 1;
        }
        push_padded(s, f, w);
    }
    proof {
        let sign: Seq<char> = if v < 0 {
            seq!['-']
        } else {
            Seq::empty()
        };
        assert(s1 =~= s0 + sign);
        if r != 0 {
            assert(s@ =~= old(s)@ + fixed_text(v as int));
        } else {
            assert(s@ =~= old(s)@ + fixed_text(v as int));
        }
    }
}

/// Append the text of a coordinate.
pub fn push_coord(s: &mut String, v: i64)
    ensures
        final(s)@ == old(s)@ + coord_text(v as int),
{
    let ghost s0 = s@;
    push_fixed(s, v);
    if v % UNIT == 0 {
        proof {
            reveal_strlit(".0");
        }
        s.append(".0");
        assert(s@ =~= s0 + coord_text(v as int));
    }
    proof {
        if (v as int) % (UNIT as int) == 0 {
            assert((v % UNIT == 0));
        }
    }
}

} // verus!
