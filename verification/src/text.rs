//! Numbers in text.

use vstd::prelude::*;
use vstd::string::StringExecFns;

verus! {

pub const DIGITS: [char; 16] = [
    '0',
    '1',
    '2',
    '3',
    '4',
    '5',
    '6',
    '7',
    '8',
    '9',
    'a',
    'b',
    'c',
    'd',
    'e',
    'f',
];

/// A number written in a base with at least `width` digits.
pub open spec fn numeral(n: nat, base: nat, width: nat) -> Seq<char>
    decreases n + width,
{
    if base < 2 || (n < base && width <= 1) {
        seq![DIGITS@[n as int]]
    } else {
        proof {
            assert(n >= base ==> n / base < n) by (nonlinear_arith)
                requires
                    base >= 2,
            ;
            assert(n < base ==> n / base == 0) by (nonlinear_arith)
                requires
                    base >= 2,
            ;
        }
        numeral(
            n / base,
            base,
            if width == 0 {
                0
            } else {
                (width - 1) as nat
            },
        ).push(DIGITS@[(n % base) as int])
    }
}

/// A number in decimal.
pub open spec fn decimal(n: nat) -> Seq<char> {
    numeral(n, 10, 1)
}

/// Write one digit.
pub fn push_digit(s: &mut String, d: u64)
    requires
        d < 16,
    ensures
        final(s)@ == old(s)@.push(DIGITS@[d as int]),
{
    proof {
        reveal_strlit("0");
        reveal_strlit("1");
        reveal_strlit("2");
        reveal_strlit("3");
        reveal_strlit("4");
        reveal_strlit("5");
        reveal_strlit("6");
        reveal_strlit("7");
        reveal_strlit("8");
        reveal_strlit("9");
        reveal_strlit("a");
        reveal_strlit("b");
        reveal_strlit("c");
        reveal_strlit("d");
        reveal_strlit("e");
        reveal_strlit("f");
    }
    let t: &str = match d {
        0 => "0",
        1 => "1",
        2 => "2",
        3 => "3",
        4 => "4",
        5 => "5",
        6 => "6",
        7 => "7",
        8 => "8",
        9 => "9",
        10 => "a",
        11 => "b",
        12 => "c",
        13 => "d",
        14 => "e",
        _ => "f",
    };
    s.append(t);
    assert(s@ =~= old(s)@.push(DIGITS@[d as int]));
}

/// Write a number in a base with at least `width` digits.
pub fn push_number(s: &mut String, n: u64, base: u64, width: usize)
    requires
        2 <= base <= 16,
    ensures
        final(s)@ == old(s)@ + numeral(n as nat, base as nat, width as nat),
    decreases n + width,
{
    if n < base && width <= 1 {
        push_digit(s, n);
        assert(s@ =~= old(s)@ + seq![DIGITS@[n as int]]);
    } else {
        let q: u64 = n / base;
        let r: u64 = n % base;
        proof {
            assert(n >= base ==> n / base < n) by (nonlinear_arith)
                requires
                    base >= 2,
            ;
            assert(n < base ==> n / base == 0) by (nonlinear_arith)
                requires
                    base >= 2,
            ;
            assert(n % base < base) by (nonlinear_arith)
                requires
                    base >= 2,
            ;
        }
        push_number(
            s,
            q,
            base,
            if width == 0 {
                0
            } else {
                width - 1
            },
        );
        let ghost mid = s@;
        push_digit(s, r);
        assert(s@ =~= old(s)@ + numeral(n as nat, base as nat, width as nat));
    }
}

/// Write a number in decimal.
pub fn push_decimal(s: &mut String, n: u64)
    ensures
        final(s)@ == old(s)@ + decimal(n as nat),
{
    push_number(s, n, 10, 1);
}

} // verus!
