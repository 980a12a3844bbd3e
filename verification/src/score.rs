//! Scores. A score is the code word of an IEEE 754 binary64 number. The order of scores is read off
//! the code words here; the arithmetic is the caller's, handed in as one function over [`Op`].

use vstd::prelude::*;

verus! {

/// What a boundary table holds of a state: what the next loop is worth there.
#[derive(Clone, Copy, Debug, PartialEq, Eq, Structural)]
pub enum Contribution {
    /// How many of the 5040 orders of the next bag lead to a perfect clear.
    Count(u16),
    /// A value, as the code word of a binary32 number.
    Value(u32),
    /// A step of 4095 between two values, each the code word of a binary32 number.
    Step { low: u32, high: u32, step: u16 },
}

/// The arithmetic that the search asks of its caller.
#[derive(Clone, Copy, Debug, PartialEq, Eq, Structural)]
pub enum Op {
    /// The sum of two scores.
    Plus(u64, u64),
    /// A score divided by a number.
    Over(u64, u64),
    /// One perfect clear and what the state after it contributes.
    Worth(Contribution),
    /// A score as the value vectors keep it.
    Store(u64),
}

/// The score of one perfect clear.
pub const ONE: u64 = 0x3FF0_0000_0000_0000;

pub const SIGN: u64 = 0x8000_0000_0000_0000;

pub const INFINITY: u64 = 0x7FF0_0000_0000_0000;

/// The code word without its sign.
pub open spec fn magnitude(x: u64) -> int {
    if x < SIGN {
        x as int
    } else {
        x - SIGN
    }
}

/// The code word stands for no number.
pub open spec fn is_nan(x: u64) -> bool {
    magnitude(x) > INFINITY
}

/// Where a number stands in the order of numbers.
pub open spec fn height(x: u64) -> int {
    if x < SIGN {
        magnitude(x)
    } else {
        -magnitude(x)
    }
}

/// `a > b` as numbers.
pub open spec fn exceeds(a: u64, b: u64) -> bool {
    !is_nan(a) && !is_nan(b) && height(a) > height(b)
}

/// `x <= 0` as a number.
pub open spec fn at_most_zero(x: u64) -> bool {
    !is_nan(x) && height(x) <= 0
}

fn signed(x: u64) -> (r: i64)
    requires
        !is_nan(x),
    ensures
        r == height(x),
{
    if x < SIGN {
        x as i64
    } else {
        -((x - SIGN) as i64)
    }
}

fn nan(x: u64) -> (r: bool)
    ensures
        r == is_nan(x),
{
    if x < SIGN {
        x > INFINITY
    } else {
        x - SIGN > INFINITY
    }
}

pub fn greater(a: u64, b: u64) -> (r: bool)
    ensures
        r == exceeds(a, b),
{
    !nan(a) && !nan(b) && signed(a) > signed(b)
}

pub fn none_left(x: u64) -> (r: bool)
    ensures
        r == at_most_zero(x),
{
    !nan(x) && signed(x) <= 0
}

/// The score is nothing or above.
pub open spec fn not_below(x: u64) -> bool {
    x == 0 || exceeds(x, 0)
}

/// The answer is one that arithmetic on numbers can give. Of scores that are not below nothing: a sum
/// with something is something, a sum with nothing changes nothing, a quotient is not below nothing,
/// and nothing divided is nothing.
pub open spec fn fair(op: Op, r: u64) -> bool {
    match op {
        Op::Plus(a, b) => not_below(a) ==> (exceeds(b, 0) ==> exceeds(r, 0)) && (b == 0 ==> r == a),
        Op::Over(a, n) => not_below(a) && n > 0 ==> not_below(r) && (a == 0 ==> r == 0),
        Op::Worth(_) => true,
        Op::Store(_) => true,
    }
}

/// The score, or nothing.
pub open spec fn or_nothing(x: Option<u64>) -> u64 {
    match x {
        Some(v) => v,
        None => 0,
    }
}

/// The sum of the scores, first to last.
pub open spec fn total(calc: spec_fn(Op) -> u64, list: Seq<u64>) -> u64
    decreases list.len(),
{
    if list.len() == 0 {
        0
    } else {
        calc(Op::Plus(total(calc, list.drop_last()), list.last()))
    }
}

/// Their mean; nothing where there are none.
pub open spec fn average(calc: spec_fn(Op) -> u64, list: Seq<u64>) -> u64 {
    if list.len() == 0 {
        0
    } else {
        calc(Op::Over(total(calc, list), list.len() as u64))
    }
}

/// The function answers every question, always in the same way and fairly.
pub open spec fn answers<F: Fn(Op) -> u64>(f: F) -> bool {
    &&& forall|op: Op| #[trigger] f.requires((op,))
    &&& forall|op: Op, a: u64, b: u64| #[trigger]
        f.ensures((op,), a) && #[trigger] f.ensures((op,), b) ==> a == b
    &&& forall|op: Op, r: u64| #[trigger] f.ensures((op,), r) ==> fair(op, r)
}

/// What stands for an answer that a function can never give.
pub open spec fn unanswered(op: Op) -> u64 {
    match op {
        Op::Plus(a, b) => if b == 0 {
            a
        } else {
            ONE
        },
        _ => 0,
    }
}

/// The answers of the function.
pub open spec fn arith<F: Fn(Op) -> u64>(f: F) -> spec_fn(Op) -> u64 {
    |op: Op|
        if exists|r: u64| f.ensures((op,), r) {
            choose|r: u64| f.ensures((op,), r)
        } else {
            unanswered(op)
        }
}

/// Every answer is fair.
pub open spec fn all_fair(calc: spec_fn(Op) -> u64) -> bool {
    forall|op: Op| fair(op, #[trigger] calc(op))
}

/// A function that answers has fair answers.
pub proof fn law_answers_are_fair<F: Fn(Op) -> u64>(f: F)
    requires
        answers(f),
    ensures
        all_fair(arith(f)),
{
    assert forall|op: Op| fair(op, #[trigger] arith(f)(op)) by {
        if exists|r: u64| f.ensures((op,), r) {
            let r = choose|r: u64| f.ensures((op,), r);
            assert(f.ensures((op,), r));
        }
    }
}

pub fn ask<F: Fn(Op) -> u64>(f: &F, op: Op) -> (r: u64)
    requires
        answers(*f),
    ensures
        r == arith(*f)(op),
{
    let r: u64 = f(op);
    r
}

/// The order of numbers: nothing exceeds itself, and of two numbers that differ in height one
/// exceeds the other.
pub proof fn law_order(a: u64, b: u64, c: u64)
    ensures
        !exceeds(a, a),
        exceeds(a, b) && exceeds(b, c) ==> exceeds(a, c),
        !is_nan(a) && !is_nan(b) ==> exceeds(a, b) || exceeds(b, a) || height(a) == height(b),
        at_most_zero(a) <==> !is_nan(a) && !exceeds(a, 0),
{
}

/// Scores compare as the numbers they stand for: of two without a sign the larger word is the larger
/// number, of two with a sign the smaller one, and a number with a sign is below one without, unless
/// both are nothing. What stands for no number compares with nothing.
pub proof fn law_scores_compare_as_numbers(a: u64, b: u64)
    ensures
        a <= INFINITY && b <= INFINITY ==> (exceeds(a, b) <==> a > b),
        a <= INFINITY && b <= INFINITY ==> (exceeds((SIGN + a) as u64, (SIGN + b) as u64) <==> a < b),
        a <= INFINITY && b <= INFINITY ==> (exceeds(a, (SIGN + b) as u64) <==> a > 0 || b > 0),
        a <= INFINITY && b <= INFINITY ==> !exceeds((SIGN + a) as u64, b),
        (INFINITY < a < SIGN || SIGN + INFINITY < a) ==> !exceeds(a, b) && !exceeds(b, a),
        exceeds(ONE, 0),
{
}

} // verus!
