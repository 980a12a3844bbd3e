//! Sequences of pieces that a bag can still reveal: their enumeration in the order of a depth-first
//! walk (smaller pieces first), their places in it, and their packed form of three bits a piece.

use vstd::prelude::*;
use crate::piece;
use crate::piece::{after_reveal, has, Piece, FULL_BAG};
use crate::table::Table;

verus! {

/// `p` in front of every sequence.
pub open spec fn prefixed(p: u8, list: Seq<Seq<u8>>) -> Seq<Seq<u8>> {
    Seq::new(list.len(), |i: int| seq![p] + list[i])
}

/// All sequences of `len` reveals from the bag, in order.
pub open spec fn reveals(mask: u8, len: nat) -> Seq<Seq<u8>>
    decreases len, 8nat,
{
    if len == 0 {
        seq![Seq::<u8>::empty()]
    } else {
        branches(mask, len, 7)
    }
}

/// Those of them that start with a piece below `n`.
pub open spec fn branches(mask: u8, len: nat, n: nat) -> Seq<Seq<u8>>
    decreases len, n,
{
    if n == 0 || len == 0 {
        seq![]
    } else if piece::in_bag(mask, n - 1) {
        branches(mask, len, (n - 1) as nat) + prefixed(
            (n - 1) as u8,
            reveals(piece::after(mask, (n - 1) as u8), (len - 1) as nat),
        )
    } else {
        branches(mask, len, (n - 1) as nat)
    }
}

/// The bag can reveal these pieces in this order.
pub open spec fn legal(mask: u8, s: Seq<u8>) -> bool
    decreases s.len(),
{
    s.len() == 0 || (piece::in_bag(mask, s[0] as int) && legal(
        piece::after(mask, s[0]),
        s.drop_first(),
    ))
}

/// The bag after these reveals.
pub open spec fn bag_after(mask: u8, s: Seq<u8>) -> u8
    decreases s.len(),
{
    if s.len() == 0 {
        mask
    } else {
        bag_after(piece::after(mask, s[0]), s.drop_first())
    }
}

/// Where, among all sequences of `len` reveals, those that start with `s` begin.
pub open spec fn start_of(mask: u8, len: nat, s: Seq<u8>) -> nat
    decreases s.len(),
{
    if s.len() == 0 || len == 0 {
        0
    } else {
        branches(mask, len, s[0] as nat).len() + start_of(
            piece::after(mask, s[0]),
            (len - 1) as nat,
            s.drop_first(),
        )
    }
}

/// The place of a sequence among those of its length.
pub open spec fn rank(mask: u8, s: Seq<u8>) -> nat {
    start_of(mask, s.len(), s)
}

/// A bag can always reveal more.
pub proof fn lemma_reveals_some(mask: u8, len: nat)
    requires
        piece::bag(mask),
    ensures
        reveals(mask, len).len() >= 1,
    decreases len,
{
    broadcast use piece::lemma_in_bag_range;

    if len > 0 {
        let p = piece::lemma_bag_holds(mask);
        piece::lemma_after(mask, p as u8);
        lemma_reveals_some(piece::after(mask, p as u8), (len - 1) as nat);
        lemma_branch_block(mask, len, p as u8, 0);
    }
}

/// The sequences that start with `q` stand in one block, in the order of their tails.
pub proof fn lemma_branch_block(mask: u8, len: nat, q: u8, j: int)
    requires
        len > 0,
        piece::in_bag(mask, q as int),
        0 <= j < reveals(piece::after(mask, q), (len - 1) as nat).len(),
    ensures
        branches(mask, len, q as nat).len() + j < reveals(mask, len).len(),
        reveals(mask, len)[branches(mask, len, q as nat).len() + j] == seq![q] + reveals(
            piece::after(mask, q),
            (len - 1) as nat,
        )[j],
{
    broadcast use piece::lemma_in_bag_range;

    let tail = reveals(piece::after(mask, q), (len - 1) as nat);
    let at = branches(mask, len, q as nat).len() + j;
    assert(branches(mask, len, (q + 1) as nat)[at] == prefixed(q, tail)[j]);
    lemma_branches_extend(mask, len, (q + 1) as nat, 7, at);
}

proof fn lemma_branches_extend(mask: u8, len: nat, m: nat, n: nat, i: int)
    requires
        m <= n,
        0 <= i < branches(mask, len, m).len(),
    ensures
        i < branches(mask, len, n).len(),
        branches(mask, len, n)[i] == branches(mask, len, m)[i],
    decreases n,
{
    if m < n {
        lemma_branches_extend(mask, len, m, (n - 1) as nat, i);
    }
}

/// Every listed sequence starts in one of the blocks.
proof fn lemma_branches_find(mask: u8, len: nat, n: nat, i: int) -> (r: (u8, int))
    requires
        0 < len,
        n <= 7,
        0 <= i < branches(mask, len, n).len(),
    ensures
        r.0 < n,
        piece::in_bag(mask, r.0 as int),
        0 <= r.1 < reveals(piece::after(mask, r.0), (len - 1) as nat).len(),
        i == branches(mask, len, r.0 as nat).len() + r.1,
    decreases n,
{
    let was = branches(mask, len, (n - 1) as nat);
    if i < was.len() {
        lemma_branches_find(mask, len, (n - 1) as nat, i)
    } else {
        ((n - 1) as u8, i - was.len())
    }
}

/// A legal sequence stands at its rank.
pub proof fn lemma_rank(mask: u8, s: Seq<u8>)
    requires
        legal(mask, s),
    ensures
        rank(mask, s) < reveals(mask, s.len()).len(),
        reveals(mask, s.len())[rank(mask, s) as int] == s,
    decreases s.len(),
{
    broadcast use piece::lemma_in_bag_range;

    if s.len() == 0 {
        assert(s =~= Seq::<u8>::empty());
    } else {
        let tail = s.drop_first();
        lemma_rank(piece::after(mask, s[0]), tail);
        lemma_branch_block(mask, s.len(), s[0], rank(piece::after(mask, s[0]), tail) as int);
        assert(seq![s[0]] + tail =~= s);
    }
}

/// What stands in the list is legal, has the length, and has its place as rank.
pub proof fn lemma_reveals_legal(mask: u8, len: nat, i: int)
    requires
        0 <= i < reveals(mask, len).len(),
    ensures
        reveals(mask, len)[i].len() == len,
        legal(mask, reveals(mask, len)[i]),
        rank(mask, reveals(mask, len)[i]) == i,
    decreases len,
{
    if len > 0 {
        let (q, j) = lemma_branches_find(mask, len, 7, i);
        lemma_branch_block(mask, len, q, j);
        lemma_reveals_legal(piece::after(mask, q), (len - 1) as nat, j);
        let tail = reveals(piece::after(mask, q), (len - 1) as nat)[j];
        let s = seq![q] + tail;
        assert(s.drop_first() =~= tail);
    }
}

/// There are at most seven continuations at each reveal.
pub proof fn lemma_reveals_bound(mask: u8, len: nat)
    requires
        len <= 4,
    ensures
        len == 0 ==> reveals(mask, len).len() == 1,
        len == 1 ==> reveals(mask, len).len() <= 7,
        len == 2 ==> reveals(mask, len).len() <= 49,
        len == 3 ==> reveals(mask, len).len() <= 343,
        len == 4 ==> reveals(mask, len).len() <= 2401,
        forall|n: nat| n <= 7 ==> #[trigger] branches(mask, len, n).len() <= 2401,
    decreases len,
{
    if len > 0 {
        let cap: nat = if len == 1 {
            1
        } else if len == 2 {
            7
        } else if len == 3 {
            49
        } else {
            343
        };
        assert forall|n: nat| n <= 7 implies #[trigger] branches(mask, len, n).len() <= n * cap by {
            lemma_branches_bound(mask, len, n, cap);
        }
        lemma_branches_bound(mask, len, 7, cap);
        assert(reveals(mask, len) == branches(mask, len, 7));
        assert forall|n: nat| n <= 7 implies #[trigger] branches(mask, len, n).len() <= 2401 by {
            assert(n * cap <= 7 * 343) by (nonlinear_arith)
                requires
                    n <= 7,
                    cap <= 343,
            ;
        }
    }
}

proof fn lemma_branches_bound(mask: u8, len: nat, n: nat, cap: nat)
    requires
        0 < len <= 4,
        n <= 7,
        cap == (if len == 1 {
            1nat
        } else if len == 2 {
            7
        } else if len == 3 {
            49
        } else {
            343
        }),
    ensures
        branches(mask, len, n).len() <= n * cap,
    decreases len, n,
{
    if n > 0 {
        lemma_branches_bound(mask, len, (n - 1) as nat, cap);
        lemma_reveals_bound(piece::after(mask, (n - 1) as u8), (len - 1) as nat);
        assert(n * cap == (n - 1) * cap + cap) by (nonlinear_arith)
            requires
                n > 0,
        ;
    }
}

/// A bag stays a bag whatever legal sequence is revealed.
pub proof fn lemma_bag_after(mask: u8, s: Seq<u8>)
    requires
        piece::bag(mask),
        forall|i: int| 0 <= i < s.len() ==> s[i] < 7,
    ensures
        piece::bag(bag_after(mask, s)),
    decreases s.len(),
{
    if s.len() > 0 {
        piece::lemma_after(mask, s[0]);
        assert forall|i: int| 0 <= i < s.drop_first().len() implies s.drop_first()[i] < 7 by {
            assert(s[i + 1] < 7);
        }
        lemma_bag_after(piece::after(mask, s[0]), s.drop_first());
    }
}

pub proof fn lemma_legal_small(mask: u8, s: Seq<u8>, i: int)
    requires
        legal(mask, s),
        0 <= i < s.len(),
    ensures
        s[i] < 7,
    decreases s.len(),
{
    broadcast use piece::lemma_in_bag_range;

    if i > 0 {
        lemma_legal_small(piece::after(mask, s[0]), s.drop_first(), i - 1);
    }
}

/// One more reveal.
pub proof fn lemma_push(mask: u8, s: Seq<u8>, p: u8)
    ensures
        legal(mask, s.push(p)) <==> legal(mask, s) && piece::in_bag(bag_after(mask, s), p as int),
        bag_after(mask, s.push(p)) == piece::after(bag_after(mask, s), p),
    decreases s.len(),
{
    reveal_with_fuel(legal, 3);
    reveal_with_fuel(bag_after, 3);
    let t = s.push(p);
    assert(t.len() > 0);
    if s.len() == 0 {
        assert(t.drop_first() =~= Seq::<u8>::empty());
    } else {
        assert(t[0] == s[0]);
        assert(t.drop_first() =~= s.drop_first().push(p));
        lemma_push(piece::after(mask, s[0]), s.drop_first(), p);
    }
}

/// Where the block of one more reveal begins.
pub proof fn lemma_start_push(mask: u8, len: nat, s: Seq<u8>, p: u8)
    requires
        s.len() < len,
    ensures
        start_of(mask, len, s.push(p)) == start_of(mask, len, s) + branches(
            bag_after(mask, s),
            (len - s.len()) as nat,
            p as nat,
        ).len(),
    decreases s.len(),
{
    reveal_with_fuel(start_of, 3);
    let t = s.push(p);
    assert(t.len() > 0);
    if s.len() == 0 {
        assert(t.drop_first() =~= Seq::<u8>::empty());
    } else {
        assert(t[0] == s[0]);
        assert(t.drop_first() =~= s.drop_first().push(p));
        lemma_start_push(piece::after(mask, s[0]), (len - 1) as nat, s.drop_first(), p);
    }
}

/// A sequence cut in two: its legality, its bag and its place.
pub proof fn lemma_split(mask: u8, s: Seq<u8>, k: int)
    requires
        0 <= k <= s.len(),
    ensures
        legal(mask, s) <==> legal(mask, s.take(k)) && legal(
            bag_after(mask, s.take(k)),
            s.skip(k),
        ),
        bag_after(mask, s) == bag_after(bag_after(mask, s.take(k)), s.skip(k)),
        rank(mask, s) == start_of(mask, s.len(), s.take(k)) + rank(
            bag_after(mask, s.take(k)),
            s.skip(k),
        ),
    decreases s.len(),
{
    if k == 0 {
        assert(s.take(0) =~= Seq::<u8>::empty());
        assert(s.skip(0) =~= s);
    } else {
        let t = s.drop_first();
        assert(s.take(k).drop_first() =~= t.take(k - 1));
        assert(s.skip(k) =~= t.skip(k - 1));
        assert(s.take(k)[0] == s[0]);
        lemma_split(piece::after(mask, s[0]), t, k - 1);
        assert(s.take(k).len() == k);
    }
}

/* ---- packed sequences ---- */

/// Eight to the power `n`.
pub open spec fn pow8(n: nat) -> nat
    decreases n,
{
    if n == 0 {
        1
    } else {
        8 * pow8((n - 1) as nat)
    }
}

/// Three bits a piece, the first piece lowest.
pub open spec fn packed(s: Seq<u8>) -> nat
    decreases s.len(),
{
    if s.len() == 0 {
        0
    } else {
        packed(s.drop_last()) + s.last() as nat * pow8((s.len() - 1) as nat)
    }
}

/// All pieces fit in three bits.
pub open spec fn small(s: Seq<u8>) -> bool {
    forall|i: int| 0 <= i < s.len() ==> s[i] < 8
}

pub proof fn lemma_pow8()
    ensures
        pow8(0) == 1,
        pow8(1) == 8,
        pow8(2) == 64,
        pow8(3) == 512,
        pow8(4) == 4096,
{
    reveal_with_fuel(pow8, 6);
}

pub proof fn lemma_packed_bound(s: Seq<u8>)
    requires
        small(s),
    ensures
        packed(s) < pow8(s.len()),
    decreases s.len(),
{
    if s.len() > 0 {
        lemma_packed_bound(s.drop_last());
        let w = pow8((s.len() - 1) as nat);
        let last = s.last() as nat;
        assert(last <= 7);
        assert(last * w <= 7 * w) by (nonlinear_arith)
            requires
                last <= 7,
        ;
    }
}

/// A packed sequence can be told from others of its length.
pub proof fn lemma_packed_injective(s: Seq<u8>, t: Seq<u8>)
    requires
        small(s),
        small(t),
        s.len() == t.len(),
        packed(s) == packed(t),
    ensures
        s == t,
    decreases s.len(),
{
    if s.len() > 0 {
        let w = pow8((s.len() - 1) as nat);
        lemma_packed_bound(s.drop_last());
        lemma_packed_bound(t.drop_last());
        let (a, b) = (s.last() as nat, t.last() as nat);
        let (x, y) = (packed(s.drop_last()), packed(t.drop_last()));
        assert(a == b) by (nonlinear_arith)
            requires
                x + a * w == y + b * w,
                x < w,
                y < w,
        ;
        lemma_packed_injective(s.drop_last(), t.drop_last());
        assert(s =~= s.drop_last().push(s.last()));
        assert(t =~= t.drop_last().push(t.last()));
    } else {
        assert(s =~= t);
    }
}

/// Put piece `p` at place `idx` of a packed sequence.
pub fn set_hidden(pack: u16, idx: u8, p: Piece) -> (r: u16)
    requires
        idx < 4,
    ensures
        r == (pack & !(0b111u16 << ((3 * idx) as u16))) | ((p as u16) << ((3 * idx) as u16)),
        forall|s: Seq<u8>|
            s.len() == idx && small(s) && p < 8 && pack == #[trigger] packed(s) ==> r == packed(
                s.push(p),
            ),
{
    let shift: u16 = (idx as u16) * 3;
    let r: u16 = (pack & !(0b111u16 << shift)) | ((p as u16) << shift);
    proof {
        lemma_pow8();
        assert forall|s: Seq<u8>|
            s.len() == idx && small(s) && p < 8 && pack == #[trigger] packed(s) implies r == packed(
            s.push(p),
        ) by {
            lemma_packed_bound(s);
            assert(s.push(p).drop_last() =~= s);
            let w: u16 = p as u16;
            assert(idx == 0 || idx == 1 || idx == 2 || idx == 3);
            assert(((shift == 0 && pack < 1) || (shift == 3 && pack < 8) || (shift == 6 && pack
                < 64) || (shift == 9 && pack < 512)) && w < 8 ==> (pack & !(0b111u16 << shift)) | (w
                << shift) == pack + w * (if shift == 0 {
                1u16
            } else if shift == 3 {
                8u16
            } else if shift == 6 {
                64u16
            } else {
                512u16
            })) by (bit_vector);
        }
    }
    r
}

/// The piece at place `idx` of a packed sequence.
pub fn get_hidden(pack: u16, idx: u8) -> (p: Piece)
    requires
        idx <= 5,
    ensures
        p == (pack >> ((3 * idx) as u16)) & 0b111,
        p < 8,
        forall|s: Seq<u8>|
            idx < s.len() <= 4 && small(s) && pack == #[trigger] packed(s) ==> p == s[idx as int],
{
    let shift: u16 = (idx as u16) * 3;
    let q: u16 = (pack >> shift) & 0b111;
    assert(q < 8) by (bit_vector)
        requires
            q == (pack >> shift) & 0b111,
    ;
    proof {
        assert forall|s: Seq<u8>|
            idx < s.len() <= 4 && small(s) && pack == #[trigger] packed(s) implies q
            == s[idx as int] by {
            lemma_digits(s, pack, idx as int);
            assert(idx == 0 || idx == 1 || idx == 2 || idx == 3);
            assert((shift == 0 ==> q == pack % 8) && (shift == 3 ==> q == (pack / 8) % 8) && (shift
                == 6 ==> q == (pack / 64) % 8) && (shift == 9 ==> q == (pack / 512) % 8))
                by (bit_vector)
                requires
                    q == (pack >> shift) & 0b111,
            ;
        }
    }
    q as Piece
}

/// The digits of a packed sequence, base eight.
proof fn lemma_digits(s: Seq<u8>, pack: u16, i: int)
    requires
        0 <= i < s.len() <= 4,
        small(s),
        pack == packed(s),
    ensures
        i == 0 ==> s[0] == pack % 8,
        i == 1 ==> s[1] == (pack / 8) % 8,
        i == 2 ==> s[2] == (pack / 64) % 8,
        i == 3 ==> s[3] == (pack / 512) % 8,
{
    lemma_packed_digits(s);
    lemma_split_digits(digit(s, 0), digit(s, 1), digit(s, 2), digit(s, 3));
}

/// Place `i` of a sequence; past its end, nothing.
pub open spec fn digit(s: Seq<u8>, i: int) -> nat {
    if i < s.len() {
        s[i] as nat
    } else {
        0
    }
}

proof fn lemma_split_digits(a: nat, b: nat, c: nat, d: nat)
    requires
        a < 8,
        b < 8,
        c < 8,
        d < 8,
    ensures
        ({
            let x = a + b * 8 + c * 64 + d * 512;
            &&& x % 8 == a
            &&& (x / 8) % 8 == b
            &&& (x / 64) % 8 == c
            &&& (x / 512) % 8 == d
            &&& x % 64 == a + b * 8
            &&& x % 512 == a + b * 8 + c * 64
            &&& x % 4096 == x
        }),
{
    let x = a + b * 8 + c * 64 + d * 512;
    assert(x == 8 * (b + c * 8 + d * 64) + a);
    assert(x / 8 == b + c * 8 + d * 64);
    assert(x / 8 == 8 * (c + d * 8) + b);
    assert(x / 64 == c + d * 8);
    assert(x / 512 == d);
}

/// The packed form written out, for the lengths that fit a word of sixteen bits.
pub open spec fn digits(s: Seq<u8>) -> nat {
    digit(s, 0) + digit(s, 1) * 8 + digit(s, 2) * 64 + digit(s, 3) * 512
}

proof fn lemma_packed_digits(s: Seq<u8>)
    requires
        s.len() <= 4,
    ensures
        packed(s) == digits(s),
    decreases s.len(),
{
    lemma_pow8();
    if s.len() > 0 {
        let n = s.len();
        lemma_packed_digits(s.drop_last());
        let w = pow8((n - 1) as nat);
        let x = s.last() as nat;
        assert(w == 1 ==> x * w == x) by (nonlinear_arith);
        assert(w == 8 ==> x * w == x * 8) by (nonlinear_arith);
        assert(w == 64 ==> x * w == x * 64) by (nonlinear_arith);
        assert(w == 512 ==> x * w == x * 512) by (nonlinear_arith);
        assert(n == 1 || n == 2 || n == 3 || n == 4);
    }
}

/// The bits of the first `len` places.
pub open spec fn low_places(len: u8) -> u16 {
    if len == 0 {
        0
    } else if len == 1 {
        0b111
    } else if len == 2 {
        0b11_1111
    } else if len == 3 {
        0b1_1111_1111
    } else if len == 4 {
        0b1111_1111_1111
    } else {
        0b111_1111_1111_1111
    }
}

/// The packed form of the first `len` pieces.
pub fn prefix_pack(pack: u16, len: u8) -> (r: u16)
    requires
        len <= 5,
    ensures
        r == pack & low_places(len),
        forall|s: Seq<u8>|
            len <= s.len() <= 4 && small(s) && pack == #[trigger] packed(s) ==> r == packed(
                s.take(len as int),
            ),
{
    let r: u16 = if len == 0 {
        0
    } else if len == 1 {
        pack & 0b111
    } else if len == 2 {
        pack & 0b11_1111
    } else if len == 3 {
        pack & 0b1_1111_1111
    } else if len == 4 {
        pack & 0b1111_1111_1111
    } else {
        pack & 0b111_1111_1111_1111
    };
    proof {
        assert((pack & 0) == 0 && (pack & 0b111) == pack % 8 && (pack & 0b11_1111) == pack % 64 && (pack
            & 0b1_1111_1111) == pack % 512 && (pack & 0b1111_1111_1111) == pack % 4096)
            by (bit_vector);
        assert forall|s: Seq<u8>|
            len <= s.len() <= 4 && small(s) && pack == #[trigger] packed(s) implies r == packed(
            s.take(len as int),
        ) by {
            lemma_pow8();
            lemma_packed_take(s, len as int);
        }
    }
    r
}

proof fn lemma_packed_take(s: Seq<u8>, k: int)
    requires
        0 <= k <= s.len() <= 4,
        small(s),
    ensures
        packed(s.take(k)) == packed(s) % pow8(k as nat),
{
    lemma_pow8();
    lemma_packed_digits(s);
    lemma_packed_digits(s.take(k));
    lemma_split_digits(digit(s, 0), digit(s, 1), digit(s, 2), digit(s, 3));
    let t = s.take(k);
    assert forall|i: int| 0 <= i < 4 implies #[trigger] digit(t, i) == if i < k {
        digit(s, i)
    } else {
        0
    } by {}
    assert(k == 0 || k == 1 || k == 2 || k == 3 || k == 4);
    if k == s.len() {
        assert(s.take(k) =~= s);
    }
}

/* ---- bags as they come ---- */

/// The bag that a mask stands for: an empty one is full again.
pub open spec fn canonical(mask: u8) -> u8 {
    if mask % 128 == 0 {
        FULL_BAG
    } else {
        mask % 128
    }
}

pub proof fn lemma_canonical(mask: u8)
    ensures
        piece::bag(canonical(mask)),
        piece::bag(mask) ==> canonical(mask) == mask,
{
}

pub fn canonical_mask(mask: u8) -> (r: u8)
    ensures
        r == canonical(mask),
{
    assert(mask & 127 == mask % 128) by (bit_vector);
    let m: u8 = mask & FULL_BAG;
    if m == 0 {
        FULL_BAG
    } else {
        m
    }
}

/// The pieces of the bag that a mask stands for.
pub fn pieces_in_mask(mask: u8) -> (r: Vec<Piece>)
    ensures
        r@ == piece::pieces_of(canonical(mask)),
{
    piece::pieces(canonical_mask(mask))
}

/// The bag after the first `len` pieces of a packed sequence.
pub(crate) fn mask_after_hidden_prefix(initial_mask: u8, pack: u16, len: u8, Ghost(s): Ghost<Seq<u8>>) -> (r:
    u8)
    requires
        len <= s.len() <= 4,
        forall|i: int| 0 <= i < s.len() ==> s[i] < 7,
        pack == packed(s),
    ensures
        r == bag_after(canonical(initial_mask), s.take(len as int)),
        piece::bag(r),
{
    let mut mask: u8 = canonical_mask(initial_mask);
    let mut i: u8 = 0;
    assert(s.take(0) =~= Seq::<u8>::empty());
    proof {
        lemma_canonical(initial_mask);
    }
    while i < len
        invariant
            i <= len,
            len <= s.len() <= 4,
            forall|i: int| 0 <= i < s.len() ==> s[i] < 7,
            pack == packed(s),
            mask == bag_after(canonical(initial_mask), s.take(i as int)),
            piece::bag(mask),
        decreases len - i,
    {
        assert(small(s));
        let p: Piece = get_hidden(pack, i);
        proof {
            assert(s.take(i + 1) =~= s.take(i as int).push(p));
            lemma_push(canonical(initial_mask), s.take(i as int), p);
            piece::lemma_after(mask, p);
        }
        mask = after_reveal(mask, p);
        i = i + 1;
    }
    mask
}

/* ---- tables ---- */

/// How many sequences of each length each bag has, and where among them each first piece begins.
pub struct SuffixTables {
    pub cnt: Vec<Vec<u32>>,
    pub off: Vec<Vec<Vec<u32>>>,
}

impl SuffixTables {
    pub open spec fn wf(&self) -> bool {
        &&& self.cnt@.len() == 128
        &&& self.off@.len() == 128
        &&& forall|m: int| 0 <= m < 128 ==> (#[trigger] self.cnt@[m])@.len() == 5
        &&& forall|m: int| 0 <= m < 128 ==> (#[trigger] self.off@[m])@.len() == 5
        &&& forall|m: int, l: int|
            0 <= m < 128 && 0 <= l < 5 ==> (#[trigger] self.off@[m]@[l])@.len() == 7
        &&& forall|m: int, l: int|
            0 < m < 128 && 0 <= l < 5 ==> #[trigger] self.cnt@[m]@[l] == reveals(
                m as u8,
                l as nat,
            ).len()
        &&& forall|m: int, l: int, q: int|
            0 < m < 128 && 1 <= l < 5 && 0 <= q < 7 && piece::in_bag(m as u8, q)
                ==> #[trigger] self.off@[m]@[l]@[q] == branches(m as u8, l as nat, q as nat).len()
    }
}

/// The row of one bag and one length.
fn suffix_row(m: u8, len: usize, cnt: &Vec<Vec<u32>>) -> (r: (u32, Vec<u32>))
    requires
        piece::bag(m),
        1 <= len <= 4,
        cnt@.len() == 128,
        forall|k: int| 0 <= k < 128 ==> len <= (#[trigger] cnt@[k])@.len(),
        forall|k: int|
            0 < k < 128 ==> #[trigger] cnt@[k]@[len - 1] == reveals(
                k as u8,
                (len - 1) as nat,
            ).len(),
    ensures
        r.0 == reveals(m, len as nat).len(),
        r.1@.len() == 7,
        forall|q: int|
            0 <= q < 7 && piece::in_bag(m, q) ==> #[trigger] r.1@[q] == branches(
                m,
                len as nat,
                q as nat,
            ).len(),
{
    let mut acc: u32 = 0;
    let mut row: Vec<u32> = Vec::new();
    let mut q: u8 = 0;
    while q < 7
        invariant
            q <= 7,
            piece::bag(m),
            1 <= len <= 4,
            cnt@.len() == 128,
            forall|k: int| 0 <= k < 128 ==> len <= (#[trigger] cnt@[k])@.len(),
            forall|k: int|
                0 < k < 128 ==> #[trigger] cnt@[k]@[len - 1] == reveals(
                    k as u8,
                    (len - 1) as nat,
                ).len(),
            acc == branches(m, len as nat, q as nat).len(),
            row@.len() == q,
            forall|p: int|
                0 <= p < q && piece::in_bag(m, p) ==> #[trigger] row@[p] == branches(
                    m,
                    len as nat,
                    p as nat,
                ).len(),
        decreases 7 - q,
    {
        if has(m, q) {
            row.push(acc);
            let next: u8 = after_reveal(m, q);
            proof {
                piece::lemma_after(m, q);
                lemma_reveals_bound(m, len as nat);
                assert(branches(m, len as nat, (q + 1) as nat).len() <= 2401);
                assert(cnt@[next as int]@[len - 1] == reveals(next, (len - 1) as nat).len());
            }
            acc = acc + cnt[next as usize][len - 1];
        } else {
            row.push(0);
        }
        q = q + 1;
    }
    (acc, row)
}

pub fn build_suffix_tables() -> (t: SuffixTables)
    ensures
        t.wf(),
{
    let mut cnt: Vec<Vec<u32>> = Vec::new();
    let mut off: Vec<Vec<Vec<u32>>> = Vec::new();
    let mut m: usize = 0;
    while m < 128
        invariant
            m <= 128,
            cnt@.len() == m,
            off@.len() == m,
            forall|k: int|
                0 <= k < m ==> (#[trigger] cnt@[k])@.len() == 1 && cnt@[k]@[0] == 1,
            forall|k: int| 0 <= k < m ==> (#[trigger] off@[k])@.len() == 1,
            forall|k: int| 0 <= k < m ==> (#[trigger] off@[k]@[0])@.len() == 7,
        decreases 128 - m,
    {
        cnt.push(vec![1u32]);
        let mut first: Vec<Vec<u32>> = Vec::new();
        let row: Vec<u32> = vec![0u32; 7];
        first.push(row);
        off.push(first);
        m = m + 1;
    }
    let mut len: usize = 1;
    while len <= 4
        invariant
            1 <= len <= 5,
            cnt@.len() == 128,
            off@.len() == 128,
            forall|k: int| 0 <= k < 128 ==> (#[trigger] cnt@[k])@.len() == len,
            forall|k: int| 0 <= k < 128 ==> (#[trigger] off@[k])@.len() == len,
            forall|k: int, l: int|
                0 <= k < 128 && 0 <= l < len ==> (#[trigger] off@[k]@[l])@.len() == 7,
            forall|k: int, l: int|
                0 < k < 128 && 0 <= l < len ==> #[trigger] cnt@[k]@[l] == reveals(
                    k as u8,
                    l as nat,
                ).len(),
            forall|k: int, l: int, q: int|
                0 < k < 128 && 1 <= l < len && 0 <= q < 7 && piece::in_bag(k as u8, q)
                    ==> #[trigger] off@[k]@[l]@[q] == branches(k as u8, l as nat, q as nat).len(),
        decreases 5 - len,
    {
        let mut m: usize = 0;
        while m < 128
            invariant
                m <= 128,
                1 <= len <= 4,
                cnt@.len() == 128,
                off@.len() == 128,
                forall|k: int|
                    0 <= k < 128 ==> (#[trigger] cnt@[k])@.len() == if k < m {
                        len + 1
                    } else {
                        len as int
                    },
                forall|k: int|
                    0 <= k < 128 ==> (#[trigger] off@[k])@.len() == if k < m {
                        len + 1
                    } else {
                        len as int
                    },
                forall|k: int, l: int|
                    0 <= k < 128 && 0 <= l < off@[k]@.len() ==> (#[trigger] off@[k]@[l])@.len()
                        == 7,
                forall|k: int, l: int|
                    0 < k < 128 && 0 <= l < cnt@[k]@.len() ==> #[trigger] cnt@[k]@[l] == reveals(
                        k as u8,
                        l as nat,
                    ).len(),
                forall|k: int, l: int, q: int|
                    0 < k < 128 && 1 <= l < off@[k]@.len() && 0 <= q < 7 && piece::in_bag(
                        k as u8,
                        q,
                    ) ==> #[trigger] off@[k]@[l]@[q] == branches(
                        k as u8,
                        l as nat,
                        q as nat,
                    ).len(),
            decreases 128 - m,
        {
            let (total, row): (u32, Vec<u32>) = if m == 0 {
                (0, vec![0u32; 7])
            } else {
                suffix_row(m as u8, len, &cnt)
            };
            cnt[m].push(total);
            off[m].push(row);
            m = m + 1;
        }
        len = len + 1;
    }
    SuffixTables { cnt, off }
}

/// A run of leaves: the sequences that share a beginning.
#[derive(Clone, Copy, Debug)]
pub struct SeqRange {
    pub start: u32,
    pub len: u32,
}

/// The key under which the run of a beginning is kept.
pub open spec fn range_word(s: Seq<u8>) -> int {
    s.len() as int * 65536 + packed(s) as int
}

pub fn range_key(len: u8, pack: u16) -> (k: u64)
    ensures
        k == len * 65536 + pack,
{
    (len as u64) * 65536 + pack as u64
}

/// The run of a beginning among the sequences of four.
pub open spec fn range_of(mask: u8, s: Seq<u8>) -> (nat, nat) {
    (start_of(mask, 4, s), reveals(bag_after(mask, s), (4 - s.len()) as nat).len())
}

/// Beginnings have different keys.
pub proof fn lemma_range_word(s: Seq<u8>, t: Seq<u8>)
    requires
        s.len() <= 4,
        t.len() <= 4,
        small(s),
        small(t),
        range_word(s) == range_word(t),
    ensures
        s == t,
{
    lemma_pow8();
    lemma_packed_bound(s);
    lemma_packed_bound(t);
    assert(s.len() == t.len());
    lemma_packed_injective(s, t);
}

pub proof fn lemma_small(mask: u8, s: Seq<u8>)
    requires
        legal(mask, s),
    ensures
        small(s),
        forall|i: int| 0 <= i < s.len() ==> s[i] < 7,
{
    assert forall|i: int| 0 <= i < s.len() implies s[i] < 7 by {
        lemma_legal_small(mask, s, i);
    }
}

/// Every entry is the run of a legal beginning.
pub open spec fn ranges_true(mask: u8, m: Map<u64, SeqRange>) -> bool {
    forall|k: u64| #[trigger]
        m.dom().contains(k) ==> exists|s: Seq<u8>|
            s.len() <= 4 && #[trigger] legal(mask, s) && k == range_word(s) && (
            m[k].start as nat, m[k].len as nat) == range_of(mask, s)
}

/// Every legal continuation of `s` has an entry.
pub open spec fn ranges_cover(mask: u8, m: Map<u64, SeqRange>, s: Seq<u8>) -> bool {
    forall|t: Seq<u8>|
        s.len() <= t.len() <= 4 && t.take(s.len() as int) == s && #[trigger] legal(mask, t)
            ==> m.dom().contains(range_word(t) as u64)
}

/// The table of all runs.
pub open spec fn ranges_ok(mask: u8, m: Map<u64, SeqRange>) -> bool {
    ranges_true(mask, m) && ranges_cover(mask, m, Seq::empty())
}

/// What the table says of a beginning.
pub proof fn lemma_ranges(mask: u8, m: Map<u64, SeqRange>, s: Seq<u8>)
    requires
        ranges_ok(mask, m),
        s.len() <= 4,
        small(s),
    ensures
        m.dom().contains(range_word(s) as u64) <==> legal(mask, s),
        legal(mask, s) ==> m[range_word(s) as u64].start == range_of(mask, s).0
            && m[range_word(s) as u64].len == range_of(mask, s).1,
{
    let k = range_word(s) as u64;
    lemma_pow8();
    lemma_packed_bound(s);
    if legal(mask, s) {
        assert(s.take(0) =~= Seq::<u8>::empty());
    }
    if m.dom().contains(k) {
        let t = choose|t: Seq<u8>|
            t.len() <= 4 && #[trigger] legal(mask, t) && k == range_word(t) && (
            m[k].start as nat, m[k].len as nat) == range_of(mask, t);
        lemma_small(mask, t);
        lemma_range_word(s, t);
    }
}

/// Enter the run of a beginning and of all its continuations.
pub(crate) fn build_ranges(
    mask: u8,
    idx: u8,
    pack: u16,
    next_leaf: &mut u32,
    out: &mut Table<SeqRange>,
    Ghost(initial): Ghost<u8>,
    Ghost(s): Ghost<Seq<u8>>,
) -> (total: u32)
    requires
        piece::bag(initial),
        legal(initial, s),
        s.len() == idx,
        idx <= 4,
        pack == packed(s),
        mask == bag_after(initial, s),
        *old(next_leaf) == start_of(initial, 4, s),
        *old(next_leaf) + reveals(mask, (4 - idx) as nat).len() <= reveals(initial, 4).len(),
        old(out).wf(),
        ranges_true(initial, old(out)@),
    ensures
        total == reveals(mask, (4 - idx) as nat).len(),
        *final(next_leaf) == *old(next_leaf) + total,
        final(out).wf(),
        ranges_true(initial, final(out)@),
        ranges_cover(initial, final(out)@, s),
        forall|k: u64| #[trigger] old(out)@.dom().contains(k) ==> final(out)@.dom().contains(k),
    decreases 4 - idx,
{
    proof {
        lemma_small(initial, s);
        lemma_bag_after(initial, s);
        lemma_pow8();
        lemma_packed_bound(s);
        lemma_reveals_bound(initial, 4);
        lemma_reveals_bound(mask, (4 - idx) as nat);
        assert(pow8(idx as nat) <= 4096);
        lemma_canonical(mask);
    }
    let start: u32 = *next_leaf;
    let mut total: u32 = 0;
    if idx == 4 {
        total = 1;
        *next_leaf = start + 1;
    } else {
        let list = pieces_in_mask(mask);
        let mut j: usize = 0;
        proof {
            piece::lemma_pieces_below(mask, 7);
            lemma_pieces_prefix(mask, (4 - idx) as nat, 0);
        }
        while j < list.len()
            invariant
                j <= list@.len(),
                list@ == piece::pieces_of(mask),
                idx < 4,
                piece::bag(initial),
                piece::bag(mask),
                legal(initial, s),
                small(s),
                s.len() == idx,
                pack == packed(s),
                mask == bag_after(initial, s),
                start == start_of(initial, 4, s),
                start + reveals(mask, (4 - idx) as nat).len() <= reveals(initial, 4).len(),
                reveals(initial, 4).len() <= 2401,
                total == listed(mask, (4 - idx) as nat, j as int),
                *next_leaf == start + total,
                out.wf(),
                ranges_true(initial, out@),
                forall|i: int|
                    0 <= i < j ==> ranges_cover(initial, out@, s.push(#[trigger] list@[i])),
                forall|k: u64| #[trigger] old(out)@.dom().contains(k) ==> out@.dom().contains(k),
            decreases list@.len() - j,
        {
            let p: Piece = list[j];
            proof {
                piece::lemma_pieces_below(mask, 7);
                assert(piece::in_bag(mask, piece::pieces_of(mask)[j as int] as int));
                lemma_pieces_prefix(mask, (4 - idx) as nat, j as int);
                lemma_pieces_prefix(mask, (4 - idx) as nat, j + 1);
                lemma_listed_bound(mask, (4 - idx) as nat, j + 1);
                lemma_push(initial, s, p);
                lemma_start_push(initial, 4, s, p);
            }
            let ghost before = out@;
            let more: u32 = build_ranges(
                after_reveal(mask, p),
                idx + 1,
                set_hidden(pack, idx, p),
                next_leaf,
                out,
                Ghost(initial),
                Ghost(s.push(p)),
            );
            total = total + more;
            proof {
                assert forall|i: int| 0 <= i < j + 1 implies ranges_cover(
                    initial,
                    out@,
                    s.push(#[trigger] list@[i]),
                ) by {
                    if i < j {
                        assert(ranges_cover(initial, before, s.push(list@[i])));
                    }
                }
            }
            j = j + 1;
        }
        proof {
            lemma_pieces_prefix(mask, (4 - idx) as nat, list@.len() as int);
        }
    }
    let ghost before = out@;
    let entry = SeqRange { start, len: total };
    out.insert(range_key(idx, pack), entry);
    proof {
        let k0 = range_word(s) as u64;
        assert forall|k: u64| #[trigger] out@.dom().contains(k) implies exists|t: Seq<u8>|
            t.len() <= 4 && #[trigger] legal(initial, t) && k == range_word(t) && (
            out@[k].start as nat, out@[k].len as nat) == range_of(initial, t) by {
            if k == k0 {
                assert(legal(initial, s));
            } else {
                assert(before.dom().contains(k));
            }
        }
        assert forall|t: Seq<u8>|
            s.len() <= t.len() <= 4 && t.take(s.len() as int) == s && #[trigger] legal(
                initial,
                t,
            ) implies out@.dom().contains(range_word(t) as u64) by {
            if t.len() == s.len() {
                assert(t =~= s);
            } else {
                let p = t[s.len() as int];
                assert(t.take(s.len() as int + 1) =~= s.push(p));
                lemma_split(initial, t, s.len() as int + 1);
                lemma_push(initial, s, p);
                piece::lemma_pieces_below(mask, 7);
                piece::lemma_in_bag_range(mask, p as int);
                let list = piece::pieces_of(mask);
                assert(list.contains(p));
                let i = choose|i: int| 0 <= i < list.len() && list[i] == p;
                assert(ranges_cover(initial, before, s.push(list[i])));
                assert(before.dom().contains(range_word(t) as u64));
            }
        }
    }
    total
}

/// How many sequences start with one of the first `j` pieces of the bag.
pub open spec fn listed(mask: u8, len: nat, j: int) -> nat {
    if 0 <= j < piece::pieces_of(mask).len() {
        branches(mask, len, piece::pieces_of(mask)[j] as nat).len()
    } else {
        reveals(mask, len).len()
    }
}

/// Below the first listed piece there is no branch; after the `j`-th come those of the next.
proof fn lemma_pieces_prefix(mask: u8, len: nat, j: int)
    requires
        piece::bag(mask),
        0 < len,
        0 <= j <= piece::pieces_of(mask).len(),
    ensures
        j == 0 ==> listed(mask, len, j) == 0,
        0 < j ==> listed(mask, len, j) == listed(mask, len, j - 1) + reveals(
            piece::after(mask, piece::pieces_of(mask)[j - 1]),
            (len - 1) as nat,
        ).len(),
{
    lemma_pieces_place(mask, 7);
    piece::lemma_pieces_some(mask);
    let list = piece::pieces_of(mask);
    if j == 0 {
        lemma_branches_gap(mask, len, 0, list[0] as nat);
    } else {
        let p = list[j - 1];
        assert(piece::in_bag(mask, p as int));
        let next: nat = if j < list.len() {
            list[j] as nat
        } else {
            7
        };
        lemma_branches_gap(mask, len, (p + 1) as nat, next);
    }
}

proof fn lemma_listed_bound(mask: u8, len: nat, j: int)
    requires
        piece::bag(mask),
        0 < len,
        0 <= j <= piece::pieces_of(mask).len(),
    ensures
        listed(mask, len, j) <= reveals(mask, len).len(),
{
    lemma_pieces_place(mask, 7);
    if j < piece::pieces_of(mask).len() {
        let q = piece::pieces_of(mask)[j];
        lemma_branches_monotone(mask, len, q as nat, 7);
    }
}

proof fn lemma_branches_monotone(mask: u8, len: nat, m: nat, n: nat)
    requires
        m <= n,
    ensures
        branches(mask, len, m).len() <= branches(mask, len, n).len(),
    decreases n,
{
    if m < n {
        lemma_branches_monotone(mask, len, m, (n - 1) as nat);
    }
}

/// Pieces outside the bag add no branch.
pub proof fn lemma_branches_gap(mask: u8, len: nat, m: nat, n: nat)
    requires
        m <= n,
        forall|p: int| m <= p < n ==> !piece::in_bag(mask, p),
    ensures
        branches(mask, len, m) == branches(mask, len, n),
    decreases n,
{
    if m < n {
        lemma_branches_gap(mask, len, m, (n - 1) as nat);
    }
}

/// The list of pieces is ascending and skips nothing in the bag.
proof fn lemma_pieces_place(mask: u8, n: nat)
    requires
        n <= 7,
    ensures
        forall|i: int|
            0 <= i < piece::pieces_below(mask, n).len() ==> piece::in_bag(
                mask,
                #[trigger] piece::pieces_below(mask, n)[i] as int,
            ) && piece::pieces_below(mask, n)[i] < n,
        forall|i: int, p: int|
            0 <= i < piece::pieces_below(mask, n).len() && (if i == 0 {
                0
            } else {
                piece::pieces_below(mask, n)[i - 1] + 1
            }) <= p < #[trigger] piece::pieces_below(mask, n)[i] ==> !(#[trigger] piece::in_bag(
                mask,
                p,
            )),
        forall|i: int, j: int|
            0 <= i < j < piece::pieces_below(mask, n).len() ==> piece::pieces_below(mask, n)[i]
                < piece::pieces_below(mask, n)[j],
        forall|p: int|
            (if piece::pieces_below(mask, n).len() == 0 {
                0
            } else {
                piece::pieces_below(mask, n).last() + 1
            }) <= p < n ==> !(#[trigger] piece::in_bag(mask, p)),
    decreases n,
{
    if n > 0 {
        lemma_pieces_place(mask, (n - 1) as nat);
        let was = piece::pieces_below(mask, (n - 1) as nat);
        let now = piece::pieces_below(mask, n);
        assert(forall|i: int| 0 <= i < was.len() ==> now[i] == was[i]);
        assert(now.len() == was.len() || (now.len() == was.len() + 1 && now.last() == n - 1
            && piece::in_bag(mask, n - 1)));
        assert forall|i: int| 0 <= i < now.len() implies piece::in_bag(
            mask,
            #[trigger] now[i] as int,
        ) && now[i] < n by {
            if i < was.len() {
                assert(piece::in_bag(mask, was[i] as int));
            }
        }
        assert forall|i: int, p: int|
            0 <= i < now.len() && (if i == 0 {
                0
            } else {
                now[i - 1] + 1
            }) <= p < #[trigger] now[i] implies !(#[trigger] piece::in_bag(mask, p)) by {
            if i < was.len() {
                assert(now[i] == was[i]);
            }
        }
    }
}

/* ---- what the bag can reveal ---- */

/// The list holds exactly the sequences that the bag can reveal, each once, and smaller pieces come
/// first: of two sequences, the one with the smaller piece where they part stands before the other.
pub proof fn law_reveals_are_the_legal_sequences(mask: u8, len: nat, s: Seq<u8>, t: Seq<u8>, d: int)
    ensures
        reveals(mask, len).contains(s) <==> legal(mask, s) && s.len() == len,
        reveals(mask, len).no_duplicates(),
        legal(mask, s) && legal(mask, t) && s.len() == t.len() && 0 <= d < s.len() && s.take(d)
            == t.take(d) && s[d] < t[d] ==> rank(mask, s) < rank(mask, t),
        legal(mask, s) ==> reveals(mask, s.len())[rank(mask, s) as int] == s,
{
    let list = reveals(mask, len);
    if list.contains(s) {
        let i = choose|i: int| 0 <= i < list.len() && list[i] == s;
        lemma_reveals_legal(mask, len, i);
    }
    if legal(mask, s) {
        lemma_rank(mask, s);
    }
    assert forall|i: int, j: int| 0 <= i < list.len() && 0 <= j < list.len() && i != j implies list[i]
        != list[j] by {
        lemma_reveals_legal(mask, len, i);
        lemma_reveals_legal(mask, len, j);
    }
    if legal(mask, s) && legal(mask, t) && s.len() == t.len() && 0 <= d < s.len() && s.take(d)
        == t.take(d) && s[d] < t[d] {
        lemma_rank_order(mask, s, t, d);
    }
}

proof fn lemma_rank_order(mask: u8, s: Seq<u8>, t: Seq<u8>, d: int)
    requires
        legal(mask, s),
        legal(mask, t),
        s.len() == t.len(),
        0 <= d < s.len(),
        s.take(d) == t.take(d),
        s[d] < t[d],
    ensures
        rank(mask, s) < rank(mask, t),
    decreases d,
{
    broadcast use piece::lemma_in_bag_range;

    let len = s.len();
    let a = s.drop_first();
    let b = t.drop_first();
    if d == 0 {
        lemma_rank(piece::after(mask, s[0]), a);
        assert(branches(mask, len, (s[0] + 1) as nat).len() == branches(mask, len, s[0] as nat).len()
            + reveals(piece::after(mask, s[0]), (len - 1) as nat).len());
        lemma_branches_monotone(mask, len, (s[0] + 1) as nat, t[0] as nat);
    } else {
        assert(s.take(d)[0] == s[0] && t.take(d)[0] == t[0]);
        assert(a.take(d - 1) =~= s.take(d).drop_first());
        assert(b.take(d - 1) =~= t.take(d).drop_first());
        lemma_rank_order(piece::after(mask, s[0]), a, b, d - 1);
    }
}

/// Drawing from a full bag, no piece comes twice before the bag is empty.
pub proof fn law_a_bag_deals_each_piece_once(s: Seq<u8>)
    requires
        s.len() <= 7,
    ensures
        legal(FULL_BAG, s) <==> s.no_duplicates() && forall|i: int|
            0 <= i < s.len() ==> s[i] < 7,
        legal(FULL_BAG, s) && s.len() < 7 ==> forall|p: int| #[trigger]
            piece::in_bag(bag_after(FULL_BAG, s), p) <==> 0 <= p < 7 && !s.contains(p as u8),
        legal(FULL_BAG, s) && s.len() == 7 ==> bag_after(FULL_BAG, s) == FULL_BAG,
    decreases s.len(),
{
    broadcast use piece::lemma_in_bag_range;

    if s.len() == 0 {
        assert forall|p: int| 0 <= p < 7 implies #[trigger] piece::in_bag(FULL_BAG, p) by {
            piece::lemma_after_has(0, 0, p);
        }
    } else {
        let front = s.drop_last();
        let q = s.last();
        let bag = bag_after(FULL_BAG, front);
        assert(s =~= front.push(q));
        law_a_bag_deals_each_piece_once(front);
        lemma_push(FULL_BAG, front, q);
        assert forall|p: u8| #[trigger] front.contains(p) implies s.contains(p) by {
            let i = choose|i: int| 0 <= i < front.len() && front[i] == p;
            assert(s[i] == p);
        }
        if s.no_duplicates() && forall|i: int| 0 <= i < s.len() ==> s[i] < 7 {
            assert(front.no_duplicates());
            assert(s[s.len() - 1] == q);
            assert(!front.contains(q)) by {
                if front.contains(q) {
                    let i = choose|i: int| 0 <= i < front.len() && front[i] == q;
                    assert(s[i] == s[s.len() - 1]);
                }
            }
            assert(piece::in_bag(bag, q as int));
        }
        if legal(FULL_BAG, s) {
            assert(!front.contains(q));
            assert forall|i: int, j: int|
                0 <= i < s.len() && 0 <= j < s.len() && i != j implies s[i] != s[j] by {
                if i < front.len() && j < front.len() {
                    assert(front[i] != front[j]);
                } else if i < front.len() {
                    assert(front.contains(front[i]));
                } else {
                    assert(front.contains(front[j]));
                }
            }
            lemma_bag_after(FULL_BAG, front);
            if s.len() < 7 {
                lemma_room_left(s);
                let w = choose|w: u8| w < 7 && !(#[trigger] s.contains(w));
                assert(!front.contains(w));
                assert(w != q) by {
                    assert(s[s.len() - 1] == q);
                }
                assert(piece::in_bag(bag, w as int) && w != q);
                assert forall|p: int| #[trigger] piece::in_bag(bag_after(FULL_BAG, s), p) <==> 0 <= p
                    < 7 && !s.contains(p as u8) by {
                    if 0 <= p < 7 {
                        piece::law_after_draw(bag, q, p);
                        if s.contains(p as u8) {
                            let i = choose|i: int| 0 <= i < s.len() && s[i] == p as u8;
                            if i < front.len() {
                                assert(front[i] == p as u8);
                            }
                        }
                        assert(s[s.len() - 1] == q);
                    }
                }
            } else {
                assert forall|p: int| piece::in_bag(bag, p) implies p == q by {
                    if p != q {
                        lemma_all_dealt(s, p as u8);
                        let i = choose|i: int| 0 <= i < s.len() && s[i] == p as u8;
                        assert(front[i] == p as u8);
                    }
                }
                assert forall|p: int| 0 <= p < 7 implies piece::in_bag(
                    bag_after(FULL_BAG, s),
                    p,
                ) by {
                    piece::law_after_draw(bag, q, p);
                }
                piece::lemma_after(bag, q);
                piece::lemma_all_in_is_full(bag_after(FULL_BAG, s));
            }
        }
    }
}

/// Fewer than seven pieces leave one out.
proof fn lemma_room_left(s: Seq<u8>)
    requires
        s.len() < 7,
    ensures
        exists|w: u8| w < 7 && !(#[trigger] s.contains(w)),
{
    if forall|w: u8| w < 7 ==> #[trigger] s.contains(w) {
        let all = Set::new(|p: int| 0 <= p < 7);
        vstd::set_lib::lemma_int_range(0, 7);
        assert(all =~= vstd::set_lib::set_int_range(0, 7));
        let got = s.map_values(|p: u8| p as int).to_set();
        s.map_values(|p: u8| p as int).lemma_cardinality_of_set();
        assert forall|p: int| all.contains(p) implies got.contains(p) by {
            assert(s.contains(p as u8));
            let i = choose|i: int| 0 <= i < s.len() && s[i] == p as u8;
            assert(s.map_values(|p: u8| p as int)[i] == p);
        }
        vstd::set_lib::lemma_len_subset(all, got);
    }
}

/// Seven different pieces are all.
proof fn lemma_all_dealt(s: Seq<u8>, p: u8)
    requires
        s.len() == 7,
        s.no_duplicates(),
        forall|i: int| 0 <= i < s.len() ==> s[i] < 7,
        p < 7,
    ensures
        s.contains(p),
{
    if !s.contains(p) {
        let t = s.map_values(|q: u8| q as int);
        assert(t.no_duplicates());
        t.unique_seq_to_set();
        let all = vstd::set_lib::set_int_range(0, 7).remove(p as int);
        vstd::set_lib::lemma_int_range(0, 7);
        assert forall|x: int| t.to_set().contains(x) implies all.contains(x) by {
            let i = choose|i: int| 0 <= i < t.len() && t[i] == x;
            assert(s[i] as int == x);
        }
        vstd::set_lib::lemma_len_subset(t.to_set(), all);
    }
}

/// A bag is told by its pieces; one without any is a full one.
pub proof fn law_canonical_bag(mask: u8, p: int)
    ensures
        (exists|q: int| piece::in_bag(mask, q)) ==> (piece::in_bag(canonical(mask), p)
            <==> piece::in_bag(mask, p)),
        !(exists|q: int| piece::in_bag(mask, q)) ==> (piece::in_bag(canonical(mask), p) <==> 0 <= p
            < 7),
{
    broadcast use piece::lemma_in_bag_range;

    reveal(piece::in_bag);
    let low: u8 = mask % 128;
    assert forall|q: int| #[trigger] piece::in_bag(low, q) == piece::in_bag(mask, q) by {
        if 0 <= q < 7 {
            let k: u8 = q as u8;
            assert(((mask % 128) & (1u8 << k)) == (mask & (1u8 << k))) by (bit_vector)
                requires
                    k < 7,
            ;
        }
    }
    if low == 0 {
        if exists|q: int| piece::in_bag(mask, q) {
            let q = choose|q: int| piece::in_bag(mask, q);
            assert(piece::in_bag(low, q));
            piece::lemma_after_has(0, 0, q);
        }
        if 0 <= p < 7 {
            piece::lemma_after_has(0, 0, p);
        }
    } else {
        let q = piece::lemma_bag_holds(low);
        assert(piece::in_bag(mask, q));
    }
}

} // verus!
