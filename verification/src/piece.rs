//! Pieces and the bag that they are dealt from. A bag is a mask with bit `p` set while piece `p`
//! is still in it; when the last piece is drawn the bag is full again.

use vstd::prelude::*;
use vstd::string::StringExecFns;

verus! {

pub type Piece = u8;

pub const I: Piece = 0;

pub const J: Piece = 1;

pub const L: Piece = 2;

pub const O: Piece = 3;

pub const S: Piece = 4;

pub const T: Piece = 5;

pub const Z: Piece = 6;

pub const PIECE_COUNT: usize = 7;

pub const FULL_BAG: u8 = 0b111_1111;

pub const PIECE_ORDER: [char; 7] = ['I', 'J', 'L', 'O', 'S', 'T', 'Z'];

/// Piece `p` is in the bag.
#[verifier::opaque]
pub open spec fn in_bag(mask: u8, p: int) -> bool {
    0 <= p < 7 && mask & (1u8 << (p as u8)) != 0
}

/// The bag after `p` has been drawn.
pub open spec fn after(mask: u8, p: u8) -> u8 {
    if mask & !(1u8 << p) == 0 {
        FULL_BAG
    } else {
        mask & !(1u8 << p)
    }
}

/// A bag that holds something and nothing but pieces.
pub open spec fn bag(mask: u8) -> bool {
    0 < mask < 128
}

/// The pieces below `n` in the bag, ascending.
pub open spec fn pieces_below(mask: u8, n: nat) -> Seq<u8>
    decreases n,
{
    if n == 0 {
        seq![]
    } else if in_bag(mask, n - 1) {
        pieces_below(mask, (n - 1) as nat).push((n - 1) as u8)
    } else {
        pieces_below(mask, (n - 1) as nat)
    }
}

/// The pieces in the bag, ascending.
pub open spec fn pieces_of(mask: u8) -> Seq<u8> {
    pieces_below(mask, 7)
}

/// The letter of a piece.
pub open spec fn letter(p: int) -> char {
    PIECE_ORDER@[p]
}

/// Drawing a piece takes it out of the bag; drawing the last one fills the bag.
pub proof fn law_after_draw(mask: u8, p: u8, q: int)
    requires
        bag(mask),
        in_bag(mask, p as int),
        0 <= q < 7,
    ensures
        bag(after(mask, p)),
        (forall|r: int| in_bag(mask, r) ==> r == p) ==> in_bag(after(mask, p), q),
        (exists|r: int| in_bag(mask, r) && r != p) ==> in_bag(after(mask, p), q) == (in_bag(
            mask,
            q,
        ) && q != p),
{
    broadcast use lemma_in_bag_range;

    lemma_after(mask, p);
    lemma_after_has(mask, p, q);
    if mask & !(1u8 << p) == 0 {
        if exists|r: int| in_bag(mask, r) && r != p {
            let r = choose|r: int| in_bag(mask, r) && r != p;
            lemma_after_has(mask, p, r);
        }
    } else {
        let r = lemma_bag_holds(mask & !(1u8 << p));
        lemma_after_has(mask, p, r);
        assert(in_bag(mask, r) && r != p);
    }
}

pub broadcast proof fn lemma_in_bag_range(mask: u8, p: int)
    ensures
        #[trigger] in_bag(mask, p) ==> 0 <= p < 7,
{
    reveal(in_bag);
}

/// What is left of a bag is a bag.
pub proof fn lemma_after(mask: u8, p: u8)
    requires
        bag(mask),
        p < 7,
    ensures
        bag(after(mask, p)),
{
    assert(mask & !(1u8 << p) < 128) by (bit_vector)
        requires
            mask < 128,
    ;
}

/// What is left of a bag before it is filled again.
pub proof fn lemma_after_has(mask: u8, p: u8, q: int)
    requires
        p < 7,
        0 <= q < 7,
    ensures
        in_bag(mask & !(1u8 << p), q) == (in_bag(mask, q) && q != p),
        in_bag(FULL_BAG, q),
        !in_bag(0, q),
{
    reveal(in_bag);
    let k: u8 = q as u8;
    assert((((mask & !(1u8 << p)) & (1u8 << k)) != 0) == (mask & (1u8 << k) != 0 && k != p))
        by (bit_vector)
        requires
            p < 7,
            k < 7,
    ;
    assert(127u8 & (1u8 << k) != 0) by (bit_vector)
        requires
            k < 7,
    ;
    assert(0u8 & (1u8 << k) == 0) by (bit_vector);
}

/// A bag holds a piece.
pub proof fn lemma_bag_holds(mask: u8) -> (p: int)
    requires
        bag(mask),
    ensures
        in_bag(mask, p),
        0 <= p < 7,
{
    reveal(in_bag);
    assert(mask & (1u8 << 0u8) != 0 || mask & (1u8 << 1u8) != 0 || mask & (1u8 << 2u8) != 0 || mask
        & (1u8 << 3u8) != 0 || mask & (1u8 << 4u8) != 0 || mask & (1u8 << 5u8) != 0 || mask & (1u8
        << 6u8) != 0) by (bit_vector)
        requires
            0 < mask < 128,
    ;
    if mask & (1u8 << 0u8) != 0 {
        0
    } else if mask & (1u8 << 1u8) != 0 {
        1
    } else if mask & (1u8 << 2u8) != 0 {
        2
    } else if mask & (1u8 << 3u8) != 0 {
        3
    } else if mask & (1u8 << 4u8) != 0 {
        4
    } else if mask & (1u8 << 5u8) != 0 {
        5
    } else {
        6
    }
}

/// Different draws leave different bags.
pub proof fn lemma_after_differs(mask: u8, p: u8, q: u8)
    requires
        bag(mask),
        in_bag(mask, p as int),
        in_bag(mask, q as int),
        after(mask, p) == after(mask, q),
    ensures
        p == q,
{
    reveal(in_bag);
    assert(p == q) by (bit_vector)
        requires
            0 < mask < 128,
            p < 7,
            q < 7,
            mask & (1u8 << p) != 0,
            mask & (1u8 << q) != 0,
            (if mask & !(1u8 << p) == 0 {
                127u8
            } else {
                mask & !(1u8 << p)
            }) == (if mask & !(1u8 << q) == 0 {
                127u8
            } else {
                mask & !(1u8 << q)
            }),
    ;
}

/// The list of pieces lists exactly the bag, ascending.
pub proof fn lemma_pieces_below(mask: u8, n: nat)
    requires
        n <= 7,
    ensures
        pieces_below(mask, n).len() <= n,
        forall|i: int|
            0 <= i < pieces_below(mask, n).len() ==> in_bag(
                mask,
                #[trigger] pieces_below(mask, n)[i] as int,
            ) && pieces_below(mask, n)[i] < n,
        forall|p: int|
            0 <= p < n && in_bag(mask, p) ==> pieces_below(mask, n).contains(p as u8),
    decreases n,
{
    if n > 0 {
        let m = (n - 1) as nat;
        lemma_pieces_below(mask, m);
        let was = pieces_below(mask, m);
        let now = pieces_below(mask, n);
        assert forall|p: int| 0 <= p < n && in_bag(mask, p) implies now.contains(p as u8) by {
            if p == n - 1 {
                assert(now.last() == p as u8);
            } else {
                let i = choose|i: int| 0 <= i < was.len() && was[i] == p as u8;
                assert(now[i] == p as u8);
            }
        }
    }
}

/// A bag lists at least one piece.
pub proof fn lemma_pieces_some(mask: u8)
    requires
        bag(mask),
    ensures
        1 <= pieces_of(mask).len() <= 7,
{
    let p = lemma_bag_holds(mask);
    lemma_pieces_below(mask, 7);
    let i = choose|i: int| 0 <= i < pieces_of(mask).len() && pieces_of(mask)[i] == p as u8;
}

/// A bag with all pieces in it is the full one.
pub proof fn lemma_all_in_is_full(mask: u8)
    requires
        bag(mask),
        forall|p: int| 0 <= p < 7 ==> in_bag(mask, p),
    ensures
        mask == FULL_BAG,
{
    reveal(in_bag);
    assert(in_bag(mask, 0) && in_bag(mask, 1) && in_bag(mask, 2) && in_bag(mask, 3) && in_bag(
        mask,
        4,
    ) && in_bag(mask, 5) && in_bag(mask, 6));
    assert(mask == 127) by (bit_vector)
        requires
            mask < 128,
            mask & (1u8 << 0u8) != 0,
            mask & (1u8 << 1u8) != 0,
            mask & (1u8 << 2u8) != 0,
            mask & (1u8 << 3u8) != 0,
            mask & (1u8 << 4u8) != 0,
            mask & (1u8 << 5u8) != 0,
            mask & (1u8 << 6u8) != 0,
    ;
}

/// The test that code makes for a piece in a bag.
pub fn has(mask: u8, p: Piece) -> (r: bool)
    requires
        p < 7,
    ensures
        r == in_bag(mask, p as int),
{
    proof {
        reveal(in_bag);
    }
    mask & (1u8 << p) != 0
}

/// The letter of a piece.
pub fn piece_char(p: Piece) -> (c: char)
    requires
        p < 7,
    ensures
        c == letter(p as int),
{
    PIECE_ORDER[p as usize]
}

/// The piece of a letter.
pub fn piece_from_char(c: char) -> (r: Option<Piece>)
    ensures
        r matches Some(p) ==> p < 7 && letter(p as int) == c,
        r is None ==> forall|p: int| 0 <= p < 7 ==> letter(p) != c,
{
    match c {
        'I' => Some(I),
        'J' => Some(J),
        'L' => Some(L),
        'O' => Some(O),
        'S' => Some(S),
        'T' => Some(T),
        'Z' => Some(Z),
        _ => None,
    }
}

/// A piece is found again by its letter.
pub proof fn law_letters_differ(p: int, q: int)
    requires
        0 <= p < 7,
        0 <= q < 7,
        letter(p) == letter(q),
    ensures
        p == q,
{
    assert(p == 0 || p == 1 || p == 2 || p == 3 || p == 4 || p == 5 || p == 6);
    assert(q == 0 || q == 1 || q == 2 || q == 3 || q == 4 || q == 5 || q == 6);
}

/// The pieces in a bag, ascending.
pub fn pieces(mask: u8) -> (r: Vec<Piece>)
    ensures
        r@ == pieces_of(mask),
{
    let mut out: Vec<Piece> = Vec::new();
    let mut p: u8 = 0;
    while p < 7
        invariant
            p <= 7,
            out@ == pieces_below(mask, p as nat),
        decreases 7 - p,
    {
        if has(mask, p) {
            out.push(p);
        }
        p = p + 1;
    }
    out
}

/// The bag after `p` has been drawn.
pub fn after_reveal(mask: u8, p: Piece) -> (r: u8)
    requires
        mask != 0,
        p < 7,
    ensures
        r == after(mask, p),
{
    let next: u8 = mask & !(1u8 << p);
    if next == 0 {
        FULL_BAG
    } else {
        next
    }
}

/// The letters of the listed pieces.
pub open spec fn letters(list: Seq<u8>) -> Seq<char> {
    Seq::new(list.len(), |i: int| letter(list[i] as int))
}

/// Write the letter of a piece.
pub fn push_letter(s: &mut String, p: Piece)
    requires
        p < 7,
    ensures
        final(s)@ == old(s)@.push(letter(p as int)),
{
    proof {
        reveal_strlit("I");
        reveal_strlit("J");
        reveal_strlit("L");
        reveal_strlit("O");
        reveal_strlit("S");
        reveal_strlit("T");
        reveal_strlit("Z");
    }
    let t: &str = match p {
        0 => "I",
        1 => "J",
        2 => "L",
        3 => "O",
        4 => "S",
        5 => "T",
        _ => "Z",
    };
    s.append(t);
    assert(s@ =~= old(s)@.push(letter(p as int)));
}

/// The letters of the pieces in a bag, ascending.
pub fn mask_to_string(mask: u8) -> (s: String)
    ensures
        s@ == letters(pieces_of(mask)),
{
    let list = pieces(mask);
    let mut s: String = String::new();
    let mut i: usize = 0;
    proof {
        lemma_pieces_below(mask, 7);
    }
    while i < list.len()
        invariant
            i <= list@.len(),
            forall|k: int| 0 <= k < list@.len() ==> list@[k] < 7,
            s@ =~= letters(list@.take(i as int)),
        decreases list@.len() - i,
    {
        push_letter(&mut s, list[i]);
        i = i + 1;
    }
    assert(list@.take(i as int) =~= list@);
    s
}

} // verus!
