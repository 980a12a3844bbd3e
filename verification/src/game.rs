//! One loop as a game: its positions, the moves between them, and what each position is worth.
//!
//! A loop takes ten placements. The first six place the visible pieces, the last four the pieces
//! that the bag reveals; at each of them the piece in hold may be placed in place of the piece that
//! is due. A loop is won with the full box after ten placements, or with two full lines after five.

use vstd::prelude::*;
use crate::graph::{MAX_HASH, TWO_LINE_HASH};
use crate::hidden;
use crate::piece;
use crate::piece::Piece;
use crate::score;
use crate::score::Op;
use crate::values;

verus! {

/// A position.
#[derive(Clone, Copy, Debug, PartialEq, Eq, Structural)]
pub struct NodeKey {
    /// How many placements were made.
    pub depth: u8,
    pub field: u64,
    pub hold: Piece,
    /// The bag that the next reveal comes from.
    pub mask: u8,
}

/// All that a loop depends on.
pub struct Game {
    pub hold: u8,
    pub visible: Seq<u8>,
    pub mask: u8,
    /// The fields that a placement of a piece leads to.
    pub kids: spec_fn(u64, u8) -> Seq<u64>,
    pub book: values::Book,
    pub calc: spec_fn(Op) -> u64,
}

impl Game {
    /// The pieces are pieces, the bag is a bag, and no placement leaves the box.
    pub open spec fn ok(self) -> bool {
        &&& self.hold < 7
        &&& self.visible.len() == 6
        &&& forall|i: int| 0 <= i < 6 ==> self.visible[i] < 7
        &&& piece::bag(self.mask)
        &&& forall|f: u64, p: u8, i: int|
            f <= MAX_HASH && p < 7 && 0 <= i < (self.kids)(f, p).len()
                ==> #[trigger] (self.kids)(f, p)[i] <= MAX_HASH
    }

    pub open spec fn root(self) -> NodeKey {
        NodeKey { depth: 0, field: 0, hold: self.hold, mask: self.mask }
    }

    /// The position can stand for one of this game.
    pub open spec fn fits(self, k: NodeKey) -> bool {
        &&& k.depth <= 10
        &&& k.field <= MAX_HASH
        &&& k.hold < 7
        &&& piece::bag(k.mask)
        &&& k.depth <= 6 ==> k.mask == self.mask
    }
}

/// The positions with these fields.
pub open spec fn placed(list: Seq<u64>, depth: u8, hold: u8, mask: u8) -> Seq<NodeKey> {
    Seq::new(list.len(), |i: int| NodeKey { depth, field: list[i], hold, mask })
}

/// The positions after a placement of `p`, which is due, or of the hold.
pub open spec fn moves(g: Game, k: NodeKey, p: u8, mask: u8) -> Seq<NodeKey> {
    placed((g.kids)(k.field, p), (k.depth + 1) as u8, k.hold, mask) + if p != k.hold {
        placed((g.kids)(k.field, k.hold), (k.depth + 1) as u8, p, mask)
    } else {
        seq![]
    }
}

/// The positions after the reveal of a piece below `n` and a placement.
pub open spec fn reveal_moves(g: Game, k: NodeKey, n: nat) -> Seq<NodeKey>
    decreases n,
{
    if n == 0 {
        seq![]
    } else if piece::in_bag(k.mask, n - 1) {
        let p = (n - 1) as u8;
        reveal_moves(g, k, (n - 1) as nat) + moves(g, k, p, piece::after(k.mask, p))
    } else {
        reveal_moves(g, k, (n - 1) as nat)
    }
}

/// The loop is won after five placements.
pub open spec fn two_lines(k: NodeKey) -> bool {
    k.depth == 5 && k.field == TWO_LINE_HASH
}

/// The positions that one placement leads to.
pub open spec fn child_keys(g: Game, k: NodeKey) -> Seq<NodeKey> {
    if k.depth >= 10 || two_lines(k) {
        seq![]
    } else if k.depth < 6 {
        moves(g, k, g.visible[k.depth as int], k.mask)
    } else {
        reveal_moves(g, k, 7)
    }
}

/// The position can be reached with `k.depth` placements.
pub open spec fn reached(g: Game, d: nat, k: NodeKey) -> bool
    decreases d,
{
    if d == 0 {
        k == g.root()
    } else {
        exists|q: NodeKey|
            reached(g, (d - 1) as nat, q) && #[trigger] child_keys(g, q).contains(k)
    }
}

/// The loop can still be won, with `left` placements left.
pub open spec fn survives(g: Game, left: nat, k: NodeKey) -> bool
    decreases left,
{
    if left == 0 {
        k.field == MAX_HASH
    } else if two_lines(k) {
        true
    } else {
        exists|i: int|
            0 <= i < child_keys(g, k).len() && survives(
                g,
                (left - 1) as nat,
                #[trigger] child_keys(g, k)[i],
            )
    }
}

/// How many placements a position has left.
pub open spec fn left_of(k: NodeKey) -> nat {
    (10 - k.depth) as nat
}

pub open spec fn alive(g: Game, k: NodeKey) -> bool {
    survives(g, left_of(k), k)
}

/// Those positions of the list from which the loop can still be won.
pub open spec fn live_keys(g: Game, left: nat, list: Seq<NodeKey>) -> Seq<NodeKey>
    decreases list.len(),
{
    if list.len() == 0 {
        seq![]
    } else if survives(g, left, list.last()) {
        live_keys(g, left, list.drop_last()).push(list.last())
    } else {
        live_keys(g, left, list.drop_last())
    }
}

/// The positions that one placement leads to and from which the loop can still be won.
pub open spec fn live_children(g: Game, k: NodeKey) -> Seq<NodeKey> {
    live_keys(g, (left_of(k) - 1) as nat, child_keys(g, k))
}

/// What a position is worth when all reveals to come are known: `future` holds the pieces that the
/// bag will reveal, all four of them up to the seventh placement.
pub open spec fn worth(g: Game, left: nat, k: NodeKey, future: Seq<u8>) -> u64
    decreases left, 0nat,
{
    if left == 0 {
        let v = values::worth4(g.book, g.calc, k.hold, k.mask);
        if k.field == MAX_HASH && score::exceeds(v, 0) {
            (g.calc)(Op::Store(v))
        } else {
            0
        }
    } else if two_lines(k) {
        let v = (g.calc)(
            Op::Store(
                values::worth2(
                    g.book,
                    g.calc,
                    k.hold,
                    g.visible[5],
                    future,
                    hidden::bag_after(g.mask, future),
                ),
            ),
        );
        if score::exceeds(v, 0) {
            v
        } else {
            0
        }
    } else if k.depth < 6 {
        best(g, (left - 1) as nat, child_keys(g, k), None, future)
    } else {
        best(
            g,
            (left - 1) as nat,
            child_keys(g, k),
            Some(piece::after(k.mask, future[0])),
            future.drop_first(),
        )
    }
}

/// The most that a position of the list is worth, of those with the bag wanted.
pub open spec fn best(
    g: Game,
    left: nat,
    list: Seq<NodeKey>,
    want: Option<u8>,
    future: Seq<u8>,
) -> u64
    decreases left, list.len() + 1,
{
    if list.len() == 0 {
        0
    } else {
        let b = best(g, left, list.drop_last(), want, future);
        let c = list.last();
        let v = worth(g, left, c, future);
        if (want is Some && c.mask != want->0) || !score::exceeds(v, b) {
            b
        } else {
            v
        }
    }
}

/// What a position is expected to be worth with up to three placements made, when `seen` was
/// revealed so far. A placement is chosen before the piece that it opens is seen. Nothing where no
/// placement keeps any hope.
pub open spec fn expected(g: Game, left: nat, k: NodeKey, seen: Seq<u8>) -> Option<u64>
    decreases left, 0nat,
{
    if left < 7 {
        None
    } else {
        best_expected(g, (left - 1) as nat, child_keys(g, k), seen)
    }
}

/// The most that a position of the list is expected to be worth.
pub open spec fn best_expected(g: Game, left: nat, list: Seq<NodeKey>, seen: Seq<u8>) -> Option<u64>
    decreases left, list.len() + 10,
{
    if list.len() == 0 {
        None
    } else {
        let b = best_expected(g, left, list.drop_last(), seen);
        match hoped(g, left, list.last(), seen, 7) {
            None => b,
            Some(sum) => {
                let v = (g.calc)(Op::Over(sum, choices(g, seen) as u64));
                match b {
                    None => Some(v),
                    Some(x) => if score::exceeds(v, x) {
                        Some(v)
                    } else {
                        Some(x)
                    },
                }
            },
        }
    }
}

/// How many pieces may come next.
pub open spec fn choices(g: Game, seen: Seq<u8>) -> nat {
    piece::pieces_of(hidden::bag_after(g.mask, seen)).len()
}

/// The sum of what the position is worth over the next reveals below `n`, of those that leave
/// anything to hope for.
pub open spec fn hoped(g: Game, left: nat, k: NodeKey, seen: Seq<u8>, n: nat) -> Option<u64>
    decreases left, n + 1,
{
    if n == 0 || n > 7 {
        None
    } else {
        let s = hoped(g, left, k, seen, (n - 1) as nat);
        if piece::in_bag(hidden::bag_after(g.mask, seen), n - 1) {
            match outlook(g, left, k, seen.push((n - 1) as u8)) {
                Some(v) => if score::at_most_zero(v) {
                    s
                } else {
                    Some(
                        (g.calc)(
                            Op::Plus(
                                match s {
                                    Some(x) => x,
                                    None => 0,
                                },
                                v,
                            ),
                        ),
                    )
                },
                None => s,
            }
        } else {
            s
        }
    }
}

/// What is known of a position with up to four placements made once `seen` was revealed.
pub open spec fn outlook(g: Game, left: nat, k: NodeKey, seen: Seq<u8>) -> Option<u64>
    decreases left, 1nat,
{
    if left <= 6 {
        Some(worth(g, left, k, seen))
    } else {
        expected(g, left, k, seen)
    }
}

/// What the game is worth.
pub open spec fn game_value(g: Game) -> u64 {
    match expected(g, 10, g.root(), Seq::empty()) {
        Some(v) => v,
        None => 0,
    }
}

/* ---- positions ---- */

pub proof fn lemma_moves(g: Game, k: NodeKey, p: u8, mask: u8, i: int)
    requires
        g.ok(),
        g.fits(k),
        k.depth < 10,
        p < 7,
        0 <= i < moves(g, k, p, mask).len(),
    ensures
        ({
            let c = moves(g, k, p, mask)[i];
            c.depth == k.depth + 1 && c.field <= MAX_HASH && c.hold < 7 && c.mask == mask
        }),
{
    let a = placed((g.kids)(k.field, p), (k.depth + 1) as u8, k.hold, mask);
    if i < a.len() {
        assert((g.kids)(k.field, p)[i] <= MAX_HASH);
    } else {
        assert((g.kids)(k.field, k.hold)[i - a.len()] <= MAX_HASH);
    }
}

proof fn lemma_reveal_moves(g: Game, k: NodeKey, n: nat, i: int)
    requires
        g.ok(),
        g.fits(k),
        6 <= k.depth < 10,
        n <= 7,
        0 <= i < reveal_moves(g, k, n).len(),
    ensures
        g.fits(reveal_moves(g, k, n)[i]),
        reveal_moves(g, k, n)[i].depth == k.depth + 1,
        exists|p: u8|
            piece::in_bag(k.mask, p as int) && reveal_moves(g, k, n)[i].mask
                == #[trigger] piece::after(k.mask, p),
    decreases n,
{
    if n > 0 {
        let was = reveal_moves(g, k, (n - 1) as nat);
        let p = (n - 1) as u8;
        if i < was.len() {
            lemma_reveal_moves(g, k, (n - 1) as nat, i);
        } else {
            lemma_moves(g, k, p, piece::after(k.mask, p), i - was.len());
            piece::lemma_after(k.mask, p);
        }
    }
}

/// A placement leads from a position of the game to one of the game.
pub proof fn lemma_child(g: Game, k: NodeKey, i: int)
    requires
        g.ok(),
        g.fits(k),
        0 <= i < child_keys(g, k).len(),
    ensures
        g.fits(child_keys(g, k)[i]),
        k.depth < 10,
        child_keys(g, k)[i].depth == k.depth + 1,
        k.depth < 6 ==> child_keys(g, k)[i].mask == k.mask,
        k.depth >= 6 ==> exists|p: u8|
            piece::in_bag(k.mask, p as int) && child_keys(g, k)[i].mask == #[trigger] piece::after(
                k.mask,
                p,
            ),
{
    if k.depth < 6 {
        lemma_moves(g, k, g.visible[k.depth as int], k.mask, i);
    } else {
        lemma_reveal_moves(g, k, 7, i);
    }
}

pub proof fn lemma_reached_fits(g: Game, d: nat, k: NodeKey)
    requires
        g.ok(),
        d <= 10,
        reached(g, d, k),
    ensures
        g.fits(k),
        k.depth == d,
    decreases d,
{
    if d > 0 {
        let q = choose|q: NodeKey|
            reached(g, (d - 1) as nat, q) && #[trigger] child_keys(g, q).contains(k);
        lemma_reached_fits(g, (d - 1) as nat, q);
        let i = choose|i: int| 0 <= i < child_keys(g, q).len() && child_keys(g, q)[i] == k;
        lemma_child(g, q, i);
    }
}

/* ---- pruning ---- */

pub proof fn lemma_live_keys(g: Game, left: nat, list: Seq<NodeKey>)
    ensures
        forall|i: int|
            0 <= i < live_keys(g, left, list).len() ==> survives(
                g,
                left,
                #[trigger] live_keys(g, left, list)[i],
            ) && list.contains(live_keys(g, left, list)[i]),
    decreases list.len(),
{
    if list.len() > 0 {
        let sub = live_keys(g, left, list.drop_last());
        lemma_live_keys(g, left, list.drop_last());
        assert forall|i: int| 0 <= i < live_keys(g, left, list).len() implies survives(
            g,
            left,
            #[trigger] live_keys(g, left, list)[i],
        ) && list.contains(live_keys(g, left, list)[i]) by {
            if i < sub.len() {
                assert(live_keys(g, left, list)[i] == sub[i]);
                let j = choose|j: int|
                    0 <= j < list.drop_last().len() && list.drop_last()[j] == sub[i];
                assert(list[j] == sub[i]);
            } else {
                assert(list[list.len() - 1] == list.last());
            }
        }
    }
}

/// A lost position is worth nothing.
pub proof fn law_lost_is_worthless(g: Game, left: nat, k: NodeKey, future: Seq<u8>)
    requires
        !survives(g, left, k),
    ensures
        worth(g, left, k, future) == 0,
    decreases left, 0nat,
{
    if left > 0 {
        let list = child_keys(g, k);
        assert forall|i: int| 0 <= i < list.len() implies !survives(
            g,
            (left - 1) as nat,
            #[trigger] list[i],
        ) by {}
        if k.depth < 6 {
            lemma_best_lost(g, (left - 1) as nat, list, None, future);
        } else {
            lemma_best_lost(
                g,
                (left - 1) as nat,
                list,
                Some(piece::after(k.mask, future[0])),
                future.drop_first(),
            );
        }
    }
}

proof fn lemma_best_lost(
    g: Game,
    left: nat,
    list: Seq<NodeKey>,
    want: Option<u8>,
    future: Seq<u8>,
)
    requires
        forall|i: int| 0 <= i < list.len() ==> !survives(g, left, #[trigger] list[i]),
    ensures
        best(g, left, list, want, future) == 0,
    decreases left, list.len() + 1,
{
    if list.len() > 0 {
        let sub = list.drop_last();
        assert forall|i: int| 0 <= i < sub.len() implies !survives(g, left, #[trigger] sub[i]) by {
            assert(sub[i] == list[i]);
        }
        lemma_best_lost(g, left, sub, want, future);
        assert(!survives(g, left, list[list.len() - 1]));
        law_lost_is_worthless(g, left, list.last(), future);
    }
}

/// To leave out the lost positions changes nothing.
pub proof fn lemma_best_live(
    g: Game,
    left: nat,
    list: Seq<NodeKey>,
    want: Option<u8>,
    future: Seq<u8>,
)
    ensures
        best(g, left, live_keys(g, left, list), want, future) == best(
            g,
            left,
            list,
            want,
            future,
        ),
    decreases list.len(),
{
    if list.len() > 0 {
        let sub = list.drop_last();
        lemma_best_live(g, left, sub, want, future);
        if survives(g, left, list.last()) {
            assert(live_keys(g, left, list).drop_last() =~= live_keys(g, left, sub));
        } else {
            law_lost_is_worthless(g, left, list.last(), future);
            lemma_best_number(g, left, sub, want, future);
        }
    }
}

/// What is best is never below nothing.
proof fn lemma_best_number(
    g: Game,
    left: nat,
    list: Seq<NodeKey>,
    want: Option<u8>,
    future: Seq<u8>,
)
    ensures
        !score::exceeds(0, best(g, left, list, want, future)),
    decreases list.len(),
{
    if list.len() > 0 {
        lemma_best_number(g, left, list.drop_last(), want, future);
    }
}

/// In a lost position there is nothing to hope for.
pub proof fn law_lost_is_hopeless(g: Game, left: nat, k: NodeKey, seen: Seq<u8>)
    requires
        !survives(g, left, k),
    ensures
        expected(g, left, k, seen) is None,
    decreases left, 0nat,
{
    if left >= 7 {
        let list = child_keys(g, k);
        assert forall|i: int| 0 <= i < list.len() implies !survives(
            g,
            (left - 1) as nat,
            #[trigger] list[i],
        ) by {}
        lemma_best_expected_lost(g, (left - 1) as nat, list, seen);
    }
}

proof fn lemma_best_expected_lost(g: Game, left: nat, list: Seq<NodeKey>, seen: Seq<u8>)
    requires
        forall|i: int| 0 <= i < list.len() ==> !survives(g, left, #[trigger] list[i]),
    ensures
        best_expected(g, left, list, seen) is None,
    decreases left, list.len() + 10,
{
    if list.len() > 0 {
        let sub = list.drop_last();
        assert forall|i: int| 0 <= i < sub.len() implies !survives(g, left, #[trigger] sub[i]) by {
            assert(sub[i] == list[i]);
        }
        lemma_best_expected_lost(g, left, sub, seen);
        assert(!survives(g, left, list[list.len() - 1]));
        lemma_hoped_lost(g, left, list.last(), seen, 7);
    }
}

proof fn lemma_hoped_lost(g: Game, left: nat, k: NodeKey, seen: Seq<u8>, n: nat)
    requires
        !survives(g, left, k),
        n <= 7,
    ensures
        hoped(g, left, k, seen, n) is None,
    decreases left, n + 1,
{
    if n > 0 {
        lemma_hoped_lost(g, left, k, seen, (n - 1) as nat);
        let more = seen.push((n - 1) as u8);
        if left <= 6 {
            law_lost_is_worthless(g, left, k, more);
            assert(outlook(g, left, k, more) == Some(0u64));
        } else {
            law_lost_is_hopeless(g, left, k, more);
            assert(outlook(g, left, k, more) is None);
        }
    }
}

pub proof fn lemma_best_expected_live(g: Game, left: nat, list: Seq<NodeKey>, seen: Seq<u8>)
    ensures
        best_expected(g, left, live_keys(g, left, list), seen) == best_expected(
            g,
            left,
            list,
            seen,
        ),
    decreases list.len(),
{
    if list.len() > 0 {
        let sub = list.drop_last();
        lemma_best_expected_live(g, left, sub, seen);
        if survives(g, left, list.last()) {
            assert(live_keys(g, left, list).drop_last() =~= live_keys(g, left, sub));
        } else {
            lemma_hoped_lost(g, left, list.last(), seen, 7);
        }
    }
}

/// Pruning keeps values: a position is worth as much over the placements that can still win as over
/// all of them.
pub proof fn law_pruning_keeps_values(g: Game, left: nat, list: Seq<NodeKey>, future: Seq<u8>)
    ensures
        best(g, left, live_keys(g, left, list), None, future) == best(
            g,
            left,
            list,
            None,
            future,
        ),
        best_expected(g, left, live_keys(g, left, list), future) == best_expected(
            g,
            left,
            list,
            future,
        ),
{
    lemma_best_live(g, left, list, None, future);
    lemma_best_expected_live(g, left, list, future);
}

/* ---- values are not below nothing ---- */

pub proof fn lemma_best_not_below(
    g: Game,
    left: nat,
    list: Seq<NodeKey>,
    want: Option<u8>,
    future: Seq<u8>,
)
    ensures
        score::not_below(best(g, left, list, want, future)),
    decreases list.len(),
{
    if list.len() > 0 {
        lemma_best_not_below(g, left, list.drop_last(), want, future);
    }
}

/// What is known of a position is not below nothing.
pub proof fn lemma_outlook_not_below(g: Game, left: nat, k: NodeKey, seen: Seq<u8>)
    requires
        g.ok(),
        score::all_fair(g.calc),
        left >= 6,
        forall|i: int| 0 <= i < seen.len() ==> seen[i] < 7,
    ensures
        outlook(g, left, k, seen) matches Some(v) ==> score::not_below(v),
    decreases left, 1nat,
{
    if left == 6 {
        let list = child_keys(g, k);
        lemma_best_not_below(g, 5, list, None, seen);
        lemma_best_not_below(
            g,
            5,
            list,
            Some(piece::after(k.mask, seen[0])),
            seen.drop_first(),
        );
    } else {
        lemma_expected_not_below(g, left, k, seen);
    }
}

pub proof fn lemma_expected_not_below(g: Game, left: nat, k: NodeKey, seen: Seq<u8>)
    requires
        g.ok(),
        score::all_fair(g.calc),
        forall|i: int| 0 <= i < seen.len() ==> seen[i] < 7,
    ensures
        expected(g, left, k, seen) matches Some(v) ==> score::not_below(v),
    decreases left, 0nat,
{
    if left >= 7 {
        lemma_best_expected_not_below(g, (left - 1) as nat, child_keys(g, k), seen);
    }
}

pub proof fn lemma_best_expected_not_below(g: Game, left: nat, list: Seq<NodeKey>, seen: Seq<u8>)
    requires
        g.ok(),
        score::all_fair(g.calc),
        left >= 6,
        forall|i: int| 0 <= i < seen.len() ==> seen[i] < 7,
    ensures
        best_expected(g, left, list, seen) matches Some(v) ==> score::not_below(v),
    decreases left, list.len() + 10,
{
    if list.len() > 0 {
        lemma_best_expected_not_below(g, left, list.drop_last(), seen);
        lemma_hoped_above(g, left, list.last(), seen, 7);
        hidden::lemma_bag_after(g.mask, seen);
        piece::lemma_pieces_some(hidden::bag_after(g.mask, seen));
    }
}

pub proof fn lemma_hoped_above(g: Game, left: nat, k: NodeKey, seen: Seq<u8>, n: nat)
    requires
        g.ok(),
        score::all_fair(g.calc),
        left >= 6,
        n <= 7,
        forall|i: int| 0 <= i < seen.len() ==> seen[i] < 7,
    ensures
        hoped(g, left, k, seen, n) matches Some(v) ==> score::exceeds(v, 0),
    decreases left, n + 2,
{
    if n > 0 {
        let more = seen.push((n - 1) as u8);
        lemma_hoped_above(g, left, k, seen, (n - 1) as nat);
        assert forall|i: int| 0 <= i < more.len() implies more[i] < 7 by {}
        lemma_outlook_not_below(g, left, k, more);
    }
}

/* ---- the best placement ---- */

/// No position of the list with the bag wanted is worth more than the best.
proof fn lemma_best_bounds(
    g: Game,
    left: nat,
    list: Seq<NodeKey>,
    want: Option<u8>,
    future: Seq<u8>,
    i: int,
)
    requires
        0 <= i < list.len(),
        want is Some ==> list[i].mask == want->0,
    ensures
        !score::exceeds(worth(g, left, list[i], future), best(g, left, list, want, future)),
    decreases list.len(),
{
    lemma_best_not_below(g, left, list, want, future);
    lemma_best_not_below(g, left, list.drop_last(), want, future);
    if i < list.len() - 1 {
        assert(list.drop_last()[i] == list[i]);
        lemma_best_bounds(g, left, list.drop_last(), want, future, i);
    }
}

/// Unless it is nothing, the best is what some position of the list with the bag wanted is worth.
proof fn lemma_best_attained(
    g: Game,
    left: nat,
    list: Seq<NodeKey>,
    want: Option<u8>,
    future: Seq<u8>,
) -> (i: int)
    requires
        best(g, left, list, want, future) != 0,
    ensures
        0 <= i < list.len(),
        want is Some ==> list[i].mask == want->0,
        worth(g, left, list[i], future) == best(g, left, list, want, future),
    decreases list.len(),
{
    let v = worth(g, left, list.last(), future);
    let b = best(g, left, list.drop_last(), want, future);
    if (want is Some && list.last().mask != want->0) || !score::exceeds(v, b) {
        let i = lemma_best_attained(g, left, list.drop_last(), want, future);
        assert(list.drop_last()[i] == list[i]);
        i
    } else {
        list.len() - 1
    }
}

/// Of the positions with the bag wanted, none is worth more than the best, and the best is nothing
/// or what one of them is worth.
pub proof fn law_best_is_highest(
    g: Game,
    left: nat,
    list: Seq<NodeKey>,
    want: Option<u8>,
    future: Seq<u8>,
)
    ensures
        forall|i: int|
            0 <= i < list.len() && (want is Some ==> list[i].mask == want->0) ==> !score::exceeds(
                #[trigger] worth(g, left, list[i], future),
                best(g, left, list, want, future),
            ),
        best(g, left, list, want, future) == 0 || exists|i: int|
            0 <= i < list.len() && (want is Some ==> list[i].mask == want->0) && #[trigger] worth(
                g,
                left,
                list[i],
                future,
            ) == best(g, left, list, want, future),
{
    assert forall|i: int|
        0 <= i < list.len() && (want is Some ==> list[i].mask == want->0) implies !score::exceeds(
        #[trigger] worth(g, left, list[i], future),
        best(g, left, list, want, future),
    ) by {
        lemma_best_bounds(g, left, list, want, future, i);
    }
    if best(g, left, list, want, future) != 0 {
        let i = lemma_best_attained(g, left, list, want, future);
        assert(worth(g, left, list[i], future) == best(g, left, list, want, future));
    }
}

/// The piece that is due at a position when `future` holds the reveals to come.
pub open spec fn next_piece(g: Game, k: NodeKey, future: Seq<u8>) -> u8 {
    if k.depth < 6 {
        g.visible[k.depth as int]
    } else {
        future[0]
    }
}

/// The position after a placement that leaves this field and this hold, when `p` was due.
pub open spec fn placing(k: NodeKey, p: u8, field: u64, hold: u8) -> NodeKey {
    NodeKey {
        depth: (k.depth + 1) as u8,
        field,
        hold,
        mask: if k.depth < 6 {
            k.mask
        } else {
            piece::after(k.mask, p)
        },
    }
}

/// The reveals that are still to come after a placement.
pub open spec fn later(k: NodeKey, future: Seq<u8>) -> Seq<u8> {
    if k.depth < 6 {
        future
    } else {
        future.drop_first()
    }
}

/// The loop goes on at the position, with a piece due that the bag can reveal.
pub open spec fn goes_on(g: Game, k: NodeKey, future: Seq<u8>) -> bool {
    &&& g.ok()
    &&& g.fits(k)
    &&& k.depth < 10
    &&& !two_lines(k)
    &&& k.depth >= 6 ==> future.len() > 0 && piece::in_bag(k.mask, future[0] as int)
}

/// The moves after the reveal of a piece stand among those after all reveals.
proof fn lemma_reveal_block(g: Game, k: NodeKey, n: nat, p: u8, t: int) -> (i: int)
    requires
        p < n <= 7,
        piece::in_bag(k.mask, p as int),
        0 <= t < moves(g, k, p, piece::after(k.mask, p)).len(),
    ensures
        0 <= i < reveal_moves(g, k, n).len(),
        reveal_moves(g, k, n)[i] == moves(g, k, p, piece::after(k.mask, p))[t],
    decreases n,
{
    let was = reveal_moves(g, k, (n - 1) as nat);
    if p == n - 1 {
        was.len() + t
    } else {
        lemma_reveal_block(g, k, (n - 1) as nat, p, t)
    }
}

/// A move after a reveal is one of a piece of the bag.
proof fn lemma_reveal_origin(g: Game, k: NodeKey, n: nat, i: int) -> (r: (u8, int))
    requires
        n <= 7,
        0 <= i < reveal_moves(g, k, n).len(),
    ensures
        r.0 < n,
        piece::in_bag(k.mask, r.0 as int),
        0 <= r.1 < moves(g, k, r.0, piece::after(k.mask, r.0)).len(),
        reveal_moves(g, k, n)[i] == moves(g, k, r.0, piece::after(k.mask, r.0))[r.1],
    decreases n,
{
    let was = reveal_moves(g, k, (n - 1) as nat);
    if i < was.len() {
        lemma_reveal_origin(g, k, (n - 1) as nat, i)
    } else {
        ((n - 1) as u8, i - was.len())
    }
}

/// The bag that the positions after the due piece have.
pub open spec fn wanted(k: NodeKey, p: u8) -> Option<u8> {
    if k.depth < 6 {
        None
    } else {
        Some(piece::after(k.mask, p))
    }
}

/// A placement of the due piece or of the hold stands in the list of positions, with the bag
/// wanted.
proof fn lemma_placing_listed(g: Game, k: NodeKey, future: Seq<u8>, kept: bool, t: int) -> (i: int)
    requires
        goes_on(g, k, future),
        kept ==> 0 <= t < (g.kids)(k.field, next_piece(g, k, future)).len(),
        !kept ==> 0 <= t < (g.kids)(k.field, k.hold).len(),
    ensures
        0 <= i < child_keys(g, k).len(),
        child_keys(g, k)[i] == if kept {
            placing(
                k,
                next_piece(g, k, future),
                (g.kids)(k.field, next_piece(g, k, future))[t],
                k.hold,
            )
        } else {
            placing(
                k,
                next_piece(g, k, future),
                (g.kids)(k.field, k.hold)[t],
                next_piece(g, k, future),
            )
        },
{
    broadcast use piece::lemma_in_bag_range;

    let p = next_piece(g, k, future);
    let mask = if k.depth < 6 {
        k.mask
    } else {
        piece::after(k.mask, p)
    };
    let a = (g.kids)(k.field, p).len();
    let at: int = if kept || p == k.hold {
        t
    } else {
        a + t
    };
    assert(moves(g, k, p, mask)[at] == if kept {
        placing(k, p, (g.kids)(k.field, p)[t], k.hold)
    } else {
        placing(k, p, (g.kids)(k.field, k.hold)[t], p)
    });
    if k.depth < 6 {
        at
    } else {
        lemma_reveal_block(g, k, 7, p, at)
    }
}

/// A position of the list with the bag wanted comes from such a placement.
proof fn lemma_listed_placing(g: Game, k: NodeKey, future: Seq<u8>, i: int) -> (r: (bool, int))
    requires
        goes_on(g, k, future),
        0 <= i < child_keys(g, k).len(),
        k.depth >= 6 ==> child_keys(g, k)[i].mask == piece::after(
            k.mask,
            next_piece(g, k, future),
        ),
    ensures
        r.0 ==> 0 <= r.1 < (g.kids)(k.field, next_piece(g, k, future)).len() && child_keys(g, k)[i]
            == placing(
            k,
            next_piece(g, k, future),
            (g.kids)(k.field, next_piece(g, k, future))[r.1],
            k.hold,
        ),
        !r.0 ==> 0 <= r.1 < (g.kids)(k.field, k.hold).len() && child_keys(g, k)[i] == placing(
            k,
            next_piece(g, k, future),
            (g.kids)(k.field, k.hold)[r.1],
            next_piece(g, k, future),
        ),
{
    broadcast use piece::lemma_in_bag_range;

    let p = next_piece(g, k, future);
    let a = (g.kids)(k.field, p).len();
    let at: int = if k.depth < 6 {
        i
    } else {
        let (q, j) = lemma_reveal_origin(g, k, 7, i);
        lemma_moves(g, k, q, piece::after(k.mask, q), j);
        piece::lemma_after_differs(k.mask, q, p);
        j
    };
    if at < a {
        (true, at)
    } else {
        (false, at - a)
    }
}

/// A placement at a position leads to `c`: the piece that is due is placed and the hold kept, or the
/// hold is placed and the piece that is due kept.
pub open spec fn leads_to(g: Game, k: NodeKey, p: u8, c: NodeKey) -> bool {
    ||| (g.kids)(k.field, p).contains(c.field) && c == placing(k, p, c.field, k.hold)
    ||| (g.kids)(k.field, k.hold).contains(c.field) && c == placing(k, p, c.field, p)
}

/// The positions after a placement are those that the due piece or the hold leads to; with a
/// reveal, for every piece of the bag.
pub proof fn law_placements(g: Game, k: NodeKey, c: NodeKey)
    requires
        g.ok(),
        g.fits(k),
        k.depth < 10,
        !two_lines(k),
    ensures
        k.depth < 6 ==> (child_keys(g, k).contains(c) <==> leads_to(
            g,
            k,
            g.visible[k.depth as int],
            c,
        )),
        k.depth >= 6 ==> (child_keys(g, k).contains(c) <==> exists|p: u8|
            piece::in_bag(k.mask, p as int) && #[trigger] leads_to(g, k, p, c)),
{
    broadcast use piece::lemma_in_bag_range;

    let list = child_keys(g, k);
    if list.contains(c) {
        let i = choose|i: int| 0 <= i < list.len() && list[i] == c;
        let p = if k.depth < 6 {
            g.visible[k.depth as int]
        } else {
            lemma_reveal_origin(g, k, 7, i).0
        };
        let future = seq![p];
        if k.depth >= 6 {
            let (q, j) = lemma_reveal_origin(g, k, 7, i);
            lemma_moves(g, k, q, piece::after(k.mask, q), j);
        }
        let (kept, t) = lemma_listed_placing(g, k, future, i);
        assert(leads_to(g, k, p, c));
    }
    assert forall|p: u8|
        (k.depth < 6 ==> p == g.visible[k.depth as int]) && (k.depth >= 6 ==> piece::in_bag(
            k.mask,
            p as int,
        )) && #[trigger] leads_to(g, k, p, c) implies list.contains(c) by {
        let future = seq![p];
        if (g.kids)(k.field, p).contains(c.field) && c == placing(k, p, c.field, k.hold) {
            let fields = (g.kids)(k.field, p);
            let t = choose|t: int| 0 <= t < fields.len() && fields[t] == c.field;
            let i = lemma_placing_listed(g, k, future, true, t);
        } else {
            let fields = (g.kids)(k.field, k.hold);
            let t = choose|t: int| 0 <= t < fields.len() && fields[t] == c.field;
            let i = lemma_placing_listed(g, k, future, false, t);
        }
    }
}

/// A position is worth what its best placement is worth: no placement of the piece that is due or
/// of the hold leads to more, and some placement leads to as much, unless all is lost.
pub proof fn law_worth_is_that_of_the_best_placement(g: Game, k: NodeKey, future: Seq<u8>)
    requires
        goes_on(g, k, future),
    ensures
        forall|c: NodeKey| #[trigger]
            leads_to(g, k, next_piece(g, k, future), c) ==> !score::exceeds(
                worth(g, left_of(c), c, later(k, future)),
                worth(g, left_of(k), k, future),
            ),
        worth(g, left_of(k), k, future) == 0 || exists|c: NodeKey| #[trigger]
            leads_to(g, k, next_piece(g, k, future), c) && worth(
                g,
                left_of(c),
                c,
                later(k, future),
            ) == worth(g, left_of(k), k, future),
{
    let p = next_piece(g, k, future);
    let list = child_keys(g, k);
    let want = wanted(k, p);
    let left = (left_of(k) - 1) as nat;
    let rest = later(k, future);
    assert(worth(g, left_of(k), k, future) == best(g, left, list, want, rest));
    assert forall|c: NodeKey| #[trigger] leads_to(g, k, p, c) implies !score::exceeds(
        worth(g, left_of(c), c, rest),
        worth(g, left_of(k), k, future),
    ) by {
        let i = if (g.kids)(k.field, p).contains(c.field) && c == placing(k, p, c.field, k.hold) {
            let fields = (g.kids)(k.field, p);
            let t = choose|t: int| 0 <= t < fields.len() && fields[t] == c.field;
            lemma_placing_listed(g, k, future, true, t)
        } else {
            let fields = (g.kids)(k.field, k.hold);
            let t = choose|t: int| 0 <= t < fields.len() && fields[t] == c.field;
            lemma_placing_listed(g, k, future, false, t)
        };
        lemma_best_bounds(g, left, list, want, rest, i);
    }
    if worth(g, left_of(k), k, future) != 0 {
        let i = lemma_best_attained(g, left, list, want, rest);
        let (kept, t) = lemma_listed_placing(g, k, future, i);
        assert(leads_to(g, k, p, list[i]));
    }
}

/// A won loop is worth its reset, unless that is worth nothing; after ten placements any other field
/// is worth nothing.
pub proof fn law_won_loop_is_worth_its_reset(g: Game, k: NodeKey, future: Seq<u8>)
    requires
        score::all_fair(g.calc),
        k.depth == 10 || two_lines(k),
    ensures
        k.depth == 10 && k.field == MAX_HASH && score::exceeds(
            values::worth4(g.book, g.calc, k.hold, k.mask),
            0,
        ) ==> worth(g, left_of(k), k, future) == (g.calc)(
            Op::Store(values::worth4(g.book, g.calc, k.hold, k.mask)),
        ),
        k.depth == 10 && (k.field != MAX_HASH || !score::exceeds(
            values::worth4(g.book, g.calc, k.hold, k.mask),
            0,
        )) ==> worth(g, left_of(k), k, future) == 0,
        two_lines(k) ==> ({
            let v = (g.calc)(
                Op::Store(
                    values::worth2(
                        g.book,
                        g.calc,
                        k.hold,
                        g.visible[5],
                        future,
                        hidden::bag_after(g.mask, future),
                    ),
                ),
            );
            &&& score::exceeds(v, 0) ==> worth(g, left_of(k), k, future) == v
            &&& !score::exceeds(v, 0) ==> worth(g, left_of(k), k, future) == 0
        }),
{
}

/* ---- the best placement before its reveal is seen ---- */

/// What is known of a position for each piece that may be revealed next, smaller pieces first.
pub open spec fn outlooks(g: Game, c: NodeKey, seen: Seq<u8>) -> Seq<u64> {
    let pieces = piece::pieces_of(hidden::bag_after(g.mask, seen));
    Seq::new(
        pieces.len(),
        |i: int| score::or_nothing(outlook(g, left_of(c), c, seen.push(pieces[i]))),
    )
}

/// The same for the pieces below `n`.
pub open spec fn outlooks_below(g: Game, c: NodeKey, seen: Seq<u8>, n: nat) -> Seq<u64> {
    let pieces = piece::pieces_below(hidden::bag_after(g.mask, seen), n);
    Seq::new(
        pieces.len(),
        |i: int| score::or_nothing(outlook(g, left_of(c), c, seen.push(pieces[i]))),
    )
}

/// Hope sums up what is known, since nothing adds nothing.
proof fn lemma_hoped_is_total(g: Game, c: NodeKey, seen: Seq<u8>, n: nat)
    requires
        g.ok(),
        score::all_fair(g.calc),
        c.depth <= 4,
        n <= 7,
        forall|i: int| 0 <= i < seen.len() ==> seen[i] < 7,
    ensures
        score::total(g.calc, outlooks_below(g, c, seen, n)) == score::or_nothing(
            hoped(g, left_of(c), c, seen, n),
        ),
        hoped(g, left_of(c), c, seen, n) is Some <==> exists|i: int|
            0 <= i < outlooks_below(g, c, seen, n).len() && #[trigger] outlooks_below(
                g,
                c,
                seen,
                n,
            )[i] != 0,
    decreases n,
{
    if n > 0 {
        let m = (n - 1) as nat;
        let left = left_of(c);
        let more = seen.push(m as u8);
        let was = outlooks_below(g, c, seen, m);
        let now = outlooks_below(g, c, seen, n);
        lemma_hoped_is_total(g, c, seen, m);
        lemma_hoped_above(g, left, c, seen, m);
        assert forall|i: int| 0 <= i < more.len() implies more[i] < 7 by {}
        lemma_outlook_not_below(g, left, c, more);
        if piece::in_bag(hidden::bag_after(g.mask, seen), m as int) {
            assert(now.drop_last() =~= was);
            assert(now.last() == score::or_nothing(outlook(g, left, c, more)));
            assert forall|i: int| 0 <= i < was.len() implies was[i] == now[i] by {}
            if hoped(g, left, c, seen, m) is Some {
                let i = choose|i: int| 0 <= i < was.len() && was[i] != 0;
                assert(now[i] != 0);
            }
            if exists|i: int| 0 <= i < now.len() && now[i] != 0 {
                let i = choose|i: int| 0 <= i < now.len() && now[i] != 0;
                if i < was.len() {
                    assert(was[i] != 0);
                }
            }
            if now.last() != 0 {
                assert(now[now.len() - 1] != 0);
            }
        } else {
            assert(now =~= was);
        }
    }
}

/// Some piece that may come next leaves something to hope for.
pub open spec fn has_hope(g: Game, c: NodeKey, seen: Seq<u8>) -> bool {
    exists|i: int| 0 <= i < outlooks(g, c, seen).len() && #[trigger] outlooks(g, c, seen)[i] != 0
}

/// The mean of a position over the next reveals is what hope amounts to.
pub proof fn lemma_mean_outlook(g: Game, c: NodeKey, seen: Seq<u8>)
    requires
        g.ok(),
        score::all_fair(g.calc),
        c.depth <= 4,
        forall|i: int| 0 <= i < seen.len() ==> seen[i] < 7,
    ensures
        hoped(g, left_of(c), c, seen, 7) is Some <==> has_hope(g, c, seen),
        score::average(g.calc, outlooks(g, c, seen)) == (g.calc)(
            Op::Over(score::or_nothing(hoped(g, left_of(c), c, seen, 7)), choices(g, seen) as u64),
        ),
        score::not_below(score::average(g.calc, outlooks(g, c, seen))),
        !has_hope(g, c, seen) ==> score::average(g.calc, outlooks(g, c, seen)) == 0,
{
    lemma_hoped_is_total(g, c, seen, 7);
    lemma_hoped_above(g, left_of(c), c, seen, 7);
    assert(outlooks_below(g, c, seen, 7) =~= outlooks(g, c, seen));
    hidden::lemma_bag_after(g.mask, seen);
    piece::lemma_pieces_some(hidden::bag_after(g.mask, seen));
}

proof fn lemma_best_expected_bounds(g: Game, list: Seq<NodeKey>, seen: Seq<u8>, i: int, left: nat)
    requires
        g.ok(),
        score::all_fair(g.calc),
        6 <= left,
        forall|j: int| 0 <= j < list.len() ==> left_of(#[trigger] list[j]) == left,
        forall|j: int| 0 <= j < list.len() ==> (#[trigger] list[j]).depth <= 4,
        forall|j: int| 0 <= j < seen.len() ==> seen[j] < 7,
        0 <= i < list.len(),
    ensures
        has_hope(g, list[i], seen) ==> best_expected(g, left, list, seen) is Some,
        !score::exceeds(
            score::average(g.calc, outlooks(g, list[i], seen)),
            score::or_nothing(best_expected(g, left, list, seen)),
        ),
    decreases list.len(),
{
    let sub = list.drop_last();
    assert forall|j: int| 0 <= j < sub.len() implies left_of(#[trigger] sub[j]) == left && sub[j].depth
        <= 4 by {
        assert(sub[j] == list[j]);
    }
    assert(list[list.len() - 1] == list.last());
    assert(left_of(list[list.len() - 1]) == left);
    lemma_mean_outlook(g, list[list.len() - 1], seen);
    lemma_mean_outlook(g, list[i], seen);
    lemma_best_expected_not_below(g, left, list, seen);
    lemma_best_expected_not_below(g, left, sub, seen);
    if i < list.len() - 1 {
        assert(sub[i] == list[i]);
        lemma_best_expected_bounds(g, sub, seen, i, left);
    }
}

proof fn lemma_best_expected_attained(g: Game, list: Seq<NodeKey>, seen: Seq<u8>, left: nat) -> (i:
    int)
    requires
        g.ok(),
        score::all_fair(g.calc),
        6 <= left,
        forall|j: int| 0 <= j < list.len() ==> left_of(#[trigger] list[j]) == left,
        forall|j: int| 0 <= j < list.len() ==> (#[trigger] list[j]).depth <= 4,
        forall|j: int| 0 <= j < seen.len() ==> seen[j] < 7,
        best_expected(g, left, list, seen) is Some,
    ensures
        0 <= i < list.len(),
        has_hope(g, list[i], seen),
        best_expected(g, left, list, seen) == Some(
            score::average(g.calc, outlooks(g, list[i], seen)),
        ),
    decreases list.len(),
{
    let sub = list.drop_last();
    assert forall|j: int| 0 <= j < sub.len() implies left_of(#[trigger] sub[j]) == left && sub[j].depth
        <= 4 by {
        assert(sub[j] == list[j]);
    }
    let n = list.len() - 1;
    assert(list[n] == list.last());
    assert(left_of(list[n]) == left);
    lemma_mean_outlook(g, list[n], seen);
    let b = best_expected(g, left, sub, seen);
    if has_hope(g, list[n], seen) && (b is None || score::exceeds(
        score::average(g.calc, outlooks(g, list[n], seen)),
        b->0,
    )) {
        n
    } else {
        let i = lemma_best_expected_attained(g, sub, seen, left);
        assert(sub[i] == list[i]);
        i
    }
}

/// What is expected of a position with up to three placements made is the mean, over the next
/// reveals, of its best placement: no placement of the piece that is due or of the hold has a
/// higher mean, and some placement has this mean. Nothing is expected where none has any hope.
pub proof fn law_expected_is_the_best_mean(g: Game, k: NodeKey, seen: Seq<u8>)
    requires
        g.ok(),
        score::all_fair(g.calc),
        g.fits(k),
        k.depth <= 3,
        forall|i: int| 0 <= i < seen.len() ==> seen[i] < 7,
    ensures
        forall|c: NodeKey| #[trigger]
            leads_to(g, k, g.visible[k.depth as int], c) ==> !score::exceeds(
                score::average(g.calc, outlooks(g, c, seen)),
                score::or_nothing(expected(g, left_of(k), k, seen)),
            ),
        expected(g, left_of(k), k, seen) matches Some(v) ==> exists|c: NodeKey| #[trigger]
            leads_to(g, k, g.visible[k.depth as int], c) && v == score::average(
                g.calc,
                outlooks(g, c, seen),
            ),
        expected(g, left_of(k), k, seen) is Some <==> exists|c: NodeKey| #[trigger]
            leads_to(g, k, g.visible[k.depth as int], c) && has_hope(g, c, seen),
{
    let p = g.visible[k.depth as int];
    let list = child_keys(g, k);
    let left = (left_of(k) - 1) as nat;
    assert forall|j: int| 0 <= j < list.len() implies left_of(#[trigger] list[j]) == left
        && list[j].depth <= 4 by {
        lemma_child(g, k, j);
    }
    assert forall|c: NodeKey| #[trigger] leads_to(g, k, p, c) implies !score::exceeds(
        score::average(g.calc, outlooks(g, c, seen)),
        score::or_nothing(expected(g, left_of(k), k, seen)),
    ) && (has_hope(g, c, seen) ==> expected(g, left_of(k), k, seen) is Some) by {
        law_placements(g, k, c);
        let i = choose|i: int| 0 <= i < list.len() && list[i] == c;
        lemma_best_expected_bounds(g, list, seen, i, left);
    }
    if expected(g, left_of(k), k, seen) is Some {
        let i = lemma_best_expected_attained(g, list, seen, left);
        assert(list.contains(list[i]));
        law_placements(g, k, list[i]);
        assert(leads_to(g, k, p, list[i]));
    }
}

/// The game is worth the mean of its best first placement over the first reveals.
pub proof fn law_game_is_worth_its_best_start(g: Game)
    requires
        g.ok(),
        score::all_fair(g.calc),
    ensures
        forall|c: NodeKey| #[trigger]
            leads_to(g, g.root(), g.visible[0], c) ==> !score::exceeds(
                score::average(g.calc, outlooks(g, c, Seq::empty())),
                game_value(g),
            ),
        game_value(g) == 0 || exists|c: NodeKey| #[trigger]
            leads_to(g, g.root(), g.visible[0], c) && game_value(g) == score::average(
                g.calc,
                outlooks(g, c, Seq::empty()),
            ),
{
    law_expected_is_the_best_mean(g, g.root(), Seq::empty());
}

/// What is known of a position: once four placements were made, what it is worth under the four
/// reveals; before that, what is expected of it.
pub proof fn law_outlook(g: Game, k: NodeKey, seen: Seq<u8>)
    requires
        k.depth <= 4,
    ensures
        k.depth == 4 ==> outlook(g, left_of(k), k, seen) == Some(worth(g, left_of(k), k, seen)),
        k.depth < 4 ==> outlook(g, left_of(k), k, seen) == expected(g, left_of(k), k, seen),
{
}

/* ---- lines of play ---- */

/// The loop is won.
pub open spec fn won(k: NodeKey) -> bool {
    two_lines(k) || (k.depth == 10 && k.field == MAX_HASH)
}

/// Each position of the line is one placement after the one before.
pub open spec fn played(g: Game, line: Seq<NodeKey>) -> bool {
    forall|i: int, j: int|
        0 <= i && j == i + 1 && j < line.len() ==> child_keys(g, #[trigger] line[i]).contains(
            #[trigger] line[j],
        )
}

/// The line leads from one position to the other.
pub open spec fn joins(g: Game, line: Seq<NodeKey>, from: NodeKey, to: NodeKey) -> bool {
    line.len() > 0 && line[0] == from && line.last() == to && played(g, line)
}

/// The loop can still be won exactly where a line of play leads to a won position.
pub proof fn law_alive_where_a_line_wins(g: Game, k: NodeKey)
    requires
        g.ok(),
        g.fits(k),
    ensures
        alive(g, k) <==> exists|line: Seq<NodeKey>, end: NodeKey| #[trigger]
            joins(g, line, k, end) && won(end),
{
    if alive(g, k) {
        let (line, end) = lemma_winning_line(g, k);
        assert(joins(g, line, k, end));
    }
    assert forall|line: Seq<NodeKey>, end: NodeKey| #[trigger]
        joins(g, line, k, end) && won(end) implies alive(g, k) by {
        lemma_line_wins(g, line, k, end);
    }
}

proof fn lemma_winning_line(g: Game, k: NodeKey) -> (r: (Seq<NodeKey>, NodeKey))
    requires
        g.ok(),
        g.fits(k),
        alive(g, k),
    ensures
        joins(g, r.0, k, r.1),
        won(r.1),
    decreases left_of(k),
{
    if k.depth == 10 || two_lines(k) {
        (seq![k], k)
    } else {
        let list = child_keys(g, k);
        let i = choose|i: int|
            0 <= i < list.len() && survives(g, (left_of(k) - 1) as nat, #[trigger] list[i]);
        lemma_child(g, k, i);
        let (line, end) = lemma_winning_line(g, list[i]);
        let all = seq![k] + line;
        assert(all.last() == line.last());
        assert forall|x: int, y: int| 0 <= x && y == x + 1 && y < all.len() implies child_keys(
            g,
            #[trigger] all[x],
        ).contains(#[trigger] all[y]) by {
            if x == 0 {
                assert(all[1] == line[0]);
            } else {
                assert(all[x] == line[x - 1]);
                assert(all[y] == line[y - 1]);
            }
        }
        (all, end)
    }
}

proof fn lemma_line_wins(g: Game, line: Seq<NodeKey>, k: NodeKey, end: NodeKey)
    requires
        g.ok(),
        g.fits(k),
        joins(g, line, k, end),
        won(end),
    ensures
        alive(g, k),
    decreases line.len(),
{
    if line.len() > 1 {
        assert(child_keys(g, line[0]).contains(line[1]));
        let list = child_keys(g, k);
        let i = choose|i: int| 0 <= i < list.len() && list[i] == line[1];
        lemma_child(g, k, i);
        let rest = line.drop_first();
        assert(rest.last() == line.last());
        assert forall|x: int, y: int| 0 <= x && y == x + 1 && y < rest.len() implies child_keys(
            g,
            #[trigger] rest[x],
        ).contains(#[trigger] rest[y]) by {
            assert(rest[x] == line[x + 1]);
            assert(rest[y] == line[y + 1]);
        }
        lemma_line_wins(g, rest, line[1], end);
        assert(survives(g, (left_of(k) - 1) as nat, list[i]));
    } else {
        assert(end == k);
    }
}

/// A position is reached with `d` placements exactly where a line of so many placements leads to it
/// from the start.
pub proof fn law_reached_where_a_line_leads(g: Game, d: nat, k: NodeKey)
    ensures
        reached(g, d, k) <==> exists|line: Seq<NodeKey>|
            line.len() == d + 1 && #[trigger] joins(g, line, g.root(), k),
    decreases d,
{
    if d == 0 {
        if k == g.root() {
            assert(joins(g, seq![k], g.root(), k));
        }
    } else {
        let m = (d - 1) as nat;
        if reached(g, d, k) {
            let q = choose|q: NodeKey| reached(g, m, q) && #[trigger] child_keys(g, q).contains(k);
            law_reached_where_a_line_leads(g, m, q);
            let line = choose|line: Seq<NodeKey>|
                line.len() == m + 1 && #[trigger] joins(g, line, g.root(), q);
            let more = line.push(k);
            assert forall|x: int, y: int| 0 <= x && y == x + 1 && y < more.len() implies child_keys(
                g,
                #[trigger] more[x],
            ).contains(#[trigger] more[y]) by {
                if y < line.len() {
                    assert(more[x] == line[x] && more[y] == line[y]);
                } else {
                    assert(more[x] == line.last());
                }
            }
            assert(joins(g, more, g.root(), k));
        }
        if exists|line: Seq<NodeKey>| line.len() == d + 1 && #[trigger] joins(g, line, g.root(), k) {
            let line = choose|line: Seq<NodeKey>|
                line.len() == d + 1 && #[trigger] joins(g, line, g.root(), k);
            let less = line.drop_last();
            let q = less.last();
            assert forall|x: int, y: int| 0 <= x && y == x + 1 && y < less.len() implies child_keys(
                g,
                #[trigger] less[x],
            ).contains(#[trigger] less[y]) by {
                assert(less[x] == line[x] && less[y] == line[y]);
            }
            assert(joins(g, less, g.root(), q));
            law_reached_where_a_line_leads(g, m, q);
            assert(child_keys(g, line[d - 1]).contains(line[d as int]));
        }
    }
}

/// The placements that are kept are those after which the loop can still be won, in their order.
pub proof fn law_live_placements_are_kept(g: Game, k: NodeKey)
    requires
        g.ok(),
        g.fits(k),
    ensures
        live_children(g, k) == child_keys(g, k).filter(|c: NodeKey| alive(g, c)),
{
    let list = child_keys(g, k);
    assert forall|i: int| 0 <= i < list.len() implies left_of(#[trigger] list[i]) == left_of(k)
        - 1 by {
        lemma_child(g, k, i);
    }
    lemma_live_filter(g, (left_of(k) - 1) as nat, list);
}

proof fn lemma_live_filter(g: Game, left: nat, list: Seq<NodeKey>)
    requires
        forall|i: int| 0 <= i < list.len() ==> left_of(#[trigger] list[i]) == left,
    ensures
        live_keys(g, left, list) == list.filter(|c: NodeKey| alive(g, c)),
    decreases list.len(),
{
    reveal(Seq::filter);
    if list.len() > 0 {
        let sub = list.drop_last();
        assert forall|i: int| 0 <= i < sub.len() implies left_of(#[trigger] sub[i]) == left by {
            assert(sub[i] == list[i]);
        }
        lemma_live_filter(g, left, sub);
        assert(left_of(list[list.len() - 1]) == left);
    }
}

} // verus!
