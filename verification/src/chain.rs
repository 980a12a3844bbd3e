//! The boundary states that reveals lead to are those that the bags can bring about, so a table that
//! has all of those lacks nothing that a search asks for.

use vstd::prelude::*;
use crate::bytes;
use crate::game;
use crate::game::{Game, NodeKey};
use crate::hidden;
use crate::piece;
use crate::piece::FULL_BAG;
use crate::score::{Contribution, Op};
use crate::value_search;
use crate::values;

verus! {

/// How many pieces are in a bag.
pub open spec fn size(bag: u8) -> nat {
    piece::pieces_of(bag).len()
}

/// Where the pieces of the bag that is being dealt begin in a queue that ends with the last deal.
pub open spec fn bag_start(queue: Seq<u8>, bag: u8) -> int {
    if queue.len() <= 7 - size(bag) {
        0
    } else {
        queue.len() - (7 - size(bag))
    }
}

/// The last deals, with `bag` left over: the pieces of each of the two bags that they come from are
/// different, and those of the later one are in it no more.
pub open spec fn dealt_in_order(queue: Seq<u8>, bag: u8) -> bool {
    let t = bag_start(queue, bag);
    &&& values::arrangement(queue.take(t))
    &&& values::arrangement(queue.skip(t))
    &&& forall|i: int| t <= i < queue.len() ==> !piece::in_bag(bag, #[trigger] queue[i] as int)
}

/// The table has every state that the bags can bring about.
pub open spec fn complete(rows: Seq<(u32, Contribution)>) -> bool {
    forall|key: u32| values::chain_key(key) ==> #[trigger] values::found(rows, key) is Some
}

/* ---- how many pieces are left ---- */

proof fn lemma_size_without(mask: u8, p: u8, n: nat)
    requires
        piece::in_bag(mask, p as int),
        n <= 7,
    ensures
        piece::pieces_below(mask & !(1u8 << p), n).len() == piece::pieces_below(mask, n).len() - (
        if p < n {
            1int
        } else {
            0
        }),
    decreases n,
{
    broadcast use piece::lemma_in_bag_range;

    if n > 0 {
        lemma_size_without(mask, p, (n - 1) as nat);
        piece::lemma_after_has(mask, p, n - 1);
    }
}

proof fn lemma_size_full(n: nat)
    requires
        n <= 7,
    ensures
        piece::pieces_below(FULL_BAG, n).len() == n,
    decreases n,
{
    if n > 0 {
        lemma_size_full((n - 1) as nat);
        piece::lemma_after_has(FULL_BAG, 0, n - 1);
    }
}

/// A draw takes one piece out of a bag; the last draw fills it.
pub proof fn law_size_after_draw(mask: u8, p: u8)
    requires
        piece::bag(mask),
        piece::in_bag(mask, p as int),
    ensures
        size(FULL_BAG) == 7,
        1 <= size(mask) <= 7,
        size(mask) == 1 ==> piece::after(mask, p) == FULL_BAG,
        size(mask) > 1 ==> size(piece::after(mask, p)) == size(mask) - 1,
        size(mask) > 1 ==> forall|q: int| #[trigger]
            piece::in_bag(piece::after(mask, p), q) <==> piece::in_bag(mask, q) && q != p,
{
    broadcast use piece::lemma_in_bag_range;

    lemma_size_full(7);
    lemma_size_without(mask, p, 7);
    piece::lemma_pieces_some(mask);
    let rest = mask & !(1u8 << p);
    if rest == 0 {
        lemma_size_empty(7);
    } else {
        piece::lemma_after(mask, p);
        piece::lemma_pieces_some(rest);
        assert forall|q: int| #[trigger]
            piece::in_bag(piece::after(mask, p), q) <==> piece::in_bag(mask, q) && q != p by {
            if 0 <= q < 7 {
                piece::lemma_after_has(mask, p, q);
            }
        }
    }
}

proof fn lemma_size_empty(n: nat)
    requires
        n <= 7,
    ensures
        piece::pieces_below(0, n).len() == 0,
    decreases n,
{
    if n > 0 {
        lemma_size_empty((n - 1) as nat);
        piece::lemma_after_has(0, 0, n - 1);
    }
}

/* ---- deals ---- */

/// One more deal.
proof fn lemma_deal(queue: Seq<u8>, bag: u8, p: u8)
    requires
        piece::bag(bag),
        dealt_in_order(queue, bag),
        piece::in_bag(bag, p as int),
        queue.len() < 6,
    ensures
        dealt_in_order(queue.push(p), piece::after(bag, p)),
        piece::bag(piece::after(bag, p)),
{
    broadcast use piece::lemma_in_bag_range;

    let t = bag_start(queue, bag);
    let next = piece::after(bag, p);
    let more = queue.push(p);
    law_size_after_draw(bag, p);
    piece::lemma_after(bag, p);
    if size(bag) == 1 {
        assert(t == 0);
        assert(bag_start(more, next) == more.len());
        assert(more.take(more.len() as int) =~= more);
        assert(queue.skip(0) =~= queue);
        assert forall|i: int, j: int|
            0 <= i < more.len() && 0 <= j < more.len() && i != j implies more[i] != more[j] by {
            assert(i < queue.len() ==> !piece::in_bag(bag, queue[i] as int));
            assert(j < queue.len() ==> !piece::in_bag(bag, queue[j] as int));
        }
        assert(values::arrangement(more));
        assert(more.skip(more.len() as int).len() == 0);
    } else {
        assert(bag_start(more, next) == t);
        assert(more.take(t) =~= queue.take(t));
        let tail = more.skip(t);
        assert(tail =~= queue.skip(t).push(p));
        assert forall|i: int| t <= i < more.len() implies !piece::in_bag(
            next,
            #[trigger] more[i] as int,
        ) by {
            if i < queue.len() {
                assert(!piece::in_bag(bag, queue[i] as int));
            }
        }
        assert forall|i: int, j: int|
            0 <= i < tail.len() && 0 <= j < tail.len() && i != j implies tail[i] != tail[j] by {
            let last = tail.len() - 1;
            if i == last {
                assert(tail[j] == queue[t + j]);
            } else if j == last {
                assert(tail[i] == queue[t + i]);
            } else {
                assert(tail[i] == queue.skip(t)[i] && tail[j] == queue.skip(t)[j]);
            }
        }
        assert forall|i: int| 0 <= i < tail.len() implies tail[i] < 7 by {
            if i < tail.len() - 1 {
                assert(tail[i] == queue.skip(t)[i]);
            }
        }
        assert(values::arrangement(tail));
    }
}

/// Six deals in order make a state that the bags can bring about.
proof fn lemma_chain_state(hold: u8, queue: Seq<u8>, bag: u8)
    requires
        hold < 7,
        piece::bag(bag),
        queue.len() == 6,
        dealt_in_order(queue, bag),
    ensures
        values::chain_state(hold, bag, queue),
{
    piece::lemma_pieces_some(bag);
}

/// The states after all pieces that the bag can reveal are states that the bags can bring about.
pub proof fn law_reveals_are_chain_states(hold: u8, queue: Seq<u8>, bag: u8, reveals: Seq<u8>)
    requires
        hold < 7,
        piece::bag(bag),
        dealt_in_order(queue, bag),
        hidden::legal(bag, reveals),
        queue.len() + reveals.len() == 6,
    ensures
        values::chain_state(hold, hidden::bag_after(bag, reveals), queue + reveals),
    decreases reveals.len(),
{
    if reveals.len() == 0 {
        assert(queue + reveals =~= queue);
        lemma_chain_state(hold, queue, bag);
    } else {
        let p = reveals[0];
        lemma_deal(queue, bag, p);
        assert(queue.push(p) + reveals.drop_first() =~= queue + reveals);
        law_reveals_are_chain_states(
            hold,
            queue.push(p),
            piece::after(bag, p),
            reveals.drop_first(),
        );
    }
}

/* ---- what a complete table lacks ---- */

proof fn lemma_found(rows: Seq<(u32, Contribution)>, hold: u8, queue: Seq<u8>, bag: u8)
    requires
        complete(rows),
        hold < 7,
        piece::bag(bag),
        queue.len() == 6,
        dealt_in_order(queue, bag),
    ensures
        values::reset_missing(Some(rows), hold, queue, bag) == 0,
{
    lemma_chain_state(hold, queue, bag);
    values::lemma_state_key(hold, bag, queue);
    let key = values::state_key(hold, bag, queue) as u32;
    assert(values::bag_key(bag, key));
    assert(values::chain_key(key));
}

proof fn lemma_sum4_lacks_nothing(
    rows: Seq<(u32, Contribution)>,
    calc: spec_fn(Op) -> u64,
    hold: u8,
    mask: u8,
    queue: Seq<u8>,
)
    requires
        complete(rows),
        hold < 7,
        piece::bag(mask),
        queue.len() <= 6,
        dealt_in_order(queue, mask),
    ensures
        values::sum4(Some(rows), calc, hold, mask, queue).2 == 0,
    decreases 6 - queue.len(), 8nat,
{
    if queue.len() == 6 {
        lemma_found(rows, hold, queue, mask);
    } else {
        lemma_sum4_below_lacks_nothing(rows, calc, hold, mask, queue, 7);
    }
}

proof fn lemma_sum4_below_lacks_nothing(
    rows: Seq<(u32, Contribution)>,
    calc: spec_fn(Op) -> u64,
    hold: u8,
    mask: u8,
    queue: Seq<u8>,
    n: nat,
)
    requires
        complete(rows),
        hold < 7,
        piece::bag(mask),
        queue.len() < 6,
        dealt_in_order(queue, mask),
        n <= 7,
    ensures
        values::sum4_below(Some(rows), calc, hold, mask, queue, n).2 == 0,
    decreases 6 - queue.len(), n,
{
    if n > 0 {
        lemma_sum4_below_lacks_nothing(rows, calc, hold, mask, queue, (n - 1) as nat);
        if piece::in_bag(mask, n - 1) {
            let p = (n - 1) as u8;
            lemma_deal(queue, mask, p);
            lemma_sum4_lacks_nothing(rows, calc, hold, piece::after(mask, p), queue.push(p));
        }
    }
}

proof fn lemma_sum2_lacks_nothing(
    rows: Seq<(u32, Contribution)>,
    calc: spec_fn(Op) -> u64,
    hold: u8,
    mask: u8,
    queue: Seq<u8>,
    n: nat,
)
    requires
        complete(rows),
        hold < 7,
        piece::bag(mask),
        queue.len() == 5,
        dealt_in_order(queue, mask),
        n <= 7,
    ensures
        values::sum2_below(Some(rows), calc, hold, mask, queue, n).2 == 0,
    decreases n,
{
    if n > 0 {
        lemma_sum2_lacks_nothing(rows, calc, hold, mask, queue, (n - 1) as nat);
        if piece::in_bag(mask, n - 1) {
            let p = (n - 1) as u8;
            lemma_deal(queue, mask, p);
            lemma_found(rows, hold, queue.push(p), piece::after(mask, p));
        }
    }
}

proof fn lemma_deals(queue: Seq<u8>, bag: u8, reveals: Seq<u8>)
    requires
        piece::bag(bag),
        dealt_in_order(queue, bag),
        hidden::legal(bag, reveals),
        queue.len() + reveals.len() <= 6,
    ensures
        piece::bag(hidden::bag_after(bag, reveals)),
        dealt_in_order(queue + reveals, hidden::bag_after(bag, reveals)),
    decreases reveals.len(),
{
    if reveals.len() == 0 {
        assert(queue + reveals =~= queue);
    } else {
        let p = reveals[0];
        lemma_deal(queue, bag, p);
        assert(queue.push(p) + reveals.drop_first() =~= queue + reveals);
        lemma_deals(queue.push(p), piece::after(bag, p), reveals.drop_first());
    }
}

/// The last preview of a game is not in the bag that is left over, or that bag is a new one.
pub open spec fn in_phase(g: Game) -> bool {
    g.mask == FULL_BAG || !piece::in_bag(g.mask, g.visible[5] as int)
}

/// A complete table lacks nothing of a game whose previews and bag go together.
pub proof fn law_complete_table_lacks_nothing(
    g: Game,
    rows: Seq<(u32, Contribution)>,
    keys: Seq<NodeKey>,
    known: spec_fn(u8, u8) -> bool,
    from: int,
)
    requires
        g.ok(),
        g.book == Some(rows),
        complete(rows),
        in_phase(g),
        forall|i: int| 0 <= i < keys.len() ==> g.fits(#[trigger] keys[i]),
    ensures
        value_search::lacking_from(g, keys, known, from) == 0,
    decreases keys.len() - from,
{
    if 0 <= from < keys.len() {
        let k = keys[from];
        assert(g.fits(k));
        if k.depth == 10 {
            let none = Seq::<u8>::empty();
            assert(none.take(0) =~= none);
            assert(none.skip(0) =~= none);
            piece::lemma_pieces_some(k.mask);
            lemma_sum4_lacks_nothing(rows, g.calc, k.hold, k.mask, none);
        } else if game::two_lines(k) {
            lemma_lacking2(g, rows, k.hold, hidden::reveals(g.mask, 4).len());
        }
        law_complete_table_lacks_nothing(g, rows, keys, known, from + 1);
    }
}

proof fn lemma_lacking2(g: Game, rows: Seq<(u32, Contribution)>, hold: u8, n: nat)
    requires
        g.ok(),
        g.book == Some(rows),
        complete(rows),
        in_phase(g),
        hold < 7,
        n <= hidden::reveals(g.mask, 4).len(),
    ensures
        value_search::lacking2(g, hold, n) == 0,
    decreases n,
{
    if n > 0 {
        lemma_lacking2(g, rows, hold, (n - 1) as nat);
        let h = hidden::reveals(g.mask, 4)[n - 1];
        let q = seq![g.visible[5]];
        hidden::lemma_reveals_legal(g.mask, 4, n - 1);
        piece::lemma_pieces_some(g.mask);
        lemma_size_full(7);
        assert(dealt_in_order(q, g.mask)) by {
            let t = bag_start(q, g.mask);
            if g.mask == FULL_BAG {
                assert(t == 1);
                assert(q.take(1) =~= q);
                assert(q.skip(1).len() == 0);
            } else {
                lemma_not_full(g.mask);
                assert(t == 0);
                assert(q.take(0).len() == 0);
                assert(q.skip(0) =~= q);
            }
        }
        lemma_deals(q, g.mask, h);
        lemma_sum2_lacks_nothing(
            rows,
            g.calc,
            hold,
            hidden::bag_after(g.mask, h),
            q + h,
            7,
        );
    }
}

/// A bag that lacks a piece is not of full size.
proof fn lemma_not_full(mask: u8)
    requires
        piece::bag(mask),
        mask != FULL_BAG,
    ensures
        size(mask) < 7,
{
    piece::lemma_pieces_some(mask);
    if size(mask) == 7 {
        lemma_all_in(mask, 7);
        piece::lemma_all_in_is_full(mask);
    }
}

proof fn lemma_all_in(mask: u8, n: nat)
    requires
        n <= 7,
        piece::pieces_below(mask, n).len() == n,
    ensures
        forall|p: int| 0 <= p < n ==> piece::in_bag(mask, p),
    decreases n,
{
    if n > 0 {
        piece::lemma_pieces_below(mask, (n - 1) as nat);
        lemma_all_in(mask, (n - 1) as nat);
    }
}

/// A table of steps is complete.
pub proof fn law_step_table_is_complete(b: Seq<u8>)
    requires
        bytes::begins(b, values::STEP_MAGIC),
        values::parsed(b) is Ok,
    ensures
        complete(values::parsed(b)->Ok_0),
{
    assert forall|key: u32| values::chain_key(key) implies #[trigger] values::found(
        values::parsed(b)->Ok_0,
        key,
    ) is Some by {
        values::law_steps_complete(b, key);
    }
}

} // verus!
