//! The search over one loop: what it is worth, and what each placement in it is worth when it is
//! chosen.
//!
//! Up to the fourth placement a position is kept with one value for every sequence of four reveals;
//! from the seventh on, with one value for every sequence that its bag can still reveal. The values
//! of the first positions are means over the reveals that are not seen yet.

use vstd::prelude::*;
use crate::dag;
use crate::dag::{build_dag, prune_to_terminal_reachable, Dag, EdgeSource, Node};
use crate::game;
use crate::game::{Game, NodeKey};
use crate::graph::{MAX_HASH, TWO_LINE_HASH};
use crate::hidden;
use crate::hidden::{
    build_ranges,
    build_suffix_tables,
    canonical_mask,
    get_hidden,
    mask_after_hidden_prefix,
    range_key,
    set_hidden,
    SeqRange,
    SuffixTables,
};
use crate::piece;
use crate::piece::{after_reveal, has, Piece};
use crate::score;
use crate::score::{ask, greater, none_left, Op};
use crate::table::Table;
use crate::values;
use crate::values::ResetEval;

pub use crate::analysis::{AnalysisCand, AnalysisNode};

verus! {

/// How many reveals the values of a position tell apart.
pub open spec fn span(depth: u8) -> nat {
    if depth <= 6 {
        4
    } else {
        (10 - depth) as nat
    }
}

/// The vector holds what the position is worth for each sequence that its bag can reveal.
pub open spec fn fit_vector(g: Game, k: NodeKey, v: Seq<u64>) -> bool {
    let all = hidden::reveals(k.mask, span(k.depth));
    &&& v.len() == all.len()
    &&& forall|i: int|
        0 <= i < v.len() ==> #[trigger] v[i] == game::worth(g, game::left_of(k), k, all[i])
}

/// Every node from `from` on with four placements made or more has its vector.
pub open spec fn vals_ok(g: Game, nodes: Seq<Node>, vals: Table<Vec<u64>>, from: int) -> bool {
    &&& vals.wf()
    &&& forall|i: int|
        from <= i < nodes.len() && (#[trigger] nodes[i]).key.depth >= 4 ==> vals@.dom().contains(
            i as u64,
        ) && fit_vector(g, nodes[i].key, vals@[i as u64]@)
}

/// What a future means for the next placement: the bag that it must leave, and what comes then.
spec fn aim(k: NodeKey, future: Seq<u8>) -> (Option<u8>, Seq<u8>) {
    if k.depth < 6 {
        (None, future)
    } else {
        (Some(piece::after(k.mask, future[0])), future.drop_first())
    }
}

/// The piece whose reveal takes one bag to the other.
fn revealed(from: u8, to: u8) -> (q: u8)
    requires
        piece::bag(from),
        exists|p: u8| piece::in_bag(from, p as int) && to == #[trigger] piece::after(from, p),
    ensures
        q < 7,
        piece::in_bag(from, q as int),
        to == piece::after(from, q),
{
    let ghost w = choose|p: u8| piece::in_bag(from, p as int) && to == #[trigger] piece::after(from, p);
    proof {
        piece::lemma_in_bag_range(from, w as int);
    }
    let mut p: u8 = 0;
    while p < 6
        invariant
            p <= 6,
            p <= w < 7,
            piece::bag(from),
            piece::in_bag(from, w as int),
            to == piece::after(from, w),
        decreases 6 - p,
    {
        if has(from, p) && after_reveal(from, p) == to {
            return p;
        }
        p = p + 1;
    }
    p
}

/// Index `i` stands in the block of reveal `q` exactly when the sequence starts with `q`.
proof fn lemma_in_block(mask: u8, n: nat, q: u8, i: int)
    requires
        n > 0,
        piece::in_bag(mask, q as int),
        0 <= i < hidden::reveals(mask, n).len(),
        hidden::reveals(mask, n)[i][0] == q,
    ensures
        hidden::branches(mask, n, q as nat).len() <= i < hidden::branches(mask, n, q as nat).len()
            + hidden::reveals(piece::after(mask, q), (n - 1) as nat).len(),
{
    let s = hidden::reveals(mask, n)[i];
    hidden::lemma_reveals_legal(mask, n, i);
    hidden::lemma_rank(piece::after(mask, q), s.drop_first());
}

/// Raise the values of one block to those of a placement.
fn raise(
    dst: &mut Vec<u64>,
    offset: usize,
    child: &Vec<u64>,
    Ghost(g): Ghost<Game>,
    Ghost(k): Ghost<NodeKey>,
    Ghost(list): Ghost<Seq<NodeKey>>,
    Ghost(e): Ghost<int>,
)
    requires
        g.ok(),
        g.fits(k),
        4 <= k.depth < 10,
        !game::two_lines(k),
        0 <= e < list.len(),
        list[e].depth == k.depth + 1,
        g.fits(list[e]),
        fit_vector(g, list[e], child@),
        k.depth < 6 ==> offset == 0 && list[e].mask == k.mask,
        k.depth >= 6 ==> exists|q: u8|
            piece::in_bag(k.mask, q as int) && list[e].mask == #[trigger] piece::after(k.mask, q)
                && offset == hidden::branches(k.mask, span(k.depth), q as nat).len(),
        old(dst)@.len() == hidden::reveals(k.mask, span(k.depth)).len(),
        forall|i: int|
            0 <= i < old(dst)@.len() ==> #[trigger] old(dst)@[i] == bested(
                g,
                k,
                list.take(e),
                i,
            ),
    ensures
        final(dst)@.len() == old(dst)@.len(),
        forall|i: int|
            0 <= i < final(dst)@.len() ==> #[trigger] final(dst)@[i] == bested(
                g,
                k,
                list.take(e + 1),
                i,
            ),
{
    let ghost n = span(k.depth);
    let ghost all = hidden::reveals(k.mask, n);
    let ghost c = list[e];
    let ghost q: u8 = 0;
    proof {
        assert(list.take(e + 1).drop_last() =~= list.take(e));
        if k.depth >= 6 {
            q = choose|q: u8|
                piece::in_bag(k.mask, q as int) && c.mask == #[trigger] piece::after(k.mask, q)
                    && offset == hidden::branches(k.mask, n, q as nat).len();
            assert forall|i: int| offset <= i < offset + child@.len() implies #[trigger] all[i]
                == seq![q] + hidden::reveals(c.mask, (n - 1) as nat)[i - offset] by {
                hidden::lemma_branch_block(k.mask, n, q, i - offset);
            }
            if child@.len() > 0 {
                hidden::lemma_branch_block(k.mask, n, q, child@.len() - 1);
            } else {
                hidden::lemma_reveals_some(c.mask, (n - 1) as nat);
            }
        }
    }
    let ghost before = dst@;
    let mut j: usize = 0;
    let size: usize = dst.len();
    while j < child.len()
        invariant
            j <= child@.len(),
            offset + child@.len() <= dst@.len(),
            dst@.len() == before.len(),
            size == dst@.len(),
            before.len() == all.len(),
            n == span(k.depth),
            all == hidden::reveals(k.mask, n),
            4 <= k.depth < 10,
            !game::two_lines(k),
            0 <= e < list.len(),
            c == list[e],
            c.depth == k.depth + 1,
            fit_vector(g, c, child@),
            list.take(e + 1).drop_last() == list.take(e),
            k.depth < 6 ==> offset == 0 && c.mask == k.mask,
            k.depth >= 6 ==> c.mask == piece::after(k.mask, q) && forall|i: int|
                offset <= i < offset + child@.len() ==> #[trigger] all[i] == seq![q]
                    + hidden::reveals(c.mask, (n - 1) as nat)[i - offset],
            forall|i: int|
                0 <= i < before.len() ==> #[trigger] before[i] == bested(g, k, list.take(e), i),
            forall|i: int|
                0 <= i < before.len() && !(offset <= i < offset + j) ==> #[trigger] dst@[i]
                    == before[i],
            forall|i: int|
                offset <= i < offset + j ==> #[trigger] dst@[i] == bested(
                    g,
                    k,
                    list.take(e + 1),
                    i,
                ),
        decreases child@.len() - j,
    {
        let at: usize = offset + j;
        let v: u64 = child[j];
        proof {
            let fut = all[at as int];
            assert(before[at as int] == bested(g, k, list.take(e), at as int));
            assert(dst@[at as int] == before[at as int]);
            assert(child@[j as int] == v);
            if k.depth >= 6 {
                assert(all[at as int] == seq![q] + hidden::reveals(c.mask, (n - 1) as nat)[j as int]);
                assert(fut[0] == q);
                assert(fut.drop_first() =~= hidden::reveals(c.mask, (n - 1) as nat)[j as int]);
            }
            assert(list.take(e + 1).last() == c);
        }
        if greater(v, dst[at]) {
            dst.set(at, v);
        }
        j = j + 1;
    }
    proof {
        assert forall|i: int| 0 <= i < dst@.len() implies #[trigger] dst@[i] == bested(
            g,
            k,
            list.take(e + 1),
            i,
        ) by {
            if !(offset <= i < offset + child@.len()) {
                assert(dst@[i] == before[i]);
                assert(before[i] == bested(g, k, list.take(e), i));
                assert(list.take(e + 1).last() == c);
                let fut = all[i];
                if k.depth >= 6 && piece::after(k.mask, fut[0]) == c.mask {
                    hidden::lemma_reveals_legal(k.mask, n, i);
                    piece::lemma_after_differs(k.mask, fut[0], q);
                    lemma_in_block(k.mask, n, q, i);
                }
            }
        }
    }
}

/// The most that a position of the list is worth for the sequence of reveals number `i`.
spec fn bested(g: Game, k: NodeKey, list: Seq<NodeKey>, i: int) -> u64 {
    let a = aim(k, hidden::reveals(k.mask, span(k.depth))[i]);
    game::best(g, (game::left_of(k) - 1) as nat, list, a.0, a.1)
}

/// A position with its placements left out of account is worth nothing.
proof fn lemma_bested_none(g: Game, k: NodeKey, i: int)
    ensures
        bested(g, k, Seq::empty(), i) == 0,
{
}

/// Over all live placements the best is what the position is worth.
proof fn lemma_bested_all(g: Game, k: NodeKey, i: int)
    requires
        k.depth < 10,
        !game::two_lines(k),
    ensures
        bested(g, k, game::live_children(g, k), i) == game::worth(
            g,
            game::left_of(k),
            k,
            hidden::reveals(k.mask, span(k.depth))[i],
        ),
{
    let fut = hidden::reveals(k.mask, span(k.depth))[i];
    let a = aim(k, fut);
    game::lemma_best_live(
        g,
        (game::left_of(k) - 1) as nat,
        game::child_keys(g, k),
        a.0,
        a.1,
    );
}

/// What is known of a node of the pruned graph.
pub proof fn lemma_live_node(g: Game, dag: Dag, i: int)
    requires
        dag::live_dag(g, dag),
        0 <= i < dag.nodes@.len(),
    ensures
        g.fits(dag.nodes@[i].key),
        game::alive(g, dag.nodes@[i].key),
        dag::expanded_live(g, dag.nodes@, dag.nodes@[i], i),
{
    reveal(dag::live_dag);
}

/// An edge of the pruned graph is a placement.
pub proof fn lemma_live_edge(g: Game, dag: Dag, i: int, j: int)
    requires
        g.ok(),
        dag::live_dag(g, dag),
        0 <= i < dag.nodes@.len(),
        0 <= j < dag.nodes@[i].edges@.len(),
    ensures
        ({
            let k = dag.nodes@[i].key;
            let e = dag.nodes@[i].edges@[j] as int;
            let c = dag.nodes@[e].key;
            &&& i < e < dag.nodes@.len()
            &&& c == game::live_children(g, k)[j]
            &&& j < game::live_children(g, k).len()
            &&& g.fits(c)
            &&& k.depth < 10
            &&& c.depth == k.depth + 1
            &&& k.depth < 6 ==> c.mask == k.mask
            &&& k.depth >= 6 ==> exists|p: u8|
                piece::in_bag(k.mask, p as int) && c.mask == #[trigger] piece::after(k.mask, p)
        }),
{
    lemma_live_node(g, dag, i);
    let k = dag.nodes@[i].key;
    let e = dag.nodes@[i].edges@[j] as int;
    let list = game::child_keys(g, k);
    let live = game::live_children(g, k);
    assert(dag::edge_keys(dag.nodes@, dag.nodes@[i].edges@)[j] == dag.nodes@[e].key);
    game::lemma_live_keys(g, (game::left_of(k) - 1) as nat, list);
    assert(list.contains(live[j]));
    let t = choose|t: int| 0 <= t < list.len() && list[t] == live[j];
    game::lemma_child(g, k, t);
}

/// The vector of a position from those of the positions that it leads to.
fn backup(
    dag: &Dag,
    id: usize,
    suffix: &SuffixTables,
    vals: &Table<Vec<u64>>,
    Ghost(g): Ghost<Game>,
) -> (dst: Vec<u64>)
    requires
        g.ok(),
        dag::live_dag(g, *dag),
        suffix.wf(),
        id < dag.nodes@.len(),
        4 <= dag.nodes@[id as int].key.depth < 10,
        !game::two_lines(dag.nodes@[id as int].key),
        vals_ok(g, dag.nodes@, *vals, id + 1),
    ensures
        fit_vector(g, dag.nodes@[id as int].key, dst@),
{
    let key: NodeKey = dag.nodes[id].key;
    let ghost list = game::live_children(g, key);
    let ghost es = dag.nodes@[id as int].edges@;
    proof {
        lemma_live_node(g, *dag, id as int);
    }
    let n: usize = if key.depth <= 6 {
        4
    } else {
        (10 - key.depth) as usize
    };
    let len: usize = suffix.cnt[key.mask as usize][n] as usize;
    let mut dst: Vec<u64> = vec![0u64; len];
    proof {
        assert(suffix.cnt@[key.mask as int]@[n as int] == hidden::reveals(key.mask, n as nat).len());
        assert(list.take(0) =~= Seq::<NodeKey>::empty());
        assert forall|i: int| 0 <= i < dst@.len() implies #[trigger] dst@[i] == bested(
            g,
            key,
            list.take(0),
            i,
        ) by {
            lemma_bested_none(g, key, i);
        }
        assert(dag::edge_keys(dag.nodes@, es).len() == es.len());
    }
    let mut e: usize = 0;
    while e < dag.nodes[id].edges.len()
        invariant
            g.ok(),
            dag::live_dag(g, *dag),
            suffix.wf(),
            id < dag.nodes@.len(),
            key == dag.nodes@[id as int].key,
            es == dag.nodes@[id as int].edges@,
            4 <= key.depth < 10,
            g.fits(key),
            !game::two_lines(key),
            n == span(key.depth),
            list == game::live_children(g, key),
            list.len() == es.len(),
            vals_ok(g, dag.nodes@, *vals, id + 1),
            e <= es.len(),
            dst@.len() == hidden::reveals(key.mask, n as nat).len(),
            forall|i: int|
                0 <= i < dst@.len() ==> #[trigger] dst@[i] == bested(
                    g,
                    key,
                    list.take(e as int),
                    i,
                ),
        decreases es.len() - e,
    {
        let c: usize = dag.nodes[id].edges[e];
        proof {
            lemma_live_edge(g, *dag, id as int, e as int);
            assert(dag.nodes@[c as int].key.depth >= 4);
        }
        let offset: usize = if key.depth >= 6 {
            let q: u8 = revealed(key.mask, dag.nodes[c].key.mask);
            assert(suffix.off@[key.mask as int]@[n as int]@[q as int] == hidden::branches(
                key.mask,
                n as nat,
                q as nat,
            ).len());
            suffix.off[key.mask as usize][n][q as usize] as usize
        } else {
            0
        };
        if let Some(child) = vals.get(c as u64) {
            raise(&mut dst, offset, child, Ghost(g), Ghost(key), Ghost(list), Ghost(e as int));
        }
        e = e + 1;
    }
    proof {
        assert(list.take(list.len() as int) =~= list);
        assert forall|i: int| 0 <= i < dst@.len() implies #[trigger] dst@[i] == game::worth(
            g,
            game::left_of(key),
            key,
            hidden::reveals(key.mask, span(key.depth))[i],
        ) by {
            lemma_bested_all(g, key, i);
        }
    }
    dst
}

/// The packed form of every sequence of four reveals.
pub open spec fn packs_ok(mask: u8, packs: Seq<u16>) -> bool {
    let all = hidden::reveals(mask, 4);
    &&& packs.len() == all.len()
    &&& forall|i: int| 0 <= i < packs.len() ==> #[trigger] packs[i] == hidden::packed(all[i])
}

fn list_packs(mask: u8, leaf_count: usize, ranges: &Table<SeqRange>) -> (packs: Vec<u16>)
    requires
        piece::bag(mask),
        leaf_count == hidden::reveals(mask, 4).len(),
        ranges.wf(),
        hidden::ranges_ok(mask, ranges@),
    ensures
        packs_ok(mask, packs@),
{
    let mut packs: Vec<u16> = vec![0u16; leaf_count];
    let ghost all = hidden::reveals(mask, 4);
    let mut r: usize = 0;
    let total: usize = ranges.len();
    proof {
        ranges.lemma_order();
    }
    while r < total
        invariant
            r <= total,
            total == ranges.order().len(),
            piece::bag(mask),
            all == hidden::reveals(mask, 4),
            ranges.wf(),
            hidden::ranges_ok(mask, ranges@),
            forall|i: int|
                0 <= i < ranges.order().len() ==> ranges@.dom().contains(
                    #[trigger] ranges.order()[i],
                ),
            packs@.len() == all.len(),
            forall|t: int|
                0 <= t < r ==> pack_in(mask, packs@, #[trigger] ranges.order()[t]),
        decreases total - r,
    {
        let w: u64 = ranges.key(r);
        let ghost was = packs@;
        assert(ranges@.dom().contains(w));
        let ghost s = choose|s: Seq<u8>|
            s.len() <= 4 && #[trigger] hidden::legal(mask, s) && w == hidden::range_word(s) && (
            ranges@[w].start as nat, ranges@[w].len as nat) == hidden::range_of(mask, s);
        proof {
            hidden::lemma_small(mask, s);
            hidden::lemma_pow8();
            hidden::lemma_packed_bound(s);
            lemma_word_parts(s);
        }
        if w / 65536 == 4 {
            if let Some(range) = ranges.get(w) {
                proof {
                    hidden::lemma_rank(mask, s);
                }
                packs.set(range.start as usize, (w % 65536) as u16);
            }
        }
        proof {
            assert forall|t: int| 0 <= t < r + 1 implies pack_in(
                mask,
                packs@,
                #[trigger] ranges.order()[t],
            ) by {
                let v = ranges.order()[t];
                assert forall|u: Seq<u8>| #[trigger]
                    hidden::legal(mask, u) && u.len() == 4 && v == hidden::range_word(u) implies packs@[
                hidden::rank(mask, u) as int] == hidden::packed(u) by {
                    hidden::lemma_small(mask, u);
                    hidden::lemma_rank(mask, u);
                    if t < r {
                        assert(pack_in(mask, was, v));
                        if packs@ != was && hidden::rank(mask, u) == hidden::rank(mask, s) {
                            hidden::lemma_rank(mask, s);
                        }
                    } else {
                        hidden::lemma_range_word(u, s);
                    }
                }
            }
        }
        r = r + 1;
    }
    proof {
        assert forall|i: int| 0 <= i < packs@.len() implies #[trigger] packs@[i] == hidden::packed(
            all[i],
        ) by {
            let u = all[i];
            hidden::lemma_reveals_legal(mask, 4, i);
            hidden::lemma_small(mask, u);
            hidden::lemma_ranges(mask, ranges@, u);
            let v = hidden::range_word(u) as u64;
            lemma_word_parts(u);
            assert(ranges.order().contains(v));
            let t = choose|t: int| 0 <= t < ranges.order().len() && ranges.order()[t] == v;
            assert(pack_in(mask, packs@, ranges.order()[t]));
        }
    }
    packs
}

/// If the key is that of a sequence of four, its packed form is at its place.
spec fn pack_in(mask: u8, packs: Seq<u16>, w: u64) -> bool {
    forall|u: Seq<u8>| #[trigger]
        hidden::legal(mask, u) && u.len() == 4 && w == hidden::range_word(u) ==> packs[hidden::rank(
            mask,
            u,
        ) as int] == hidden::packed(u)
}

/// The key of a beginning holds its length and its packed form.
proof fn lemma_word_parts(s: Seq<u8>)
    requires
        s.len() <= 4,
        hidden::small(s),
    ensures
        0 <= hidden::range_word(s) < 0x1_0000_0000,
        hidden::range_word(s) / 65536 == s.len(),
        hidden::range_word(s) % 65536 == hidden::packed(s),
        hidden::packed(s) < 4096,
{
    hidden::lemma_pow8();
    hidden::lemma_packed_bound(s);
    assert(s.len() == 0 || s.len() == 1 || s.len() == 2 || s.len() == 3 || s.len() == 4);
}

/* ---- what the table lacks ---- */

/// How many states the table lacks of those that two lines lead to, over the first `n` sequences of
/// reveals.
pub open spec fn lacking2(g: Game, hold: u8, n: nat) -> nat
    decreases n,
{
    if n == 0 {
        0
    } else {
        let h = hidden::reveals(g.mask, 4)[n - 1];
        lacking2(g, hold, (n - 1) as nat) + values::missing2(
            g.book,
            g.calc,
            hold,
            g.visible[5],
            h,
            hidden::bag_after(g.mask, h),
        )
    }
}

/// How many states the table lacks of those that a position leads to.
pub open spec fn lacking(g: Game, k: NodeKey, known: spec_fn(u8, u8) -> bool) -> nat {
    if k.depth == 10 {
        if g.book is None || known(k.hold, k.mask) {
            0
        } else {
            values::missing4(g.book, g.calc, k.hold, k.mask)
        }
    } else if game::two_lines(k) {
        lacking2(g, k.hold, hidden::reveals(g.mask, 4).len())
    } else {
        0
    }
}

/// The same over all positions from `from` on.
pub open spec fn lacking_from(
    g: Game,
    keys: Seq<NodeKey>,
    known: spec_fn(u8, u8) -> bool,
    from: int,
) -> nat
    decreases keys.len() - from,
{
    if from < 0 || from >= keys.len() {
        0
    } else {
        lacking(g, keys[from], known) + lacking_from(g, keys, known, from + 1)
    }
}

/// The positions of the nodes.
pub open spec fn node_keys(nodes: Seq<Node>) -> Seq<NodeKey> {
    Seq::new(nodes.len(), |i: int| nodes[i].key)
}

/// The evaluator is that of the game.
pub open spec fn evaluates<'a, F: Fn(Op) -> u64>(g: Game, reset: ResetEval<'a, F>) -> bool {
    &&& reset.wf()
    &&& reset.book() == g.book
    &&& reset.arith() == g.calc
}

/// The vector of a position with two lines done.
fn two_line_vector<'a, F: Fn(Op) -> u64>(
    hold: Piece,
    q5: Piece,
    initial_mask: u8,
    packs: &Vec<u16>,
    reset: &mut ResetEval<'a, F>,
    Ghost(g): Ghost<Game>,
    Ghost(k): Ghost<NodeKey>,
) -> (v: Vec<u64>)
    requires
        g.ok(),
        g.fits(k),
        game::two_lines(k),
        hold == k.hold,
        q5 == g.visible[5],
        initial_mask == g.mask,
        packs_ok(g.mask, packs@),
        evaluates(g, *old(reset)),
    ensures
        fit_vector(g, k, v@),
        evaluates(g, *final(reset)),
        final(reset).calc == old(reset).calc,
        final(reset).table == old(reset).table,
        forall|h: u8, m: u8| final(reset).knows(h, m) == old(reset).knows(h, m),
        final(reset).missing_keys == values::tallied(
            old(reset).missing_keys,
            lacking2(g, k.hold, hidden::reveals(g.mask, 4).len()),
        ),
{
    let ghost all = hidden::reveals(g.mask, 4);
    let mut out: Vec<u64> = Vec::new();
    let mut leaf: usize = 0;
    while leaf < packs.len()
        invariant
            leaf <= packs@.len(),
            g.ok(),
            g.fits(k),
            game::two_lines(k),
            hold == k.hold,
            q5 == g.visible[5],
            initial_mask == g.mask,
            all == hidden::reveals(g.mask, 4),
            packs_ok(g.mask, packs@),
            evaluates(g, *reset),
            reset.calc == old(reset).calc,
            reset.table == old(reset).table,
            forall|h: u8, m: u8| reset.knows(h, m) == old(reset).knows(h, m),
            reset.missing_keys == values::tallied(
                old(reset).missing_keys,
                lacking2(g, k.hold, leaf as nat),
            ),
            out@.len() == leaf,
            forall|i: int|
                0 <= i < leaf ==> #[trigger] out@[i] == game::worth(
                    g,
                    game::left_of(k),
                    k,
                    all[i],
                ),
        decreases packs@.len() - leaf,
    {
        let pack: u16 = packs[leaf];
        let ghost s = all[leaf as int];
        proof {
            hidden::lemma_reveals_legal(g.mask, 4, leaf as int);
            hidden::lemma_small(g.mask, s);
            hidden::lemma_canonical(g.mask);
            assert(packs@[leaf as int] == hidden::packed(s));
        }
        let h: [Piece; 4] = [
            get_hidden(pack, 0),
            get_hidden(pack, 1),
            get_hidden(pack, 2),
            get_hidden(pack, 3),
        ];
        assert(h@ =~= s);
        let mask4: u8 = mask_after_hidden_prefix(initial_mask, pack, 4, Ghost(s));
        assert(s.take(4) =~= s);
        assert(g.visible[5] < 7);
        proof {
            reset.lemma_wf();
        }
        let w: u64 = reset.w2(hold, q5, h, mask4);
        let v: u64 = ask(&reset.calc, Op::Store(w));
        out.push(
            if greater(v, 0) {
                v
            } else {
                0
            },
        );
        leaf = leaf + 1;
    }
    out
}

/// The vector of a position with all ten placements made.
fn terminal_vector<'a, F: Fn(Op) -> u64>(
    key: NodeKey,
    reset: &mut ResetEval<'a, F>,
    Ghost(g): Ghost<Game>,
) -> (v: Vec<u64>)
    requires
        g.fits(key),
        key.depth == 10,
        key.field == MAX_HASH,
        evaluates(g, *old(reset)),
    ensures
        fit_vector(g, key, v@),
        evaluates(g, *final(reset)),
        final(reset).calc == old(reset).calc,
        final(reset).table == old(reset).table,
        forall|h: u8, m: u8| #[trigger]
            final(reset).knows(h, m) <==> old(reset).knows(h, m) || (old(reset).table is Some && h
                == key.hold && m == key.mask),
        final(reset).missing_keys == values::tallied(
            old(reset).missing_keys,
            lacking(g, key, |h: u8, m: u8| old(reset).knows(h, m)),
        ),
{
    proof {
        reset.lemma_wf();
    }
    let v: u64 = reset.w4(key.hold, key.mask);
    let mut out: Vec<u64> = Vec::new();
    if greater(v, 0) {
        let stored: u64 = ask(&reset.calc, Op::Store(v));
        out.push(stored);
    } else {
        out.push(0);
    }
    proof {
        assert(hidden::reveals(key.mask, 0) =~= seq![Seq::<u8>::empty()]);
    }
    out
}

/// What the evaluator has worked out once the nodes from `from` on are done.
spec fn learned<'a, F: Fn(Op) -> u64>(
    nodes: Seq<Node>,
    was: ResetEval<'a, F>,
    now: ResetEval<'a, F>,
    from: int,
) -> bool {
    forall|h: u8, m: u8| #[trigger]
        now.knows(h, m) <==> was.knows(h, m) || (was.table is Some && exists|i: int|
            from <= i < nodes.len() && (#[trigger] nodes[i]).key.depth == 10 && nodes[i].key.hold
                == h && nodes[i].key.mask == m)
}

/// A position with all placements made is looked up once.
proof fn lemma_first_lookup<'a, F: Fn(Op) -> u64>(
    g: Game,
    dag: Dag,
    was: ResetEval<'a, F>,
    now: ResetEval<'a, F>,
    id: int,
)
    requires
        dag::live_dag(g, dag),
        0 <= id < dag.nodes@.len(),
        dag.nodes@[id].key.depth == 10,
        learned(dag.nodes@, was, now, id + 1),
    ensures
        now.knows(dag.nodes@[id].key.hold, dag.nodes@[id].key.mask) == was.knows(
            dag.nodes@[id].key.hold,
            dag.nodes@[id].key.mask,
        ),
{
    let nodes = dag.nodes@;
    let k = nodes[id].key;
    if now.knows(k.hold, k.mask) && !was.knows(k.hold, k.mask) {
        let i = choose|i: int|
            id + 1 <= i < nodes.len() && (#[trigger] nodes[i]).key.depth == 10 && nodes[i].key.hold
                == k.hold && nodes[i].key.mask == k.mask;
        lemma_live_node(g, dag, i);
        lemma_live_node(g, dag, id);
        reveal(dag::live_dag);
        assert(nodes[id].key != nodes[i].key);
    }
}

proof fn lemma_tallied(a: u64, n: nat, m: nat)
    ensures
        values::tallied(values::tallied(a, n), m) == values::tallied(a, n + m),
{
}

/// All vectors.
fn fill_vals<'a, F: Fn(Op) -> u64>(
    dag: &Dag,
    q5: Piece,
    initial_mask: u8,
    suffix: &SuffixTables,
    packs: &Vec<u16>,
    reset: &mut ResetEval<'a, F>,
    Ghost(g): Ghost<Game>,
) -> (vals: Table<Vec<u64>>)
    requires
        g.ok(),
        dag::live_dag(g, *dag),
        suffix.wf(),
        q5 == g.visible[5],
        initial_mask == g.mask,
        packs_ok(g.mask, packs@),
        evaluates(g, *old(reset)),
    ensures
        vals_ok(g, dag.nodes@, vals, 0),
        evaluates(g, *final(reset)),
        final(reset).calc == old(reset).calc,
        final(reset).missing_keys == values::tallied(
            old(reset).missing_keys,
            lacking_from(
                g,
                node_keys(dag.nodes@),
                |h: u8, m: u8| old(reset).knows(h, m),
                0,
            ),
        ),
{
    let ghost nodes = dag.nodes@;
    let ghost keys = node_keys(nodes);
    let ghost known = |h: u8, m: u8| old(reset).knows(h, m);
    let mut vals: Table<Vec<u64>> = Table::new();
    let total: usize = dag.nodes.len();
    let mut id: usize = total;
    while id > 0
        invariant
            id <= nodes.len(),
            total == nodes.len(),
            nodes == dag.nodes@,
            keys == node_keys(nodes),
            known == (|h: u8, m: u8| old(reset).knows(h, m)),
            g.ok(),
            dag::live_dag(g, *dag),
            suffix.wf(),
            q5 == g.visible[5],
            initial_mask == g.mask,
            packs_ok(g.mask, packs@),
            evaluates(g, *reset),
            reset.calc == old(reset).calc,
            reset.table == old(reset).table,
            learned(nodes, *old(reset), *reset, id as int),
            vals_ok(g, nodes, vals, id as int),
            reset.missing_keys == values::tallied(
                old(reset).missing_keys,
                lacking_from(g, keys, known, id as int),
            ),
        decreases id,
    {
        id = id - 1;
        let key: NodeKey = dag.nodes[id].key;
        let ghost mid = *reset;
        let ghost was = vals;
        proof {
            lemma_live_node(g, *dag, id as int);
            lemma_tallied(
                old(reset).missing_keys,
                lacking_from(g, keys, known, id + 1),
                lacking(g, key, known),
            );
            assert(keys[id as int] == key);
        }
        if key.depth >= 4 {
            let v: Vec<u64> = if key.depth == 10 {
                proof {
                    lemma_first_lookup(g, *dag, *old(reset), mid, id as int);
                }
                terminal_vector(key, reset, Ghost(g))
            } else if key.depth == 5 && key.field == TWO_LINE_HASH {
                two_line_vector(key.hold, q5, initial_mask, packs, reset, Ghost(g), Ghost(key))
            } else {
                backup(dag, id, suffix, &vals, Ghost(g))
            };
            vals.insert(id as u64, v);
        }
        proof {
            assert forall|i: int|
                id <= i < nodes.len() && (#[trigger] nodes[i]).key.depth >= 4 implies vals@.dom().contains(
            i as u64) && fit_vector(g, nodes[i].key, vals@[i as u64]@) by {
                if i > id {
                    assert(was@.dom().contains(i as u64));
                }
            }
            assert forall|h: u8, m: u8| #[trigger]
                reset.knows(h, m) <==> old(reset).knows(h, m) || (old(reset).table is Some
                    && exists|i: int|
                    id <= i < nodes.len() && (#[trigger] nodes[i]).key.depth == 10
                        && nodes[i].key.hold == h && nodes[i].key.mask == m) by {
                assert(mid.knows(h, m) <==> old(reset).knows(h, m) || (old(reset).table is Some
                    && exists|i: int|
                    id + 1 <= i < nodes.len() && (#[trigger] nodes[i]).key.depth == 10
                        && nodes[i].key.hold == h && nodes[i].key.mask == m));
                if key.depth == 10 && h == key.hold && m == key.mask {
                    assert(nodes[id as int].key.depth == 10);
                }
            }
        }
    }
    vals
}

/* ---- means over what is not seen yet ---- */

/// What the positions with `d` placements made are expected to be worth once `seen` was revealed.
pub open spec fn inner_ok(g: Game, nodes: Seq<Node>, inner: Table<u64>, d: nat, seen: Seq<u8>) -> bool {
    &&& inner.wf()
    &&& forall|i: int|
        0 <= i < nodes.len() && (#[trigger] nodes[i]).key.depth == d ==> inner_at(
            g,
            nodes[i].key,
            inner,
            i,
            d,
            seen,
        )
}

pub open spec fn inner_at(
    g: Game,
    k: NodeKey,
    inner: Table<u64>,
    i: int,
    d: nat,
    seen: Seq<u8>,
) -> bool {
    let e = game::expected(g, (10 - d) as nat, k, seen);
    &&& inner@.dom().contains(i as u64) <==> e is Some
    &&& e is Some ==> inner@[i as u64] == e->0
}

/// The same for every sequence of `d` reveals, by its packed form.
pub open spec fn fold_ok(g: Game, nodes: Seq<Node>, fold: Table<Table<u64>>, d: nat) -> bool {
    &&& fold.wf()
    &&& forall|s: Seq<u8>|
        #![trigger hidden::packed(s)]
        hidden::small(s) && s.len() == d ==> (fold@.dom().contains(hidden::packed(s) as u64)
            <==> hidden::legal(g.mask, s)) && (hidden::legal(g.mask, s) ==> inner_ok(
            g,
            nodes,
            fold@[hidden::packed(s) as u64],
            d,
            s,
        ))
}

/// Where the sequences with one more reveal stand.
spec fn leaves_ok(g: Game, seen: Seq<u8>, leaves: Seq<usize>) -> bool {
    &&& leaves.len() == 7
    &&& forall|h: int|
        0 <= h < 7 && piece::in_bag(hidden::bag_after(g.mask, seen), h) ==> #[trigger] leaves[h]
            == hidden::rank(g.mask, seen.push(h as u8))
}

/// What holds of the tables when the positions with `d` placements made are folded.
spec fn folding(
    g: Game,
    nodes: Seq<Node>,
    vals: Table<Vec<u64>>,
    next: Table<Table<u64>>,
    d: nat,
    seen: Seq<u8>,
    leaves: Seq<usize>,
) -> bool {
    &&& d <= 3
    &&& seen.len() == d
    &&& hidden::legal(g.mask, seen)
    &&& d == 3 ==> vals_ok(g, nodes, vals, 0) && leaves_ok(g, seen, leaves)
    &&& d < 3 ==> fold_ok(g, nodes, next, d + 1)
}

/// What is known of a position once one more piece was revealed.
fn look(
    c: usize,
    h: Piece,
    d: u8,
    pack: u16,
    leaves: &Vec<usize>,
    vals: &Table<Vec<u64>>,
    next: &Table<Table<u64>>,
    Ghost(g): Ghost<Game>,
    Ghost(nodes): Ghost<Seq<Node>>,
    Ghost(seen): Ghost<Seq<u8>>,
) -> (r: Option<u64>)
    requires
        g.ok(),
        c < nodes.len(),
        g.fits(nodes[c as int].key),
        nodes[c as int].key.depth == d + 1,
        folding(g, nodes, *vals, *next, d as nat, seen, leaves@),
        pack == hidden::packed(seen),
        h < 7,
        piece::in_bag(hidden::bag_after(g.mask, seen), h as int),
    ensures
        r == game::outlook(g, (9 - d) as nat, nodes[c as int].key, seen.push(h)),
{
    let ghost k = nodes[c as int].key;
    let ghost more = seen.push(h);
    proof {
        hidden::lemma_small(g.mask, seen);
        hidden::lemma_push(g.mask, seen, h);
        hidden::lemma_small(g.mask, more);
    }
    if d == 3 {
        let leaf: usize = leaves[h as usize];
        proof {
            hidden::lemma_rank(g.mask, more);
            assert(leaves@[h as int] == hidden::rank(g.mask, more));
        }
        match vals.get(c as u64) {
            Some(v) => Some(v[leaf]),
            None => None,
        }
    } else {
        let at: u16 = set_hidden(pack, d, h);
        assert(at == hidden::packed(more));
        match next.get(at as u64) {
            Some(inner) => match inner.get(c as u64) {
                Some(v) => Some(*v),
                None => None,
            },
            None => None,
        }
    }
}

/// The sum of what a position is worth over the next reveals that leave anything to hope for.
fn hope<F: Fn(Op) -> u64>(
    c: usize,
    d: u8,
    bag: u8,
    pack: u16,
    leaves: &Vec<usize>,
    vals: &Table<Vec<u64>>,
    next: &Table<Table<u64>>,
    calc: &F,
    Ghost(g): Ghost<Game>,
    Ghost(nodes): Ghost<Seq<Node>>,
    Ghost(seen): Ghost<Seq<u8>>,
) -> (r: Option<u64>)
    requires
        g.ok(),
        score::answers(*calc),
        score::arith(*calc) == g.calc,
        c < nodes.len(),
        g.fits(nodes[c as int].key),
        nodes[c as int].key.depth == d + 1,
        folding(g, nodes, *vals, *next, d as nat, seen, leaves@),
        pack == hidden::packed(seen),
        bag == hidden::bag_after(g.mask, seen),
    ensures
        r == game::hoped(g, (9 - d) as nat, nodes[c as int].key, seen, 7),
{
    let ghost k = nodes[c as int].key;
    let ghost left = (9 - d) as nat;
    let mut sum: Option<u64> = None;
    let mut h: u8 = 0;
    while h < 7
        invariant
            h <= 7,
            g.ok(),
            score::answers(*calc),
            score::arith(*calc) == g.calc,
            c < nodes.len(),
            k == nodes[c as int].key,
            g.fits(k),
            k.depth == d + 1,
            left == 9 - d,
            folding(g, nodes, *vals, *next, d as nat, seen, leaves@),
            pack == hidden::packed(seen),
            bag == hidden::bag_after(g.mask, seen),
            sum == game::hoped(g, left, k, seen, h as nat),
        decreases 7 - h,
    {
        if has(bag, h) {
            let o = look(
                c,
                h,
                d,
                pack,
                leaves,
                vals,
                next,
                Ghost(g),
                Ghost(nodes),
                Ghost(seen),
            );
            if let Some(v) = o {
                if !none_left(v) {
                    let x: u64 = match sum {
                        Some(x) => x,
                        None => 0,
                    };
                    sum = Some(ask(calc, Op::Plus(x, v)));
                }
            }
        }
        h = h + 1;
    }
    sum
}

/// What a position is expected to be worth.
fn fold_node<F: Fn(Op) -> u64>(
    dag: &Dag,
    id: usize,
    d: u8,
    bag: u8,
    pack: u16,
    leaves: &Vec<usize>,
    vals: &Table<Vec<u64>>,
    next: &Table<Table<u64>>,
    calc: &F,
    Ghost(g): Ghost<Game>,
    Ghost(seen): Ghost<Seq<u8>>,
) -> (r: Option<u64>)
    requires
        g.ok(),
        dag::live_dag(g, *dag),
        score::answers(*calc),
        score::arith(*calc) == g.calc,
        id < dag.nodes@.len(),
        dag.nodes@[id as int].key.depth == d,
        folding(g, dag.nodes@, *vals, *next, d as nat, seen, leaves@),
        pack == hidden::packed(seen),
        bag == hidden::bag_after(g.mask, seen),
        piece::bag(bag),
    ensures
        r == game::expected(g, (10 - d) as nat, dag.nodes@[id as int].key, seen),
{
    let ghost key = dag.nodes@[id as int].key;
    let ghost list = game::live_children(g, key);
    let ghost es = dag.nodes@[id as int].edges@;
    let ghost left = (9 - d) as nat;
    let count: u64 = piece::pieces(bag).len() as u64;
    proof {
        lemma_live_node(g, *dag, id as int);
        assert(dag::edge_keys(dag.nodes@, es).len() == es.len());
        assert(list.take(0) =~= Seq::<NodeKey>::empty());
    }
    let mut best: Option<u64> = None;
    let mut e: usize = 0;
    while e < dag.nodes[id].edges.len()
        invariant
            g.ok(),
            dag::live_dag(g, *dag),
            score::answers(*calc),
            score::arith(*calc) == g.calc,
            id < dag.nodes@.len(),
            key == dag.nodes@[id as int].key,
            key.depth == d,
            es == dag.nodes@[id as int].edges@,
            list == game::live_children(g, key),
            list.len() == es.len(),
            left == 9 - d,
            folding(g, dag.nodes@, *vals, *next, d as nat, seen, leaves@),
            pack == hidden::packed(seen),
            bag == hidden::bag_after(g.mask, seen),
            count == game::choices(g, seen),
            e <= es.len(),
            best == game::best_expected(g, left, list.take(e as int), seen),
        decreases es.len() - e,
    {
        let c: usize = dag.nodes[id].edges[e];
        proof {
            lemma_live_edge(g, *dag, id as int, e as int);
            assert(list.take(e + 1).drop_last() =~= list.take(e as int));
            assert(list.take(e + 1).last() == list[e as int]);
        }
        let h = hope(
            c,
            d,
            bag,
            pack,
            leaves,
            vals,
            next,
            calc,
            Ghost(g),
            Ghost(dag.nodes@),
            Ghost(seen),
        );
        if let Some(sum) = h {
            let v: u64 = ask(calc, Op::Over(sum, count));
            best = match best {
                Some(x) => if greater(v, x) {
                    Some(v)
                } else {
                    Some(x)
                },
                None => Some(v),
            };
        }
        e = e + 1;
    }
    proof {
        assert(list.take(list.len() as int) =~= list);
        game::lemma_best_expected_live(g, left, game::child_keys(g, key), seen);
    }
    best
}

/// Where the sequences with one more reveal than the three of `pack` stand.
fn list_leaves(
    bag: u8,
    pack: u16,
    ranges: &Table<SeqRange>,
    Ghost(g): Ghost<Game>,
    Ghost(seen): Ghost<Seq<u8>>,
) -> (leaves: Vec<usize>)
    requires
        g.ok(),
        seen.len() == 3,
        hidden::legal(g.mask, seen),
        pack == hidden::packed(seen),
        bag == hidden::bag_after(g.mask, seen),
        ranges.wf(),
        hidden::ranges_ok(g.mask, ranges@),
    ensures
        leaves_ok(g, seen, leaves@),
{
    let mut leaves: Vec<usize> = Vec::new();
    let mut h: u8 = 0;
    while h < 7
        invariant
            h <= 7,
            g.ok(),
            seen.len() == 3,
            hidden::legal(g.mask, seen),
            pack == hidden::packed(seen),
            bag == hidden::bag_after(g.mask, seen),
            ranges.wf(),
            hidden::ranges_ok(g.mask, ranges@),
            leaves@.len() == h,
            forall|t: int|
                0 <= t < h && piece::in_bag(bag, t) ==> #[trigger] leaves@[t] == hidden::rank(
                    g.mask,
                    seen.push(t as u8),
                ),
        decreases 7 - h,
    {
        let mut leaf: usize = 0;
        if has(bag, h) {
            let ghost more = seen.push(h);
            proof {
                hidden::lemma_small(g.mask, seen);
                hidden::lemma_push(g.mask, seen, h);
                hidden::lemma_small(g.mask, more);
                hidden::lemma_ranges(g.mask, ranges@, more);
                lemma_word_parts(more);
            }
            let at: u16 = set_hidden(pack, 3, h);
            assert(at == hidden::packed(more));
            if let Some(range) = ranges.get(range_key(4, at)) {
                leaf = range.start as usize;
            }
        }
        leaves.push(leaf);
        h = h + 1;
    }
    leaves
}

/// What all positions with `d` placements made are expected to be worth once `seen` was revealed.
fn fold_prefix<F: Fn(Op) -> u64>(
    dag: &Dag,
    d: u8,
    pack: u16,
    initial_mask: u8,
    ranges: &Table<SeqRange>,
    vals: &Table<Vec<u64>>,
    next: &Table<Table<u64>>,
    calc: &F,
    Ghost(g): Ghost<Game>,
    Ghost(seen): Ghost<Seq<u8>>,
) -> (inner: Table<u64>)
    requires
        g.ok(),
        initial_mask == g.mask,
        dag::live_dag(g, *dag),
        score::answers(*calc),
        score::arith(*calc) == g.calc,
        d <= 3,
        seen.len() == d,
        hidden::legal(g.mask, seen),
        pack == hidden::packed(seen),
        ranges.wf(),
        hidden::ranges_ok(g.mask, ranges@),
        d == 3 ==> vals_ok(g, dag.nodes@, *vals, 0),
        d < 3 ==> fold_ok(g, dag.nodes@, *next, (d + 1) as nat),
    ensures
        inner_ok(g, dag.nodes@, inner, d as nat, seen),
{
    proof {
        hidden::lemma_small(g.mask, seen);
        hidden::lemma_canonical(g.mask);
        assert(seen.take(d as int) =~= seen);
    }
    let bag: u8 = mask_after_hidden_prefix(initial_mask, pack, d, Ghost(seen));
    let leaves: Vec<usize> = if d == 3 {
        list_leaves(bag, pack, ranges, Ghost(g), Ghost(seen))
    } else {
        Vec::new()
    };
    proof {
        reveal(dag::live_dag);
    }
    let ghost nodes = dag.nodes@;
    let ghost starts = dag.starts@;
    let first: usize = dag.starts[d as usize];
    let end: usize = dag.starts[d as usize + 1];
    let total: usize = dag.nodes.len();
    let mut inner: Table<u64> = Table::new();
    let mut id: usize = first;
    while id < end
        invariant
            first <= id <= end <= total,
            total == nodes.len(),
            nodes == dag.nodes@,
            starts == dag.starts@,
            dag::layered(nodes, starts, 10),
            first == starts[d as int],
            end == starts[d + 1],
            g.ok(),
            dag::live_dag(g, *dag),
            score::answers(*calc),
            score::arith(*calc) == g.calc,
            d <= 3,
            folding(g, nodes, *vals, *next, d as nat, seen, leaves@),
            pack == hidden::packed(seen),
            bag == hidden::bag_after(g.mask, seen),
            piece::bag(bag),
            inner.wf(),
            forall|i: int|
                first <= i < id ==> inner_at(g, (#[trigger] nodes[i]).key, inner, i, d as nat, seen),
            forall|w: u64| #[trigger] inner@.dom().contains(w) ==> first <= w < id,
        decreases end - id,
    {
        proof {
            dag::lemma_in_layer(nodes, starts, 10, d as int, id as int);
        }
        let ghost was = inner;
        let v = fold_node(
            dag,
            id,
            d,
            bag,
            pack,
            &leaves,
            vals,
            next,
            calc,
            Ghost(g),
            Ghost(seen),
        );
        if let Some(v) = v {
            inner.insert(id as u64, v);
        }
        proof {
            assert forall|i: int| first <= i < id + 1 implies inner_at(
                g,
                (#[trigger] nodes[i]).key,
                inner,
                i,
                d as nat,
                seen,
            ) by {
                if i < id {
                    assert(inner_at(g, nodes[i].key, was, i, d as nat, seen));
                } else {
                    assert(!was@.dom().contains(id as u64));
                }
            }
        }
        id = id + 1;
    }
    proof {
        assert forall|i: int| 0 <= i < nodes.len() && (#[trigger] nodes[i]).key.depth == d implies inner_at(
            g,
            nodes[i].key,
            inner,
            i,
            d as nat,
            seen,
        ) by {
            assert(dag::in_layer(starts, nodes[i], i));
        }
    }
    inner
}

/// The means of all positions with `d` placements made.
fn fold_layer<F: Fn(Op) -> u64>(
    dag: &Dag,
    d: u8,
    initial_mask: u8,
    ranges: &Table<SeqRange>,
    vals: &Table<Vec<u64>>,
    next: &Table<Table<u64>>,
    calc: &F,
    Ghost(g): Ghost<Game>,
) -> (fold: Table<Table<u64>>)
    requires
        g.ok(),
        initial_mask == g.mask,
        dag::live_dag(g, *dag),
        score::answers(*calc),
        score::arith(*calc) == g.calc,
        d <= 3,
        ranges.wf(),
        hidden::ranges_ok(g.mask, ranges@),
        d == 3 ==> vals_ok(g, dag.nodes@, *vals, 0),
        d < 3 ==> fold_ok(g, dag.nodes@, *next, (d + 1) as nat),
    ensures
        fold_ok(g, dag.nodes@, fold, d as nat),
{
    let ghost nodes = dag.nodes@;
    let mut fold: Table<Table<u64>> = Table::new();
    let mut r: usize = 0;
    let total: usize = ranges.len();
    proof {
        ranges.lemma_order();
    }
    while r < total
        invariant
            r <= total,
            total == ranges.order().len(),
            nodes == dag.nodes@,
            g.ok(),
            initial_mask == g.mask,
            dag::live_dag(g, *dag),
            score::answers(*calc),
            score::arith(*calc) == g.calc,
            d <= 3,
            ranges.wf(),
            hidden::ranges_ok(g.mask, ranges@),
            forall|i: int|
                0 <= i < ranges.order().len() ==> ranges@.dom().contains(
                    #[trigger] ranges.order()[i],
                ),
            d == 3 ==> vals_ok(g, nodes, *vals, 0),
            d < 3 ==> fold_ok(g, nodes, *next, (d + 1) as nat),
            fold.wf(),
            forall|t: int|
                0 <= t < r ==> folded_in(g, nodes, fold, d as nat, #[trigger] ranges.order()[t]),
            forall|w: u64| #[trigger] fold@.dom().contains(w) ==> fold_key(g, d as nat, w),
        decreases total - r,
    {
        let w: u64 = ranges.key(r);
        let ghost was = fold;
        assert(ranges@.dom().contains(w));
        let ghost s = choose|s: Seq<u8>|
            s.len() <= 4 && #[trigger] hidden::legal(g.mask, s) && w == hidden::range_word(s) && (
            ranges@[w].start as nat, ranges@[w].len as nat) == hidden::range_of(g.mask, s);
        proof {
            hidden::lemma_small(g.mask, s);
            lemma_word_parts(s);
        }
        if w / 65536 == d as u64 {
            let pack: u16 = (w % 65536) as u16;
            let inner = fold_prefix(
                dag,
                d,
                pack,
                initial_mask,
                ranges,
                vals,
                next,
                calc,
                Ghost(g),
                Ghost(s),
            );
            fold.insert(pack as u64, inner);
            proof {
                assert(fold_key(g, d as nat, pack as u64));
            }
        }
        proof {
            assert forall|t: int| 0 <= t < r + 1 implies folded_in(
                g,
                nodes,
                fold,
                d as nat,
                #[trigger] ranges.order()[t],
            ) by {
                let v = ranges.order()[t];
                assert forall|u: Seq<u8>| #[trigger]
                    hidden::legal(g.mask, u) && u.len() == d && v == hidden::range_word(u) implies fold@.dom().contains(
                hidden::packed(u) as u64) && inner_ok(
                    g,
                    nodes,
                    fold@[hidden::packed(u) as u64],
                    d as nat,
                    u,
                ) by {
                    hidden::lemma_small(g.mask, u);
                    lemma_word_parts(u);
                    if t < r {
                        assert(folded_in(g, nodes, was, d as nat, v));
                        if s.len() == d && hidden::packed(u) == hidden::packed(s) {
                            hidden::lemma_packed_injective(u, s);
                        }
                    } else {
                        hidden::lemma_range_word(u, s);
                    }
                }
            }
        }
        r = r + 1;
    }
    proof {
        assert forall|s: Seq<u8>|
            #![trigger hidden::packed(s)]
            hidden::small(s) && s.len() == d implies (fold@.dom().contains(
            hidden::packed(s) as u64,
        ) <==> hidden::legal(g.mask, s)) && (hidden::legal(g.mask, s) ==> inner_ok(
            g,
            nodes,
            fold@[hidden::packed(s) as u64],
            d as nat,
            s,
        )) by {
            lemma_word_parts(s);
            if hidden::legal(g.mask, s) {
                hidden::lemma_ranges(g.mask, ranges@, s);
                let v = hidden::range_word(s) as u64;
                assert(ranges.order().contains(v));
                let t = choose|t: int| 0 <= t < ranges.order().len() && ranges.order()[t] == v;
                assert(folded_in(g, nodes, fold, d as nat, ranges.order()[t]));
            }
            if fold@.dom().contains(hidden::packed(s) as u64) {
                assert(fold_key(g, d as nat, hidden::packed(s) as u64));
                let u = choose|u: Seq<u8>| #[trigger]
                    hidden::legal(g.mask, u) && u.len() == d && hidden::packed(s) as u64
                        == hidden::packed(u);
                hidden::lemma_small(g.mask, u);
                hidden::lemma_packed_injective(s, u);
            }
        }
    }
    fold
}

/// If the key is that of a sequence of `d` reveals, its means are there.
spec fn folded_in(g: Game, nodes: Seq<Node>, fold: Table<Table<u64>>, d: nat, w: u64) -> bool {
    forall|u: Seq<u8>| #[trigger]
        hidden::legal(g.mask, u) && u.len() == d && w == hidden::range_word(u)
            ==> fold@.dom().contains(hidden::packed(u) as u64) && inner_ok(
            g,
            nodes,
            fold@[hidden::packed(u) as u64],
            d,
            u,
        )
}

/// The word is the packed form of `d` reveals.
spec fn fold_key(g: Game, d: nat, w: u64) -> bool {
    exists|u: Seq<u8>| #[trigger]
        hidden::legal(g.mask, u) && u.len() == d && w == hidden::packed(u)
}

/* ---- the search ---- */

/// What a search starts from.
pub struct SearchInput<'a, F: Fn(Op) -> u64> {
    pub hold: Piece,
    pub visible: [Piece; 6],
    pub mask: u8,
    pub reset: ResetEval<'a, F>,
}

/// The game that a search solves.
pub open spec fn game_of<'a, F: Fn(Op) -> u64, E: EdgeSource>(
    input: SearchInput<'a, F>,
    edges: E,
) -> Game {
    Game {
        hold: input.hold,
        visible: input.visible@,
        mask: hidden::canonical(input.mask),
        kids: |f: u64, p: u8| edges.kids(f, p),
        book: input.reset.book(),
        calc: input.reset.arith(),
    }
}

/// What a search keeps to tell the scores of single placements.
pub struct Retained<F: Fn(Op) -> u64> {
    pub dag: Dag,
    pub ranges: Table<SeqRange>,
    pub vals: Table<Vec<u64>>,
    pub folds: Vec<Table<Table<u64>>>,
    pub initial_mask: u8,
    pub visible: [Piece; 6],
    pub calc: F,
    pub game: Ghost<Game>,
}

impl<F: Fn(Op) -> u64> Retained<F> {
    /// The tables are those of the game.
    pub open spec fn wf(&self) -> bool {
        let g = self.game@;
        &&& g.ok()
        &&& score::answers(self.calc)
        &&& score::arith(self.calc) == g.calc
        &&& self.initial_mask == g.mask
        &&& self.visible@ == g.visible
        &&& dag::live_dag(g, self.dag)
        &&& self.ranges.wf()
        &&& hidden::ranges_ok(g.mask, self.ranges@)
        &&& vals_ok(g, self.dag.nodes@, self.vals, 0)
        &&& self.folds@.len() == 4
        &&& forall|d: int|
            0 <= d < 4 ==> fold_ok(g, self.dag.nodes@, #[trigger] self.folds@[d], d as nat)
    }
}

/// What a search found.
pub struct VsResult<F: Fn(Op) -> u64> {
    pub root_value: u64,
    pub missing_keys: u64,
    pub nodes_total: usize,
    pub nodes_pruned: usize,
    pub leaf_count: usize,
    pub retained: Retained<F>,
}

impl<F: Fn(Op) -> u64> VsResult<F> {
    pub open spec fn wf(&self) -> bool {
        let g = self.retained.game@;
        &&& self.retained.wf()
        &&& self.root_value == game::game_value(g)
        &&& self.nodes_pruned == self.retained.dag.nodes@.len()
        &&& self.leaf_count == hidden::reveals(g.mask, 4).len()
    }

    /// The game that was solved.
    pub open spec fn game(&self) -> Game {
        self.retained.game@
    }

    /// The positions that were kept.
    pub open spec fn kept(&self) -> Seq<NodeKey> {
        node_keys(self.retained.dag.nodes@)
    }
}

/// The positions of a game, each once.
pub open spec fn lists_positions(g: Game, keys: Seq<NodeKey>) -> bool {
    &&& keys.no_duplicates()
    &&& forall|i: int|
        0 <= i < keys.len() ==> keys[i].depth <= 10 && game::reached(
            g,
            (#[trigger] keys[i]).depth as nat,
            keys[i],
        )
    &&& forall|d: nat, k: NodeKey| #[trigger]
        game::reached(g, d, k) && d <= 10 ==> keys.contains(k)
}

/// The positions of a game from which it can still be won, each once.
pub open spec fn lists_live_positions(g: Game, keys: Seq<NodeKey>) -> bool {
    &&& keys.no_duplicates()
    &&& forall|i: int|
        0 <= i < keys.len() ==> keys[i].depth <= 10 && game::reached(
            g,
            (#[trigger] keys[i]).depth as nat,
            keys[i],
        ) && game::alive(g, keys[i])
    &&& forall|d: nat, k: NodeKey| #[trigger]
        game::reached(g, d, k) && d <= 10 && game::alive(g, k) ==> keys.contains(k)
}

proof fn lemma_full_lists(g: Game, dag: Dag)
    requires
        dag::full_dag(g, dag),
    ensures
        lists_positions(g, node_keys(dag.nodes@)),
{
    reveal(dag::full_dag);
    let nodes = dag.nodes@;
    let keys = node_keys(nodes);
    assert forall|i: int| 0 <= i < keys.len() implies keys[i].depth <= 10 && game::reached(
        g,
        (#[trigger] keys[i]).depth as nat,
        keys[i],
    ) by {
        assert(dag::node_reached(g, nodes[i]));
        assert(g.fits(nodes[i].key));
    }
    assert forall|d: nat, k: NodeKey| #[trigger]
        game::reached(g, d, k) && d <= 10 implies keys.contains(k) by {
        let e: int = d as int;
        assert(dag::complete(g, nodes, e));
        assert(game::reached(g, e as nat, k));
        let i = choose|i: int| 0 <= i < nodes.len() && (#[trigger] nodes[i]).key == k;
        assert(keys[i] == k);
    }
    assert forall|i: int, j: int| 0 <= i < keys.len() && 0 <= j < keys.len() && i != j implies keys[i]
        != keys[j] by {
        if i < j {
            assert(nodes[i].key != nodes[j].key);
        } else {
            assert(nodes[j].key != nodes[i].key);
        }
    }
}

proof fn lemma_live_lists(g: Game, dag: Dag)
    requires
        dag::live_dag(g, dag),
    ensures
        lists_live_positions(g, node_keys(dag.nodes@)),
{
    reveal(dag::live_dag);
    let nodes = dag.nodes@;
    let keys = node_keys(nodes);
    assert forall|i: int| 0 <= i < keys.len() implies keys[i].depth <= 10 && game::reached(
        g,
        (#[trigger] keys[i]).depth as nat,
        keys[i],
    ) && game::alive(g, keys[i]) by {
        assert(dag::node_reached(g, nodes[i]) && game::alive(g, nodes[i].key));
        assert(g.fits(nodes[i].key));
    }
    assert forall|d: nat, k: NodeKey| #[trigger]
        game::reached(g, d, k) && d <= 10 && game::alive(g, k) implies keys.contains(k) by {
        let e: int = d as int;
        assert(dag::complete_live(g, nodes, e));
        assert(game::reached(g, e as nat, k));
        let i = choose|i: int| 0 <= i < nodes.len() && (#[trigger] nodes[i]).key == k;
        assert(keys[i] == k);
    }
    assert forall|i: int, j: int| 0 <= i < keys.len() && 0 <= j < keys.len() && i != j implies keys[i]
        != keys[j] by {
        if i < j {
            assert(nodes[i].key != nodes[j].key);
        } else {
            assert(nodes[j].key != nodes[i].key);
        }
    }
}

/// What the game is worth, read off the means.
fn root_value_of(
    dag: &Dag,
    fold: &Table<Table<u64>>,
    Ghost(g): Ghost<Game>,
) -> (v: u64)
    requires
        g.ok(),
        dag::live_dag(g, *dag),
        fold_ok(g, dag.nodes@, *fold, 0),
    ensures
        v == game::game_value(g),
{
    let ghost none = Seq::<u8>::empty();
    proof {
        assert(hidden::packed(none) == 0);
        assert(hidden::legal(g.mask, none));
        reveal(dag::live_dag);
    }
    let alive: bool = dag.starts[1] > 0;
    proof {
        if alive {
            dag::lemma_in_layer(dag.nodes@, dag.starts@, 10, 0, 0);
            assert(dag::node_reached(g, dag.nodes@[0]));
        } else {
            if game::alive(g, g.root()) {
                assert(dag::in_layer(dag.starts@, dag.nodes@[0], 0));
            }
            game::law_lost_is_hopeless(g, 10, g.root(), none);
        }
    }
    if !alive {
        return 0;
    }
    match fold.get(0) {
        Some(inner) => match inner.get(0) {
            Some(v) => *v,
            None => 0,
        },
        None => 0,
    }
}

/// Solve a loop.
pub fn value_search<'a, F: Fn(Op) -> u64, E: EdgeSource>(
    input: SearchInput<'a, F>,
    edges: &mut E,
) -> (r: VsResult<F>)
    requires
        input.reset.wf(),
        input.hold < 7,
        forall|i: int| 0 <= i < 6 ==> input.visible@[i] < 7,
        old(edges).wf(),
    ensures
        final(edges).wf(),
        forall|f: u64, p: u8| #[trigger] final(edges).kids(f, p) == old(edges).kids(f, p),
        r.wf(),
        r.game() == game_of(input, *old(edges)),
        r.root_value == game::game_value(game_of(input, *old(edges))),
        r.leaf_count == hidden::reveals(hidden::canonical(input.mask), 4).len(),
        exists|keys: Seq<NodeKey>|
            r.nodes_total == keys.len() && #[trigger] lists_positions(
                game_of(input, *old(edges)),
                keys,
            ),
        r.nodes_pruned == r.kept().len(),
        lists_live_positions(game_of(input, *old(edges)), r.kept()),
        r.missing_keys == values::tallied(
            input.reset.missing_keys,
            lacking_from(
                game_of(input, *old(edges)),
                r.kept(),
                |h: u8, m: u8| input.reset.knows(h, m),
                0,
            ),
        ),
        r.retained.calc == input.reset.calc,
{
    let ghost g = game_of(input, *edges);
    let SearchInput { hold, visible, mask, reset } = input;
    let mut reset = reset;
    let initial_mask: u8 = canonical_mask(mask);
    proof {
        hidden::lemma_canonical(mask);
        assert forall|f: u64, p: u8, i: int|
            f <= MAX_HASH && p < 7 && 0 <= i < (g.kids)(f, p).len() implies #[trigger] (g.kids)(
            f,
            p,
        )[i] <= MAX_HASH by {
            edges.kids_fit(f, p);
        }
        assert(g.ok());
        assert(dag::agrees(g, *edges));
        hidden::lemma_reveals_bound(initial_mask, 4);
        assert(hidden::packed(Seq::<u8>::empty()) == 0);
        reset.lemma_wf();
    }
    let mut ranges: Table<SeqRange> = Table::new();
    let mut next_leaf: u32 = 0;
    let _total: u32 = build_ranges(
        initial_mask,
        0,
        0,
        &mut next_leaf,
        &mut ranges,
        Ghost(initial_mask),
        Ghost(Seq::empty()),
    );
    let leaf_count: usize = next_leaf as usize;
    let packs = list_packs(initial_mask, leaf_count, &ranges);
    let suffix = build_suffix_tables();
    let full = build_dag(edges, hold, &visible, initial_mask, Ghost(g));
    let nodes_total: usize = full.nodes.len();
    let dag = prune_to_terminal_reachable(&full, Ghost(g));
    let nodes_pruned: usize = dag.nodes.len();
    proof {
        lemma_full_lists(g, full);
        lemma_live_lists(g, dag);
        assert(node_keys(full.nodes@).len() == nodes_total);
    }
    let q5: Piece = visible[5];
    let vals = fill_vals(&dag, q5, initial_mask, &suffix, &packs, &mut reset, Ghost(g));
    proof {
        reset.lemma_wf();
    }
    let missing_keys: u64 = reset.missing_keys;
    let calc = reset.calc;
    let none: Table<Table<u64>> = Table::new();
    let fold3 = fold_layer(&dag, 3, initial_mask, &ranges, &vals, &none, &calc, Ghost(g));
    let fold2 = fold_layer(&dag, 2, initial_mask, &ranges, &vals, &fold3, &calc, Ghost(g));
    let fold1 = fold_layer(&dag, 1, initial_mask, &ranges, &vals, &fold2, &calc, Ghost(g));
    let fold0 = fold_layer(&dag, 0, initial_mask, &ranges, &vals, &fold1, &calc, Ghost(g));
    let root_value: u64 = root_value_of(&dag, &fold0, Ghost(g));
    let mut folds: Vec<Table<Table<u64>>> = Vec::new();
    folds.push(fold0);
    folds.push(fold1);
    folds.push(fold2);
    folds.push(fold3);
    let retained = Retained {
        dag,
        ranges,
        vals,
        folds,
        initial_mask,
        visible,
        calc,
        game: Ghost(g),
    };
    VsResult { root_value, missing_keys, nodes_total, nodes_pruned, leaf_count, retained }
}

} // verus!
