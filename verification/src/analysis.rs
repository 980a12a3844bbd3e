//! Reading a solved loop: the placements at a position, ranked by what each is worth at the time
//! when it is chosen.

use vstd::prelude::*;
use crate::dag;
use crate::dag::Node;
use crate::game;
use crate::game::{Game, NodeKey};
use crate::graph::TWO_LINE_HASH;
use crate::hidden;
use crate::hidden::{range_key, set_hidden};
use crate::piece;
use crate::piece::{after_reveal, has, pieces, Piece};
use crate::score;
use crate::score::{ask, greater, none_left, Op};
use crate::value_search;
use crate::value_search::VsResult;

verus! {

/// A placement that can be chosen.
#[derive(Clone, Copy, Debug)]
pub struct AnalysisCand {
    /// Its place among the placements at the position.
    pub edge: usize,
    pub placed: Piece,
    pub hold_after: Piece,
    pub field_before: u64,
    pub field_after: u64,
    /// What is expected of it when it is chosen.
    pub score: u64,
    pub best: bool,
}

/// A position with the placements at it.
pub struct AnalysisNode {
    pub depth: u8,
    pub field: u64,
    pub hold: Piece,
    /// The piece that is due.
    pub active: Piece,
    /// 0 while the loop goes on, 1 with four lines done, 2 with two, 3 where nothing is left to
    /// hope for.
    pub terminal: u8,
    pub best_score: u64,
    pub root_value: u64,
    /// The placements that led here.
    pub path_steps: Vec<AnalysisCand>,
    /// The placements at the position, best first.
    pub cands: Vec<AnalysisCand>,
    /// The pieces that each of the four reveals may bring.
    pub reveal_options: [Vec<Piece>; 4],
    pub visible: [Piece; 6],
}

/* ---- what a placement is worth when it is chosen ---- */

/// The sequence of reveals that stands for `h`: itself where the bag allows it, else the first one.
pub open spec fn stand_in(g: Game, h: Seq<u8>) -> Seq<u8> {
    if hidden::legal(g.mask, h) {
        h
    } else {
        hidden::reveals(g.mask, 4)[0]
    }
}

/// The sum over the next reveals below `n` of what is expected of a position with up to three
/// placements made.
pub open spec fn expected_sum(g: Game, c: NodeKey, seen: Seq<u8>, n: nat) -> u64
    decreases n,
{
    if n == 0 {
        0
    } else {
        let s = expected_sum(g, c, seen, (n - 1) as nat);
        let more = seen.push((n - 1) as u8);
        if piece::in_bag(hidden::bag_after(g.mask, seen), n - 1) && hidden::legal(g.mask, more)
            && game::expected(g, game::left_of(c), c, more) is Some {
            (g.calc)(Op::Plus(s, game::expected(g, game::left_of(c), c, more)->0))
        } else {
            s
        }
    }
}

/// The sum over the fourth reveals below `n` of what a position with four placements made is worth.
pub open spec fn worth_sum(g: Game, c: NodeKey, seen: Seq<u8>, n: nat) -> u64
    decreases n,
{
    if n == 0 {
        0
    } else if piece::in_bag(hidden::bag_after(g.mask, seen), n - 1) {
        (g.calc)(
            Op::Plus(
                worth_sum(g, c, seen, (n - 1) as nat),
                game::worth(g, game::left_of(c), c, seen.push((n - 1) as u8)),
            ),
        )
    } else {
        worth_sum(g, c, seen, (n - 1) as nat)
    }
}

/// What a placement that leads to `c` is worth when it is chosen. The reveals that its decision
/// comes before are averaged over; the others are those of `h`.
pub open spec fn decision(g: Game, c: NodeKey, h: Seq<u8>) -> u64 {
    if c.depth <= 3 {
        let seen = h.take(c.depth - 1);
        (g.calc)(Op::Over(expected_sum(g, c, seen, 7), game::choices(g, seen) as u64))
    } else if c.depth == 4 {
        let seen = h.take(3);
        if hidden::legal(g.mask, seen) {
            (g.calc)(Op::Over(worth_sum(g, c, seen, 7), game::choices(g, seen) as u64))
        } else {
            0
        }
    } else if c.depth <= 6 {
        game::worth(g, game::left_of(c), c, stand_in(g, h))
    } else if hidden::bag_after(g.mask, h.take(c.depth - 6)) != c.mask {
        0
    } else {
        game::worth(g, game::left_of(c), c, h.skip(c.depth - 6))
    }
}

/// The piece that is due with `depth` placements made.
pub open spec fn due(visible: Seq<u8>, h: Seq<u8>, depth: int) -> u8 {
    if depth < 6 {
        visible[depth]
    } else if depth < 10 {
        h[depth - 6]
    } else {
        h[3]
    }
}

/// Placement `e` at a position.
pub open spec fn cand_at(g: Game, k: NodeKey, e: int, h: Seq<u8>) -> AnalysisCand {
    let c = game::live_children(g, k)[e];
    AnalysisCand {
        edge: e as usize,
        placed: if c.hold == k.hold {
            due(g.visible, h, k.depth as int)
        } else {
            k.hold
        },
        hold_after: c.hold,
        field_before: k.field,
        field_after: c.field,
        score: decision(g, c, h),
        best: false,
    }
}

/// The placements of `path` from a position on, as far as they exist, and where they lead.
pub open spec fn trail(g: Game, k: NodeKey, path: Seq<usize>, h: Seq<u8>) -> (
    Seq<AnalysisCand>,
    NodeKey,
)
    decreases path.len(),
{
    if path.len() == 0 || path[0] >= game::live_children(g, k).len() {
        (seq![], k)
    } else {
        let t = trail(g, game::live_children(g, k)[path[0] as int], path.drop_first(), h);
        (seq![cand_at(g, k, path[0] as int, h)] + t.0, t.1)
    }
}

/// The placement agrees with the piece that was revealed.
pub open spec fn agrees(g: Game, k: NodeKey, e: int, h: Seq<u8>) -> bool {
    k.depth < 6 || game::live_children(g, k)[e].mask == piece::after(k.mask, h[k.depth - 6])
}

/// The first `n` placements at a position that agree with the piece that was revealed.
pub open spec fn cands_of(g: Game, k: NodeKey, h: Seq<u8>, n: nat) -> Seq<AnalysisCand>
    decreases n,
{
    if n == 0 {
        seq![]
    } else if agrees(g, k, n - 1, h) {
        cands_of(g, k, h, (n - 1) as nat).push(cand_at(g, k, n - 1, h))
    } else {
        cands_of(g, k, h, (n - 1) as nat)
    }
}

/// All of them.
pub open spec fn all_cands(g: Game, k: NodeKey, h: Seq<u8>) -> Seq<AnalysisCand> {
    cands_of(g, k, h, game::live_children(g, k).len())
}

/// The first of the highest scores above nothing, and the score.
pub open spec fn top(list: Seq<AnalysisCand>) -> (Option<int>, u64)
    decreases list.len(),
{
    if list.len() == 0 {
        (None, 0)
    } else {
        let t = top(list.drop_last());
        if score::exceeds(list.last().score, t.1) {
            (Some(list.len() - 1), list.last().score)
        } else {
            t
        }
    }
}

/// The list with the best one marked.
pub open spec fn flagged(list: Seq<AnalysisCand>) -> Seq<AnalysisCand> {
    match top(list).0 {
        Some(i) => list.update(i, (AnalysisCand { best: true, ..list[i] })),
        None => list,
    }
}

/// A higher score comes first; of equal scores, the earlier placement.
pub open spec fn before(a: AnalysisCand, b: AnalysisCand) -> bool {
    score::exceeds(a.score, b.score) || (!score::exceeds(b.score, a.score) && a.edge < b.edge)
}

/// The same placements, each once.
pub open spec fn same_cands(a: Seq<AnalysisCand>, b: Seq<AnalysisCand>) -> bool {
    &&& a.len() == b.len()
    &&& a.no_duplicates()
    &&& forall|c: AnalysisCand| #[trigger] a.contains(c) <==> b.contains(c)
}

/// The list is ranked; scores that are no numbers have no rank.
pub open spec fn ranked(list: Seq<AnalysisCand>) -> bool {
    (forall|i: int| 0 <= i < list.len() ==> !score::is_nan((#[trigger] list[i]).score)) ==> forall|
        i: int,
        j: int,
    |
        0 <= i < j < list.len() ==> before(#[trigger] list[i], #[trigger] list[j])
}

/// Where a candidate goes in a list: before the first from `at` on that it outscores.
pub open spec fn slot(list: Seq<AnalysisCand>, c: AnalysisCand, at: int) -> int
    decreases list.len() - at,
{
    if at < 0 || at >= list.len() || score::exceeds(c.score, list[at].score) {
        at
    } else {
        slot(list, c, at + 1)
    }
}

/// The list by score, highest first, each candidate put in its place in turn.
pub open spec fn by_rank(list: Seq<AnalysisCand>) -> Seq<AnalysisCand>
    decreases list.len(),
{
    if list.len() == 0 {
        seq![]
    } else {
        let front = by_rank(list.drop_last());
        front.insert(slot(front, list.last(), 0), list.last())
    }
}

/// How a position ends.
pub open spec fn ending(k: NodeKey, cands: Seq<AnalysisCand>) -> u8 {
    if game::two_lines(k) {
        2
    } else if k.depth == 10 {
        1
    } else if cands.len() == 0 || score::at_most_zero(top(cands).1) {
        3
    } else {
        0
    }
}

/// The placements stand in order.
pub open spec fn in_edge_order(list: Seq<AnalysisCand>) -> bool {
    forall|i: int, j: int| 0 <= i < j < list.len() ==> list[i].edge < list[j].edge
}

pub proof fn lemma_cands_order(g: Game, k: NodeKey, h: Seq<u8>, n: nat)
    requires
        n <= usize::MAX + 1,
    ensures
        in_edge_order(cands_of(g, k, h, n)),
        forall|i: int|
            0 <= i < cands_of(g, k, h, n).len() ==> (#[trigger] cands_of(g, k, h, n)[i]).edge < n,
    decreases n,
{
    if n > 0 {
        lemma_cands_order(g, k, h, (n - 1) as nat);
    }
}

/// The top is one of the list.
pub proof fn lemma_top(list: Seq<AnalysisCand>)
    ensures
        top(list).0 matches Some(i) ==> 0 <= i < list.len() && list[i].score == top(list).1,
        top(list).0 is None ==> top(list).1 == 0,
        !score::is_nan(top(list).1),
        top(list).0 is Some <==> score::exceeds(top(list).1, 0),
        top(list).0 is Some <==> !score::at_most_zero(top(list).1),
    decreases list.len(),
{
    if list.len() > 0 {
        lemma_top(list.drop_last());
    }
}

/// No score is above the top, and the top is the first that high.
pub proof fn law_top_is_best(list: Seq<AnalysisCand>, j: int)
    requires
        0 <= j < list.len(),
    ensures
        !score::exceeds(list[j].score, top(list).1),
        top(list).0 matches Some(i) ==> (j < i ==> score::exceeds(list[i].score, list[j].score)
            || score::is_nan(list[j].score)),
    decreases list.len(),
{
    lemma_top(list);
    lemma_top(list.drop_last());
    if j < list.len() - 1 {
        law_top_is_best(list.drop_last(), j);
        assert(list.drop_last()[j] == list[j]);
        if let Some(i) = top(list.drop_last()).0 {
            assert(list.drop_last()[i] == list[i]);
        }
    }
}

/// Sort by score, highest first, keeping the order of equals.
fn sort_cands(list: Vec<AnalysisCand>) -> (out: Vec<AnalysisCand>)
    requires
        in_edge_order(list@),
    ensures
        out@ == by_rank(list@),
        same_cands(out@, list@),
        ranked(out@),
{
    let ghost all = list@;
    let mut out: Vec<AnalysisCand> = Vec::new();
    let mut i: usize = 0;
    while i < list.len()
        invariant
            i <= list@.len(),
            all == list@,
            in_edge_order(all),
            out@.len() == i,
            out@ == by_rank(all.take(i as int)),
            forall|c: AnalysisCand| #[trigger] out@.contains(c) <==> all.take(i as int).contains(c),
            forall|x: int, y: int|
                0 <= x < out@.len() && 0 <= y < out@.len() && x != y ==> out@[x].edge
                    != out@[y].edge,
            forall|x: int| 0 <= x < out@.len() ==> i > 0 && (#[trigger] out@[x]).edge <= all[i
                - 1].edge,
            ranked(out@),
        decreases list@.len() - i,
    {
        let c: AnalysisCand = list[i];
        let ghost was = out@;
        let mut p: usize = 0;
        while p < out.len() && !greater(c.score, out[p].score)
            invariant
                p <= out@.len(),
                slot(out@, c, 0) == slot(out@, c, p as int),
                forall|x: int|
                    0 <= x < p ==> !score::exceeds(c.score, (#[trigger] out@[x]).score),
            ensures
                p <= out@.len(),
                slot(out@, c, 0) == p,
                forall|x: int|
                    0 <= x < p ==> !score::exceeds(c.score, (#[trigger] out@[x]).score),
                p < out@.len() ==> score::exceeds(c.score, out@[p as int].score),
            decreases out@.len() - p,
        {
            p = p + 1;
        }
        out.insert(p, c);
        proof {
            let now = out@;
            assert(now == was.insert(p as int, c));
            assert forall|x: int| 0 <= x < now.len() implies #[trigger] now[x] == if x < p {
                was[x]
            } else if x == p {
                c
            } else {
                was[x - 1]
            } by {}
            assert(all.take(i + 1) =~= all.take(i as int).push(c));
            assert(all.take(i + 1).drop_last() =~= all.take(i as int));
            assert forall|d: AnalysisCand| #[trigger] now.contains(d) <==> all.take(
                i + 1,
            ).contains(d) by {
                if now.contains(d) {
                    let x = choose|x: int| 0 <= x < now.len() && now[x] == d;
                    if x == p {
                        assert(all.take(i + 1)[i as int] == d);
                    } else {
                        let y = if x < p {
                            x
                        } else {
                            x - 1
                        };
                        assert(was[y] == d);
                        assert(was.contains(d));
                        let z = choose|z: int| 0 <= z < i && all.take(i as int)[z] == d;
                        assert(all.take(i + 1)[z] == d);
                    }
                }
                if all.take(i + 1).contains(d) {
                    let head = all.take(i + 1);
                    let z = choose|z: int| 0 <= z < head.len() && head[z] == d;
                    if z == i {
                        assert(now[p as int] == d);
                    } else {
                        assert(all.take(i as int)[z] == d);
                        assert(all.take(i as int).contains(d));
                        assert(was.contains(d));
                        let y = choose|y: int| 0 <= y < was.len() && was[y] == d;
                        if y < p {
                            assert(now[y] == d);
                        } else {
                            assert(now[y + 1] == d);
                        }
                    }
                }
            }
            assert forall|x: int| 0 <= x < was.len() implies (#[trigger] was[x]).edge < c.edge by {}
            assert(ranked(now)) by {
                if forall|x: int| 0 <= x < now.len() ==> !score::is_nan((#[trigger] now[x]).score) {
                    assert forall|x: int| 0 <= x < was.len() implies !score::is_nan(
                        (#[trigger] was[x]).score,
                    ) by {
                        if x < p {
                            assert(now[x] == was[x]);
                        } else {
                            assert(now[x + 1] == was[x]);
                        }
                    }
                    assert(!score::is_nan(now[p as int].score));
                    assert forall|x: int, y: int| 0 <= x < y < now.len() implies before(
                        #[trigger] now[x],
                        #[trigger] now[y],
                    ) by {
                        if y < p {
                            assert(before(was[x], was[y]));
                        } else if y == p {
                            assert(!score::exceeds(c.score, was[x].score));
                        } else if x == p {
                            assert(score::exceeds(c.score, was[p as int].score));
                            if y - 1 > p {
                                assert(before(was[p as int], was[y - 1]));
                            }
                        } else if x < p {
                            assert(before(was[x], was[y - 1]));
                        } else {
                            assert(before(was[x - 1], was[y - 1]));
                        }
                    }
                }
            }
        }
        i = i + 1;
    }
    assert(all.take(all.len() as int) =~= all);
    out
}

/* ---- reading the tables ---- */

/// The packed form of the first `n` reveals.
fn pack_first(h: &[Piece; 4], n: u8) -> (pack: u16)
    requires
        n <= 4,
        forall|i: int| 0 <= i < 4 ==> h@[i] < 7,
    ensures
        pack == hidden::packed(h@.take(n as int)),
{
    let mut pack: u16 = 0;
    let mut i: u8 = 0;
    assert(hidden::packed(h@.take(0)) == 0);
    while i < n
        invariant
            i <= n <= 4,
            forall|i: int| 0 <= i < 4 ==> h@[i] < 7,
            pack == hidden::packed(h@.take(i as int)),
        decreases n - i,
    {
        assert(h@.take(i + 1) =~= h@.take(i as int).push(h@[i as int]));
        pack = set_hidden(pack, i, h[i as usize]);
        i = i + 1;
    }
    pack
}

/// The bag after the first `n` reveals.
pub(crate) fn bag_first(initial_mask: u8, h: &[Piece; 4], n: u8) -> (bag: u8)
    requires
        piece::bag(initial_mask),
        n <= 4,
        forall|i: int| 0 <= i < 4 ==> h@[i] < 7,
    ensures
        bag == hidden::bag_after(initial_mask, h@.take(n as int)),
        piece::bag(bag),
{
    let mut bag: u8 = initial_mask;
    let mut i: u8 = 0;
    assert(h@.take(0) =~= Seq::<u8>::empty());
    while i < n
        invariant
            i <= n <= 4,
            forall|i: int| 0 <= i < 4 ==> h@[i] < 7,
            bag == hidden::bag_after(initial_mask, h@.take(i as int)),
            piece::bag(bag),
        decreases n - i,
    {
        proof {
            assert(h@.take(i + 1) =~= h@.take(i as int).push(h@[i as int]));
            hidden::lemma_push(initial_mask, h@.take(i as int), h@[i as int]);
            piece::lemma_after(bag, h@[i as int]);
        }
        bag = after_reveal(bag, h[i as usize]);
        i = i + 1;
    }
    bag
}

/// The piece that is due with `depth` placements made.
fn active_piece(visible: &[Piece; 6], h: &[Piece; 4], depth: u8) -> (p: Piece)
    requires
        depth <= 10,
    ensures
        p == due(visible@, h@, depth as int),
{
    if depth < 6 {
        visible[depth as usize]
    } else if depth < 10 {
        h[(depth - 6) as usize]
    } else {
        h[3]
    }
}

impl<F: Fn(Op) -> u64> VsResult<F> {
    /// The field with two lines done.
    pub fn two_line_field(&self) -> (f: u64)
        ensures
            f == TWO_LINE_HASH,
    {
        TWO_LINE_HASH
    }

    /// The place of a sequence of four reveals among all that the bag allows.
    pub fn full_leaf(&self, hidden: [Piece; 4]) -> (r: Option<usize>)
        requires
            self.wf(),
            forall|i: int| 0 <= i < 4 ==> hidden@[i] < 7,
        ensures
            r is Some <==> hidden::legal(self.game().mask, hidden@),
            r is Some ==> r->0 == hidden::rank(self.game().mask, hidden@),
    {
        let pack: u16 = pack_first(&hidden, 4);
        let ghost mask = self.game().mask;
        proof {
            assert(hidden@.take(4) =~= hidden@);
            hidden::lemma_ranges(mask, self.retained.ranges@, hidden@);
            if hidden::legal(mask, hidden@) {
                hidden::lemma_rank(mask, hidden@);
            }
            hidden::lemma_pow8();
            hidden::lemma_packed_bound(hidden@);
        }
        match self.retained.ranges.get(range_key(4, pack)) {
            Some(range) => Some(range.start as usize),
            None => None,
        }
    }

    /// What is expected of a position with up to three placements made, before the piece that its
    /// placement opens is seen.
    fn early_score(&self, child: usize, depth: u8, h: &[Piece; 4]) -> (r: u64)
        requires
            self.wf(),
            child < self.retained.dag.nodes@.len(),
            self.retained.dag.nodes@[child as int].key.depth == depth,
            1 <= depth <= 3,
            forall|i: int| 0 <= i < 4 ==> h@[i] < 7,
        ensures
            r == decision(self.game(), self.retained.dag.nodes@[child as int].key, h@),
    {
        let ghost g = self.game();
        let ghost nodes = self.retained.dag.nodes@;
        let ghost c = nodes[child as int].key;
        let known: u8 = depth - 1;
        let ghost seen = h@.take(known as int);
        let prefix: u16 = pack_first(h, known);
        let bag: u8 = bag_first(self.retained.initial_mask, h, known);
        let n: u64 = pieces(bag).len() as u64;
        let mut sum: u64 = 0;
        let mut p: u8 = 0;
        while p < 7
            invariant
                p <= 7,
                self.wf(),
                g == self.game(),
                nodes == self.retained.dag.nodes@,
                child < nodes.len(),
                c == nodes[child as int].key,
                c.depth == depth,
                1 <= depth <= 3,
                known == depth - 1,
                forall|i: int| 0 <= i < 4 ==> h@[i] < 7,
                seen == h@.take(known as int),
                prefix == hidden::packed(seen),
                bag == hidden::bag_after(g.mask, seen),
                sum == expected_sum(g, c, seen, p as nat),
            decreases 7 - p,
        {
            if has(bag, p) {
                let at: u16 = set_hidden(prefix, known, p);
                let ghost more = seen.push(p);
                proof {
                    assert(hidden::small(seen));
                    assert(at == hidden::packed(more));
                    assert(hidden::small(more));
                    assert(value_search::fold_ok(
                        g,
                        nodes,
                        self.retained.folds@[depth as int],
                        depth as nat,
                    ));
                }
                if let Some(inner) = self.retained.folds[depth as usize].get(at as u64) {
                    assert(value_search::inner_at(g, c, *inner, child as int, depth as nat, more));
                    if let Some(v) = inner.get(child as u64) {
                        sum = ask(&self.retained.calc, Op::Plus(sum, *v));
                    }
                }
            }
            p = p + 1;
        }
        ask(&self.retained.calc, Op::Over(sum, n))
    }

    /// What a position with four placements made is expected to be worth before the fourth piece is
    /// seen.
    fn fourth_score(&self, child: usize, h: &[Piece; 4]) -> (r: u64)
        requires
            self.wf(),
            child < self.retained.dag.nodes@.len(),
            self.retained.dag.nodes@[child as int].key.depth == 4,
            forall|i: int| 0 <= i < 4 ==> h@[i] < 7,
        ensures
            r == decision(self.game(), self.retained.dag.nodes@[child as int].key, h@),
    {
        let ghost g = self.game();
        let ghost nodes = self.retained.dag.nodes@;
        let ghost c = nodes[child as int].key;
        let ghost seen = h@.take(3);
        let bag: u8 = bag_first(self.retained.initial_mask, h, 3);
        let mut sum: u64 = 0;
        let mut n: u64 = 0;
        let mut p: u8 = 0;
        proof {
            value_search::lemma_live_node(g, self.retained.dag, child as int);
        }
        while p < 7
            invariant
                p <= 7,
                self.wf(),
                g == self.game(),
                nodes == self.retained.dag.nodes@,
                child < nodes.len(),
                c == nodes[child as int].key,
                c.depth == 4,
                g.fits(c),
                forall|i: int| 0 <= i < 4 ==> h@[i] < 7,
                seen == h@.take(3),
                bag == hidden::bag_after(g.mask, seen),
                hidden::legal(g.mask, seen) ==> sum == worth_sum(g, c, seen, p as nat) && n
                    == piece::pieces_below(bag, p as nat).len(),
                !hidden::legal(g.mask, seen) ==> n == 0,
                n <= p,
            decreases 7 - p,
        {
            if has(bag, p) {
                let hid: [Piece; 4] = [h[0], h[1], h[2], p];
                assert(hid@ =~= seen.push(p));
                proof {
                    hidden::lemma_push(g.mask, seen, p);
                }
                if let Some(leaf) = self.full_leaf(hid) {
                    proof {
                        hidden::lemma_rank(g.mask, hid@);
                    }
                    let v: u64 = match self.retained.vals.get(child as u64) {
                        Some(vec) => vec[leaf],
                        None => 0,
                    };
                    sum = ask(&self.retained.calc, Op::Plus(sum, v));
                    n = n + 1;
                }
            }
            p = p + 1;
        }
        proof {
            hidden::lemma_bag_after(g.mask, seen);
            piece::lemma_pieces_some(bag);
        }
        if n > 0 {
            ask(&self.retained.calc, Op::Over(sum, n))
        } else {
            0
        }
    }

    /// What a position with five placements made or more is worth under the reveals.
    fn late_score(&self, child: usize, depth: u8, h: &[Piece; 4]) -> (r: u64)
        requires
            self.wf(),
            child < self.retained.dag.nodes@.len(),
            self.retained.dag.nodes@[child as int].key.depth == depth,
            5 <= depth <= 10,
            forall|i: int| 0 <= i < 4 ==> h@[i] < 7,
            depth <= 6 || hidden::legal(self.game().mask, h@),
        ensures
            r == decision(self.game(), self.retained.dag.nodes@[child as int].key, h@),
    {
        let ghost g = self.game();
        let ghost nodes = self.retained.dag.nodes@;
        let ghost c = nodes[child as int].key;
        proof {
            value_search::lemma_live_node(g, self.retained.dag, child as int);
            hidden::lemma_reveals_some(g.mask, 4);
            if hidden::legal(g.mask, h@) {
                hidden::lemma_rank(g.mask, h@);
            }
        }
        let leaf: usize = match self.full_leaf(*h) {
            Some(l) => l,
            None => 0,
        };
        if depth <= 6 {
            return match self.retained.vals.get(child as u64) {
                Some(vec) => vec[leaf],
                None => 0,
            };
        }
        let plen: u8 = depth - 6;
        let bag: u8 = bag_first(self.retained.initial_mask, h, plen);
        if bag != self.retained.dag.nodes[child].key.mask {
            return 0;
        }
        let pack: u16 = pack_first(h, plen);
        let ghost seen = h@.take(plen as int);
        let ghost rest = h@.skip(plen as int);
        proof {
            hidden::lemma_split(g.mask, h@, plen as int);
            hidden::lemma_small(g.mask, seen);
            hidden::lemma_ranges(g.mask, self.retained.ranges@, seen);
            hidden::lemma_rank(bag, rest);
            hidden::lemma_pow8();
            hidden::lemma_packed_bound(seen);
            assert(hidden::pow8(seen.len()) <= 4096) by {
                assert(plen == 1 || plen == 2 || plen == 3 || plen == 4);
            }
        }
        match self.retained.ranges.get(range_key(plen, pack)) {
            Some(block) => match self.retained.vals.get(child as u64) {
                Some(vec) => vec[leaf - block.start as usize],
                None => 0,
            },
            None => 0,
        }
    }

    /// What a placement is worth when it is chosen.
    fn decision_score(&self, child: usize, depth: u8, h: &[Piece; 4]) -> (r: u64)
        requires
            self.wf(),
            child < self.retained.dag.nodes@.len(),
            self.retained.dag.nodes@[child as int].key.depth == depth,
            1 <= depth <= 10,
            forall|i: int| 0 <= i < 4 ==> h@[i] < 7,
            depth <= 6 || hidden::legal(self.game().mask, h@),
        ensures
            r == decision(self.game(), self.retained.dag.nodes@[child as int].key, h@),
    {
        if depth <= 3 {
            self.early_score(child, depth, h)
        } else if depth == 4 {
            self.fourth_score(child, h)
        } else {
            self.late_score(child, depth, h)
        }
    }
}

/// One more placement on a path.
proof fn lemma_trail_step(g: Game, k: NodeKey, path: Seq<usize>, i: int, h: Seq<u8>)
    requires
        0 <= i < path.len(),
        path[i] < game::live_children(g, k).len(),
    ensures
        ({
            let c = game::live_children(g, k)[path[i] as int];
            let a = trail(g, k, path.skip(i), h);
            let b = trail(g, c, path.skip(i + 1), h);
            a.0 == seq![cand_at(g, k, path[i] as int, h)] + b.0 && a.1 == b.1
        }),
{
    assert(path.skip(i).drop_first() =~= path.skip(i + 1));
    assert(path.skip(i)[0] == path[i]);
}

/// A path leads on.
proof fn lemma_trail_depth(g: Game, k: NodeKey, path: Seq<usize>, h: Seq<u8>)
    requires
        g.ok(),
        g.fits(k),
    ensures
        g.fits(trail(g, k, path, h).1),
        trail(g, k, path, h).1.depth >= k.depth,
    decreases path.len(),
{
    if path.len() > 0 && path[0] < game::live_children(g, k).len() {
        lemma_live_child(g, k, path[0] as int);
        lemma_trail_depth(
            g,
            game::live_children(g, k)[path[0] as int],
            path.drop_first(),
            h,
        );
    }
}

/// What an analysis says of a game, a path and the reveals.
pub open spec fn analysis_of(r: AnalysisNode, g: Game, path: Seq<usize>, h: Seq<u8>) -> bool {
    let t = trail(g, g.root(), path, h);
    let k = t.1;
    let list = all_cands(g, k, h);
    &&& r.depth == k.depth
    &&& r.field == k.field
    &&& r.hold == k.hold
    &&& r.active == due(g.visible, h, k.depth as int)
    &&& r.terminal == ending(k, list)
    &&& r.best_score == top(list).1
    &&& r.root_value == game::game_value(g)
    &&& r.path_steps@ == t.0
    &&& r.cands@ == by_rank(flagged(list))
    &&& same_cands(r.cands@, flagged(list))
    &&& ranked(r.cands@)
    &&& r.visible@ == g.visible
    &&& forall|j: int|
        0 <= j < 4 ==> (#[trigger] r.reveal_options@[j])@ == piece::pieces_of(
            hidden::bag_after(g.mask, h.take(j)),
        )
}

impl<F: Fn(Op) -> u64> VsResult<F> {
    /// Node `id` is the position.
    spec fn stands(&self, id: usize, k: NodeKey) -> bool {
        id < self.retained.dag.nodes@.len() && self.retained.dag.nodes@[id as int].key == k
    }

    /// Placement `e` at node `id`, and the node that it leads to.
    fn make_cand(&self, id: usize, e: usize, h: &[Piece; 4]) -> (r: (AnalysisCand, usize))
        requires
            self.wf(),
            id < self.retained.dag.nodes@.len(),
            e < self.retained.dag.nodes@[id as int].edges@.len(),
            forall|i: int| 0 <= i < 4 ==> h@[i] < 7,
            self.retained.dag.nodes@[id as int].key.depth <= 5 || hidden::legal(
                self.game().mask,
                h@,
            ),
        ensures
            r.0 == cand_at(self.game(), self.retained.dag.nodes@[id as int].key, e as int, h@),
            e < game::live_children(
                self.game(),
                self.retained.dag.nodes@[id as int].key,
            ).len(),
            self.stands(
                r.1,
                game::live_children(
                    self.game(),
                    self.retained.dag.nodes@[id as int].key,
                )[e as int],
            ),
            self.retained.dag.nodes@[r.1 as int].key.depth
                == self.retained.dag.nodes@[id as int].key.depth + 1,
    {
        let ghost g = self.game();
        let pk: NodeKey = self.retained.dag.nodes[id].key;
        let child: usize = self.retained.dag.nodes[id].edges[e];
        proof {
            value_search::lemma_live_node(g, self.retained.dag, id as int);
            value_search::lemma_live_edge(g, self.retained.dag, id as int, e as int);
        }
        let ck: NodeKey = self.retained.dag.nodes[child].key;
        let active: Piece = active_piece(&self.retained.visible, h, pk.depth);
        let placed: Piece = if ck.hold == pk.hold {
            active
        } else {
            pk.hold
        };
        let s: u64 = self.decision_score(child, pk.depth + 1, h);
        (
            AnalysisCand {
                edge: e,
                placed,
                hold_after: ck.hold,
                field_before: pk.field,
                field_after: ck.field,
                score: s,
                best: false,
            },
            child,
        )
    }

    /// The placements at node `id` that agree with the piece that was revealed.
    fn list_cands(&self, id: usize, h: &[Piece; 4]) -> (out: Vec<AnalysisCand>)
        requires
            self.wf(),
            id < self.retained.dag.nodes@.len(),
            forall|i: int| 0 <= i < 4 ==> h@[i] < 7,
            self.retained.dag.nodes@[id as int].key.depth <= 5 || hidden::legal(
                self.game().mask,
                h@,
            ),
        ensures
            out@ == all_cands(self.game(), self.retained.dag.nodes@[id as int].key, h@),
            in_edge_order(out@),
            game::live_children(
                self.game(),
                self.retained.dag.nodes@[id as int].key,
            ).len() <= usize::MAX,
    {
        let ghost g = self.game();
        let key: NodeKey = self.retained.dag.nodes[id].key;
        let ghost live = game::live_children(g, key);
        let mut out: Vec<AnalysisCand> = Vec::new();
        proof {
            value_search::lemma_live_node(g, self.retained.dag, id as int);
            assert(dag::edge_keys(
                self.retained.dag.nodes@,
                self.retained.dag.nodes@[id as int].edges@,
            ).len() == live.len());
        }
        let n: usize = self.retained.dag.nodes[id].edges.len();
        let mut e: usize = 0;
        while e < n
            invariant
                e <= n,
                self.wf(),
                g == self.game(),
                id < self.retained.dag.nodes@.len(),
                key == self.retained.dag.nodes@[id as int].key,
                g.fits(key),
                n == self.retained.dag.nodes@[id as int].edges@.len(),
                live == game::live_children(g, key),
                n == live.len(),
                forall|i: int| 0 <= i < 4 ==> h@[i] < 7,
                key.depth <= 5 || hidden::legal(g.mask, h@),
                out@ == cands_of(g, key, h@, e as nat),
            decreases n - e,
        {
            proof {
                value_search::lemma_live_edge(g, self.retained.dag, id as int, e as int);
            }
            let child: usize = self.retained.dag.nodes[id].edges[e];
            let fits: bool = key.depth < 6 || self.retained.dag.nodes[child].key.mask
                == after_reveal(key.mask, h[(key.depth - 6) as usize]);
            if fits {
                let (c, _child): (AnalysisCand, usize) = self.make_cand(id, e, h);
                out.push(c);
            }
            e = e + 1;
        }
        proof {
            lemma_cands_order(g, key, h@, n as nat);
        }
        out
    }

    /// Follow a path through the loop under the reveals, and rank the placements where it ends.
    pub fn analyze(&self, path: &[usize], hidden: [Piece; 4]) -> (r: AnalysisNode)
        requires
            self.wf(),
            forall|i: int| 0 <= i < 4 ==> hidden@[i] < 7,
            game::alive(self.game(), self.game().root()),
            trail(self.game(), self.game().root(), path@, hidden@).1.depth <= 5 || hidden::legal(
                self.game().mask,
                hidden@,
            ),
        ensures
            analysis_of(r, self.game(), path@, hidden@),
            path@.len() == 0 ==> r.best_score == self.root_value,
            game::live_children(
                self.game(),
                trail(self.game(), self.game().root(), path@, hidden@).1,
            ).len() <= usize::MAX,
    {
        let ghost g = self.game();
        let ghost h = hidden@;
        let ghost whole = trail(g, g.root(), path@, h);
        let mut node: usize = 0;
        let mut steps: Vec<AnalysisCand> = Vec::new();
        let mut i: usize = 0;
        let mut done: bool = path.len() == 0;
        proof {
            reveal(dag::live_dag);
            assert(path@.skip(0) =~= path@);
            assert(steps@ + whole.0 =~= whole.0);
        }
        while !done
            invariant
                self.wf(),
                g == self.game(),
                h == hidden@,
                whole == trail(g, g.root(), path@, h),
                forall|i: int| 0 <= i < 4 ==> hidden@[i] < 7,
                whole.1.depth <= 5 || hidden::legal(g.mask, h),
                i <= path@.len(),
                !done ==> i < path@.len(),
                node < self.retained.dag.nodes@.len(),
                !done ==> ({
                    let t = trail(
                        g,
                        self.retained.dag.nodes@[node as int].key,
                        path@.skip(i as int),
                        h,
                    );
                    whole.0 == steps@ + t.0 && whole.1 == t.1
                }),
                done ==> whole.0 == steps@ && whole.1 == self.retained.dag.nodes@[node as int].key,
            decreases
                path@.len() - i,
                (if done {
                    0int
                } else {
                    1int
                }),
        {
            let e: usize = path[i];
            let ghost k = self.retained.dag.nodes@[node as int].key;
            proof {
                value_search::lemma_live_node(g, self.retained.dag, node as int);
                assert(path@.skip(i as int)[0] == e);
                assert(dag::edge_keys(
                    self.retained.dag.nodes@,
                    self.retained.dag.nodes@[node as int].edges@,
                ).len() == game::live_children(g, k).len());
            }
            if e >= self.retained.dag.nodes[node].edges.len() {
                assert(steps@ + Seq::<AnalysisCand>::empty() =~= steps@);
                done = true;
            } else {
                proof {
                    lemma_trail_step(g, k, path@, i as int, h);
                    lemma_live_child(g, k, e as int);
                    lemma_trail_depth(
                        g,
                        game::live_children(g, k)[e as int],
                        path@.skip(i + 1),
                        h,
                    );
                }
                let (c, child): (AnalysisCand, usize) = self.make_cand(node, e, &hidden);
                let ghost was = steps@;
                steps.push(c);
                node = child;
                i = i + 1;
                done = i == path.len();
                proof {
                    let b = trail(
                        g,
                        self.retained.dag.nodes@[node as int].key,
                        path@.skip(i as int),
                        h,
                    );
                    assert(was + (seq![c] + b.0) =~= steps@ + b.0);
                    if done {
                        assert(path@.skip(i as int) =~= Seq::<usize>::empty());
                        assert(steps@ + b.0 =~= steps@);
                    }
                }
            }
        }
        let key: NodeKey = self.retained.dag.nodes[node].key;
        proof {
            value_search::lemma_live_node(g, self.retained.dag, node as int);
        }
        let active: Piece = active_piece(&self.retained.visible, &hidden, key.depth);
        let mut cands = self.list_cands(node, &hidden);
        let ghost list = cands@;
        let mut best_pos: Option<usize> = None;
        let mut best_s: u64 = 0;
        let mut j: usize = 0;
        assert(list.take(0) =~= Seq::<AnalysisCand>::empty());
        while j < cands.len()
            invariant
                j <= cands@.len(),
                list == cands@,
                best_s == top(list.take(j as int)).1,
                best_pos is Some <==> top(list.take(j as int)).0 is Some,
                best_pos is Some ==> best_pos->0 == top(list.take(j as int)).0->0 && best_pos->0 < j,
            decreases cands@.len() - j,
        {
            proof {
                assert(list.take(j + 1).drop_last() =~= list.take(j as int));
                assert(list.take(j + 1).last() == list[j as int]);
            }
            if greater(cands[j].score, best_s) {
                best_s = cands[j].score;
                best_pos = Some(j);
            }
            j = j + 1;
        }
        assert(list.take(list.len() as int) =~= list);
        if let Some(p) = best_pos {
            let mut c: AnalysisCand = cands[p];
            c.best = true;
            cands.set(p, c);
        }
        let empty: bool = cands.len() == 0;
        assert(cands@ =~= flagged(list));
        let cands = sort_cands(cands);
        let terminal: u8 = if key.field == TWO_LINE_HASH && key.depth == 5 {
            2
        } else if key.depth == 10 {
            1
        } else if empty || none_left(best_s) {
            3
        } else {
            0
        };
        let m: u8 = self.retained.initial_mask;
        let reveal_options: [Vec<Piece>; 4] = [
            pieces(bag_first(m, &hidden, 0)),
            pieces(bag_first(m, &hidden, 1)),
            pieces(bag_first(m, &hidden, 2)),
            pieces(bag_first(m, &hidden, 3)),
        ];
        let r = AnalysisNode {
            depth: key.depth,
            field: key.field,
            hold: key.hold,
            active,
            terminal,
            best_score: best_s,
            root_value: self.root_value,
            path_steps: steps,
            cands,
            reveal_options,
            visible: self.retained.visible,
        };
        proof {
            if path@.len() == 0 {
                assert(path@ =~= Seq::<usize>::empty());
                law_best_first_score_is_root_value(*self, r, h);
            }
        }
        r
    }
}

/* ---- paths ---- */

/// Where a path leads; nothing where a placement of it does not exist.
pub open spec fn walked(g: Game, k: NodeKey, path: Seq<usize>) -> Option<NodeKey>
    decreases path.len(),
{
    if path.len() == 0 {
        Some(k)
    } else if path[0] >= game::live_children(g, k).len() {
        None
    } else {
        walked(g, game::live_children(g, k)[path[0] as int], path.drop_first())
    }
}

pub proof fn lemma_walked_trail(g: Game, k: NodeKey, path: Seq<usize>, h: Seq<u8>)
    requires
        walked(g, k, path) is Some,
    ensures
        trail(g, k, path, h).1 == walked(g, k, path)->0,
    decreases path.len(),
{
    if path.len() > 0 {
        lemma_walked_trail(
            g,
            game::live_children(g, k)[path[0] as int],
            path.drop_first(),
            h,
        );
    }
}

pub proof fn lemma_walked_push(g: Game, k: NodeKey, path: Seq<usize>, e: usize)
    requires
        walked(g, k, path) is Some,
        e < game::live_children(g, walked(g, k, path)->0).len(),
    ensures
        walked(g, k, path.push(e)) == Some(
            game::live_children(g, walked(g, k, path)->0)[e as int],
        ),
    decreases path.len(),
{
    reveal_with_fuel(walked, 2);
    let more = path.push(e);
    if path.len() == 0 {
        assert(more.drop_first() =~= Seq::<usize>::empty());
    } else {
        assert(more[0] == path[0]);
        assert(more.drop_first() =~= path.drop_first().push(e));
        lemma_walked_push(
            g,
            game::live_children(g, k)[path[0] as int],
            path.drop_first(),
            e,
        );
    }
}

/// A live placement leads to a position of the game from which it can still be won.
pub proof fn lemma_live_child(g: Game, k: NodeKey, e: int)
    requires
        g.ok(),
        g.fits(k),
        0 <= e < game::live_children(g, k).len(),
    ensures
        k.depth < 10,
        g.fits(game::live_children(g, k)[e]),
        game::alive(g, game::live_children(g, k)[e]),
        game::live_children(g, k)[e].depth == k.depth + 1,
        game::child_keys(g, k).contains(game::live_children(g, k)[e]),
{
    let list = game::child_keys(g, k);
    let live = game::live_children(g, k);
    game::lemma_live_keys(g, (game::left_of(k) - 1) as nat, list);
    assert(list.contains(live[e]));
    let t = choose|t: int| 0 <= t < list.len() && list[t] == live[e];
    game::lemma_child(g, k, t);
}

/// A path leads to a position of the game from which it can still be won.
pub proof fn lemma_walked(g: Game, k: NodeKey, path: Seq<usize>)
    requires
        g.ok(),
        g.fits(k),
        game::alive(g, k),
        walked(g, k, path) is Some,
    ensures
        g.fits(walked(g, k, path)->0),
        game::alive(g, walked(g, k, path)->0),
        walked(g, k, path)->0.depth == k.depth + path.len(),
    decreases path.len(),
{
    if path.len() > 0 {
        lemma_live_child(g, k, path[0] as int);
        lemma_walked(g, game::live_children(g, k)[path[0] as int], path.drop_first());
    }
}

/* ---- what the ranked list holds ---- */

pub proof fn lemma_cands_hold(g: Game, k: NodeKey, h: Seq<u8>, n: nat)
    ensures
        forall|i: int|
            0 <= i < cands_of(g, k, h, n).len() ==> stems(
                g,
                k,
                h,
                n,
                #[trigger] cands_of(g, k, h, n)[i],
            ),
        forall|e: int|
            0 <= e < n && #[trigger] agrees(g, k, e, h) ==> cands_of(g, k, h, n).contains(
                cand_at(g, k, e, h),
            ),
    decreases n,
{
    if n > 0 {
        let m = (n - 1) as nat;
        lemma_cands_hold(g, k, h, m);
        let was = cands_of(g, k, h, m);
        let now = cands_of(g, k, h, n);
        assert forall|i: int| 0 <= i < now.len() implies stems(g, k, h, n, #[trigger] now[i]) by {
            if i < was.len() {
                assert(stems(g, k, h, m, was[i]));
                let e = choose|e: int|
                    0 <= e < m && #[trigger] agrees(g, k, e, h) && was[i] == cand_at(g, k, e, h);
                assert(agrees(g, k, e, h));
            } else {
                assert(agrees(g, k, n - 1, h));
            }
        }
        assert forall|e: int| 0 <= e < n && #[trigger] agrees(g, k, e, h) implies now.contains(
            cand_at(g, k, e, h),
        ) by {
            if e < m {
                let i = choose|i: int| 0 <= i < was.len() && was[i] == cand_at(g, k, e, h);
                assert(now[i] == cand_at(g, k, e, h));
            } else {
                assert(now.last() == cand_at(g, k, e, h));
            }
        }
    }
}

/// The candidate is one of the first `n` placements.
pub open spec fn stems(g: Game, k: NodeKey, h: Seq<u8>, n: nat, c: AnalysisCand) -> bool {
    exists|e: int| 0 <= e < n && #[trigger] agrees(g, k, e, h) && c == cand_at(g, k, e, h)
}

/// The candidate is placement `e`, whether marked or not.
pub open spec fn is_cand(g: Game, k: NodeKey, e: int, h: Seq<u8>, c: AnalysisCand) -> bool {
    (AnalysisCand { best: false, ..c }) == cand_at(g, k, e, h)
}

/// The ranked list holds each placement that agrees with the reveals once.
pub proof fn lemma_ranked_list(g: Game, k: NodeKey, h: Seq<u8>, cands: Seq<AnalysisCand>)
    requires
        game::live_children(g, k).len() <= usize::MAX,
        same_cands(cands, flagged(all_cands(g, k, h))),
    ensures
        forall|j: int|
            0 <= j < cands.len() ==> (#[trigger] cands[j]).edge < game::live_children(g, k).len()
                && agrees(g, k, cands[j].edge as int, h) && is_cand(
                g,
                k,
                cands[j].edge as int,
                h,
                cands[j],
            ),
        forall|e: int|
            0 <= e < game::live_children(g, k).len() && #[trigger] agrees(g, k, e, h) ==> has_edge(
                cands,
                cands.len() as int,
                e,
            ),
        forall|i: int, j: int|
            0 <= i < cands.len() && 0 <= j < cands.len() && cands[i].edge == cands[j].edge ==> i
                == j,
{
    let n = game::live_children(g, k).len();
    let list = all_cands(g, k, h);
    let marked = flagged(list);
    lemma_cands_order(g, k, h, n);
    lemma_cands_hold(g, k, h, n);
    lemma_top(list);
    assert(marked.len() == list.len());
    assert forall|i: int| 0 <= i < list.len() implies (AnalysisCand {
        best: false,
        ..#[trigger] marked[i]
    }) == list[i] by {
        assert(stems(g, k, h, n, list[i]));
    }
    assert forall|j: int| 0 <= j < cands.len() implies (#[trigger] cands[j]).edge < n && agrees(
        g,
        k,
        cands[j].edge as int,
        h,
    ) && is_cand(g, k, cands[j].edge as int, h, cands[j]) by {
        assert(cands.contains(cands[j]));
        assert(marked.contains(cands[j]));
        let i = choose|i: int| 0 <= i < marked.len() && marked[i] == cands[j];
        assert(stems(g, k, h, n, list[i]));
        let e = choose|e: int|
            0 <= e < n && #[trigger] agrees(g, k, e, h) && list[i] == cand_at(g, k, e, h);
        assert(list[i].edge == e);
    }
    assert forall|e: int| 0 <= e < n && #[trigger] agrees(g, k, e, h) implies has_edge(
        cands,
        cands.len() as int,
        e,
    ) by {
        let c = cand_at(g, k, e, h);
        assert(list.contains(c));
        let i = choose|i: int| 0 <= i < list.len() && list[i] == c;
        assert(marked.contains(marked[i]));
        assert(cands.contains(marked[i]));
        let j = choose|j: int| 0 <= j < cands.len() && cands[j] == marked[i];
        assert(cands[j].edge == e);
    }
    assert forall|i: int, j: int|
        0 <= i < cands.len() && 0 <= j < cands.len() && cands[i].edge == cands[j].edge implies i
        == j by {
        assert(cands.contains(cands[i]));
        assert(cands.contains(cands[j]));
        assert(marked.contains(cands[i]));
        assert(marked.contains(cands[j]));
        let x = choose|x: int| 0 <= x < marked.len() && marked[x] == cands[i];
        let y = choose|y: int| 0 <= y < marked.len() && marked[y] == cands[j];
        assert(marked[x].edge == list[x].edge);
        assert(marked[y].edge == list[y].edge);
        if x < y {
            assert(list[x].edge < list[y].edge);
        } else if y < x {
            assert(list[y].edge < list[x].edge);
        }
    }
}

/// One of the first `n` candidates is placement `e`.
pub open spec fn has_edge(cands: Seq<AnalysisCand>, n: int, e: int) -> bool {
    exists|j: int| 0 <= j < n && (#[trigger] cands[j]).edge == e
}

/// The scores at a position depend on no more reveals than placements were made.
pub proof fn law_unseen_reveals_do_not_count(g: Game, k: NodeKey, h: Seq<u8>, other: Seq<u8>)
    requires
        g.ok(),
        g.fits(k),
        h.len() == 4,
        other.len() == 4,
        k.depth <= 4,
        h.take(k.depth as int) == other.take(k.depth as int),
    ensures
        all_cands(g, k, h) == all_cands(g, k, other),
        due(g.visible, h, k.depth as int) == due(g.visible, other, k.depth as int),
{
    lemma_seen_cands(g, k, h, other, game::live_children(g, k).len());
}

proof fn lemma_seen_cands(g: Game, k: NodeKey, h: Seq<u8>, other: Seq<u8>, n: nat)
    requires
        g.ok(),
        g.fits(k),
        h.len() == 4,
        other.len() == 4,
        k.depth <= 4,
        h.take(k.depth as int) == other.take(k.depth as int),
        n <= game::live_children(g, k).len(),
    ensures
        cands_of(g, k, h, n) == cands_of(g, k, other, n),
    decreases n,
{
    if n > 0 {
        lemma_seen_cands(g, k, h, other, (n - 1) as nat);
        lemma_live_child(g, k, n - 1);
        if k.depth == 4 {
            assert(h.take(4) =~= h);
            assert(other.take(4) =~= other);
        }
    }
}

/// Two analyses of a position agree where the reveals that differ are not seen there: as many are
/// seen as placements were made, and four at most.
pub proof fn law_analyses_agree(
    r: AnalysisNode,
    t: AnalysisNode,
    g: Game,
    path: Seq<usize>,
    h: Seq<u8>,
    other: Seq<u8>,
)
    requires
        g.ok(),
        analysis_of(r, g, path, h),
        analysis_of(t, g, path, other),
        h.len() == 4,
        other.len() == 4,
        ({
            let seen = if r.depth < 4 {
                r.depth as int
            } else {
                4
            };
            h.take(seen) == other.take(seen)
        }),
    ensures
        r.depth == t.depth,
        r.field == t.field,
        r.hold == t.hold,
        r.active == t.active,
        r.terminal == t.terminal,
        r.best_score == t.best_score,
        r.root_value == t.root_value,
        r.cands@ == t.cands@,
        r.path_steps@ == t.path_steps@,
        r.visible@ == t.visible@,
{
    let k = trail(g, g.root(), path, h).1;
    assert(g.fits(g.root()));
    lemma_trail_depth(g, g.root(), path, h);
    if k.depth >= 4 {
        assert(h.take(4) =~= h);
        assert(other.take(4) =~= other);
    } else {
        lemma_trails_agree(g, g.root(), path, h, other);
        law_unseen_reveals_do_not_count(g, k, h, other);
    }
}

proof fn lemma_trails_agree(g: Game, k: NodeKey, path: Seq<usize>, h: Seq<u8>, other: Seq<u8>)
    requires
        g.ok(),
        g.fits(k),
        h.len() == 4,
        other.len() == 4,
        trail(g, k, path, h).1.depth < 4,
        h.take(trail(g, k, path, h).1.depth as int) == other.take(
            trail(g, k, path, h).1.depth as int,
        ),
    ensures
        trail(g, k, path, h) == trail(g, k, path, other),
    decreases path.len(),
{
    if path.len() > 0 && path[0] < game::live_children(g, k).len() {
        let c = game::live_children(g, k)[path[0] as int];
        let d = trail(g, k, path, h).1.depth as int;
        lemma_live_child(g, k, path[0] as int);
        lemma_trail_depth(g, c, path.drop_first(), h);
        lemma_trails_agree(g, c, path.drop_first(), h, other);
        assert(h.take(k.depth as int) =~= h.take(d).take(k.depth as int));
        assert(other.take(k.depth as int) =~= other.take(d).take(k.depth as int));
        assert(cand_at(g, k, path[0] as int, h) == cand_at(g, k, path[0] as int, other));
    }
}

/* ---- what the best placement is worth ---- */

/// The reveals that are still to come at a position, of the four of a loop.
pub open spec fn ahead(k: NodeKey, h: Seq<u8>) -> Seq<u8> {
    if k.depth <= 6 {
        h
    } else {
        h.skip(k.depth - 6)
    }
}

/// The reveals are those of a loop at the position: the bag allows all four, and its bag is what
/// those seen so far have left.
pub open spec fn in_step(g: Game, k: NodeKey, h: Seq<u8>) -> bool {
    &&& h.len() == 4
    &&& hidden::legal(g.mask, h)
    &&& k.depth >= 6 ==> k.mask == hidden::bag_after(g.mask, h.take(k.depth - 6))
}

/// With four placements made or more, a placement that agrees with the reveals scores what the
/// position that it leads to is worth under them.
pub proof fn law_late_score_is_worth(g: Game, k: NodeKey, h: Seq<u8>, e: int)
    requires
        g.ok(),
        g.fits(k),
        4 <= k.depth < 10,
        in_step(g, k, h),
        0 <= e < game::live_children(g, k).len(),
        agrees(g, k, e, h),
    ensures
        cand_at(g, k, e, h).score == game::worth(
            g,
            game::left_of(game::live_children(g, k)[e]),
            game::live_children(g, k)[e],
            game::later(k, ahead(k, h)),
        ),
{
    let c = game::live_children(g, k)[e];
    lemma_live_child(g, k, e);
    if k.depth >= 6 {
        let d = k.depth - 6;
        assert(h.take(d + 1) =~= h.take(d).push(h[d]));
        hidden::lemma_push(g.mask, h.take(d), h[d]);
        assert(ahead(k, h).drop_first() =~= h.skip(d + 1));
    }
}

proof fn lemma_late_tops(g: Game, k: NodeKey, h: Seq<u8>, m: nat)
    requires
        g.ok(),
        g.fits(k),
        4 <= k.depth < 10,
        in_step(g, k, h),
        m <= game::live_children(g, k).len(),
    ensures
        top(cands_of(g, k, h, m)).1 == game::best(
            g,
            (game::left_of(k) - 1) as nat,
            game::live_children(g, k).take(m as int),
            game::wanted(k, due(g.visible, h, k.depth as int)),
            game::later(k, ahead(k, h)),
        ),
    decreases m,
{
    let live = game::live_children(g, k);
    if m > 0 {
        lemma_late_tops(g, k, h, (m - 1) as nat);
        lemma_live_child(g, k, m - 1);
        assert(live.take(m as int).drop_last() =~= live.take(m - 1));
        assert(live.take(m as int).last() == live[m - 1]);
        if agrees(g, k, m - 1, h) {
            law_late_score_is_worth(g, k, h, m - 1);
            assert(cands_of(g, k, h, m).drop_last() =~= cands_of(g, k, h, (m - 1) as nat));
        }
    }
}

/// With four placements made or more, the best score is what the position is worth under the
/// reveals.
pub proof fn law_best_late_score_is_worth(g: Game, k: NodeKey, h: Seq<u8>)
    requires
        g.ok(),
        g.fits(k),
        4 <= k.depth < 10,
        !game::two_lines(k),
        in_step(g, k, h),
    ensures
        top(all_cands(g, k, h)).1 == game::worth(g, game::left_of(k), k, ahead(k, h)),
{
    let live = game::live_children(g, k);
    let left = (game::left_of(k) - 1) as nat;
    lemma_late_tops(g, k, h, live.len());
    assert(live.take(live.len() as int) =~= live);
    game::lemma_best_live(
        g,
        left,
        game::child_keys(g, k),
        game::wanted(k, due(g.visible, h, k.depth as int)),
        game::later(k, ahead(k, h)),
    );
    if k.depth > 6 {
        assert(ahead(k, h)[0] == h[k.depth - 6]);
    }
}

/// The sum that one of the first three placements is scored by is the sum that the search takes.
proof fn lemma_first_sum(g: Game, c: NodeKey, seen: Seq<u8>, n: nat)
    requires
        g.ok(),
        score::all_fair(g.calc),
        1 <= c.depth <= 3,
        hidden::legal(g.mask, seen),
        forall|i: int| 0 <= i < seen.len() ==> seen[i] < 7,
        n <= 7,
    ensures
        expected_sum(g, c, seen, n) == score::or_nothing(
            game::hoped(g, game::left_of(c), c, seen, n),
        ),
    decreases n,
{
    if n > 0 {
        let left = game::left_of(c);
        let more = seen.push((n - 1) as u8);
        lemma_first_sum(g, c, seen, (n - 1) as nat);
        game::lemma_hoped_above(g, left, c, seen, (n - 1) as nat);
        hidden::lemma_push(g.mask, seen, (n - 1) as u8);
        assert forall|i: int| 0 <= i < more.len() implies more[i] < 7 by {}
        game::lemma_outlook_not_below(g, left, c, more);
        assert(game::outlook(g, left, c, more) == game::expected(g, left, c, more));
    }
}

/// The same for the fourth placement.
proof fn lemma_fourth_sum(g: Game, c: NodeKey, seen: Seq<u8>, n: nat)
    requires
        g.ok(),
        score::all_fair(g.calc),
        c.depth == 4,
        forall|i: int| 0 <= i < seen.len() ==> seen[i] < 7,
        n <= 7,
    ensures
        worth_sum(g, c, seen, n) == score::or_nothing(game::hoped(g, 6, c, seen, n)),
    decreases n,
{
    if n > 0 {
        let more = seen.push((n - 1) as u8);
        lemma_fourth_sum(g, c, seen, (n - 1) as nat);
        game::lemma_hoped_above(g, 6, c, seen, (n - 1) as nat);
        assert forall|i: int| 0 <= i < more.len() implies more[i] < 7 by {}
        game::lemma_outlook_not_below(g, 6, c, more);
        assert(game::outlook(g, 6, c, more) == Some(game::worth(g, 6, c, more)));
    }
}

/// With up to three placements made, a placement scores the mean of what is known of the position
/// that it leads to over the pieces that may be revealed next.
pub proof fn law_early_score_is_a_mean(g: Game, k: NodeKey, h: Seq<u8>, e: int)
    requires
        g.ok(),
        score::all_fair(g.calc),
        g.fits(k),
        k.depth <= 3,
        h.len() >= k.depth,
        hidden::legal(g.mask, h.take(k.depth as int)),
        0 <= e < game::live_children(g, k).len(),
    ensures
        cand_at(g, k, e, h).score == score::average(
            g.calc,
            game::outlooks(g, game::live_children(g, k)[e], h.take(k.depth as int)),
        ),
{
    let c = game::live_children(g, k)[e];
    let seen = h.take(k.depth as int);
    lemma_live_child(g, k, e);
    assert forall|i: int| 0 <= i < seen.len() implies seen[i] < 7 by {
        hidden::lemma_legal_small(g.mask, seen, i);
    }
    game::lemma_mean_outlook(g, c, seen);
    if c.depth <= 3 {
        lemma_first_sum(g, c, seen, 7);
    } else {
        lemma_fourth_sum(g, c, seen, 7);
    }
}

proof fn lemma_first_tops(g: Game, k: NodeKey, h: Seq<u8>, m: nat)
    requires
        g.ok(),
        score::all_fair(g.calc),
        g.fits(k),
        k.depth <= 3,
        h.len() >= k.depth,
        hidden::legal(g.mask, h.take(k.depth as int)),
        m <= game::live_children(g, k).len(),
    ensures
        top(cands_of(g, k, h, m)).1 == score::or_nothing(
            game::best_expected(
                g,
                (game::left_of(k) - 1) as nat,
                game::live_children(g, k).take(m as int),
                h.take(k.depth as int),
            ),
        ),
    decreases m,
{
    let live = game::live_children(g, k);
    let seen = h.take(k.depth as int);
    let left = (game::left_of(k) - 1) as nat;
    if m > 0 {
        let c = live[m - 1];
        let was = cands_of(g, k, h, (m - 1) as nat);
        let now = cands_of(g, k, h, m);
        lemma_first_tops(g, k, h, (m - 1) as nat);
        lemma_live_child(g, k, m - 1);
        assert forall|i: int| 0 <= i < seen.len() implies seen[i] < 7 by {
            hidden::lemma_legal_small(g.mask, seen, i);
        }
        law_early_score_is_a_mean(g, k, h, m - 1);
        game::lemma_mean_outlook(g, c, seen);
        game::lemma_best_expected_not_below(g, left, live.take(m - 1), seen);
        assert(now.drop_last() =~= was);
        assert(live.take(m as int).drop_last() =~= live.take(m - 1));
        assert(live.take(m as int).last() == c);
    }
}

/// With up to three placements made, the best score is what is expected of the position after the
/// reveals so far, or nothing.
pub proof fn law_best_early_score_is_expected(g: Game, k: NodeKey, h: Seq<u8>)
    requires
        g.ok(),
        score::all_fair(g.calc),
        g.fits(k),
        k.depth <= 3,
        h.len() >= k.depth,
        hidden::legal(g.mask, h.take(k.depth as int)),
    ensures
        top(all_cands(g, k, h)).1 == score::or_nothing(
            game::expected(g, game::left_of(k), k, h.take(k.depth as int)),
        ),
{
    let live = game::live_children(g, k);
    let left = (game::left_of(k) - 1) as nat;
    lemma_first_tops(g, k, h, live.len());
    assert(live.take(live.len() as int) =~= live);
    game::lemma_best_expected_live(
        g,
        left,
        game::child_keys(g, k),
        h.take(k.depth as int),
    );
}

/// The best first placement attains what the game is worth, whatever is revealed later.
pub proof fn law_first_placement_attains_value(g: Game, h: Seq<u8>)
    requires
        g.ok(),
        score::all_fair(g.calc),
    ensures
        top(all_cands(g, g.root(), h)).1 == game::game_value(g),
{
    assert(h.take(0) =~= Seq::<u8>::empty());
    law_best_early_score_is_expected(g, g.root(), h);
}

/// An analysis says what the position is worth: with four placements made or more its best score is
/// the worth under the reveals, before that what is expected after those seen so far.
pub proof fn law_best_score_is_the_positions_worth<F: Fn(Op) -> u64>(
    vs: VsResult<F>,
    r: AnalysisNode,
    path: Seq<usize>,
    h: Seq<u8>,
)
    requires
        vs.wf(),
        analysis_of(r, vs.game(), path, h),
        in_step(vs.game(), trail(vs.game(), vs.game().root(), path, h).1, h),
        r.terminal == 0 || r.terminal == 3,
    ensures
        ({
            let g = vs.game();
            let k = trail(g, g.root(), path, h).1;
            &&& 4 <= k.depth ==> r.best_score == game::worth(g, game::left_of(k), k, ahead(k, h))
            &&& k.depth <= 3 ==> r.best_score == score::or_nothing(
                game::expected(g, game::left_of(k), k, h.take(k.depth as int)),
            )
        }),
{
    let g = vs.game();
    let k = trail(g, g.root(), path, h).1;
    score::law_answers_are_fair(vs.retained.calc);
    lemma_trail_depth(g, g.root(), path, h);
    if k.depth <= 3 {
        hidden::lemma_split(g.mask, h, k.depth as int);
        law_best_early_score_is_expected(g, k, h);
    } else {
        law_best_late_score_is_worth(g, k, h);
    }
}

/// The same of an analysis of a solved loop: at its start the best score is the value of the root,
/// and no candidate scores above it, whatever is revealed later.
pub proof fn law_best_first_score_is_root_value<F: Fn(Op) -> u64>(
    vs: VsResult<F>,
    r: AnalysisNode,
    h: Seq<u8>,
)
    requires
        vs.wf(),
        analysis_of(r, vs.game(), Seq::empty(), h),
    ensures
        r.best_score == vs.root_value,
        forall|i: int|
            0 <= i < r.cands@.len() ==> !score::exceeds(
                (#[trigger] r.cands@[i]).score,
                vs.root_value,
            ),
{
    let g = vs.game();
    let list = all_cands(g, g.root(), h);
    score::law_answers_are_fair(vs.retained.calc);
    law_first_placement_attains_value(g, h);
    assert forall|i: int| 0 <= i < r.cands@.len() implies !score::exceeds(
        (#[trigger] r.cands@[i]).score,
        vs.root_value,
    ) by {
        let marked = flagged(list);
        assert(r.cands@.contains(r.cands@[i]));
        assert(marked.contains(r.cands@[i]));
        let j = choose|j: int| 0 <= j < marked.len() && marked[j] == r.cands@[i];
        lemma_top(list);
        law_top_is_best(list, j);
    }
}

/* ---- what a candidate does ---- */

/// A candidate places the piece that is due and keeps the hold, or places the hold and keeps the
/// piece that is due; its field is one that this placement leads to.
pub proof fn law_candidate_is_a_placement(g: Game, k: NodeKey, h: Seq<u8>, e: int)
    requires
        g.ok(),
        g.fits(k),
        0 <= e < game::live_children(g, k).len(),
        agrees(g, k, e, h),
        k.depth >= 6 ==> h.len() == 4 && piece::in_bag(k.mask, h[k.depth - 6] as int),
    ensures
        ({
            let c = cand_at(g, k, e, h);
            let p = due(g.visible, h, k.depth as int);
            &&& c.field_before == k.field
            &&& (g.kids)(k.field, c.placed).contains(c.field_after)
            &&& (c.placed == p && c.hold_after == k.hold) || (c.placed == k.hold && c.hold_after
                == p)
        }),
{
    let c = game::live_children(g, k)[e];
    let p = due(g.visible, h, k.depth as int);
    lemma_live_child(g, k, e);
    game::law_placements(g, k, c);
    if k.depth >= 6 {
        let q = choose|q: u8|
            piece::in_bag(k.mask, q as int) && #[trigger] game::leads_to(g, k, q, c);
        piece::lemma_after_differs(k.mask, q, p);
    }
}

/// Every placement after which the loop can still be won is a candidate.
pub proof fn law_every_live_placement_is_a_candidate(g: Game, k: NodeKey, h: Seq<u8>, c: NodeKey)
    requires
        g.ok(),
        g.fits(k),
        k.depth < 10,
        !game::two_lines(k),
        k.depth >= 6 ==> h.len() == 4 && piece::in_bag(k.mask, h[k.depth - 6] as int),
        game::leads_to(g, k, due(g.visible, h, k.depth as int), c),
        game::alive(g, c),
    ensures
        exists|i: int|
            0 <= i < all_cands(g, k, h).len() && (#[trigger] all_cands(g, k, h)[i]).field_after
                == c.field && all_cands(g, k, h)[i].hold_after == c.hold,
{
    let live = game::live_children(g, k);
    let list = game::child_keys(g, k);
    let left = (game::left_of(k) - 1) as nat;
    game::law_placements(g, k, c);
    let t = choose|t: int| 0 <= t < list.len() && list[t] == c;
    game::lemma_child(g, k, t);
    lemma_survivor_kept(g, left, list, t);
    let e = choose|e: int| 0 <= e < live.len() && live[e] == c;
    lemma_cands_hold(g, k, h, live.len());
    assert(agrees(g, k, e, h));
    let all = all_cands(g, k, h);
    assert(all.contains(cand_at(g, k, e, h)));
    let i = choose|i: int| 0 <= i < all.len() && all[i] == cand_at(g, k, e, h);
    assert(all[i].field_after == c.field);
}

proof fn lemma_survivor_kept(g: Game, left: nat, list: Seq<NodeKey>, t: int)
    requires
        0 <= t < list.len(),
        game::survives(g, left, list[t]),
    ensures
        game::live_keys(g, left, list).contains(list[t]),
    decreases list.len(),
{
    let now = game::live_keys(g, left, list);
    let was = game::live_keys(g, left, list.drop_last());
    if t == list.len() - 1 {
        assert(now.last() == list[t]);
    } else {
        lemma_survivor_kept(g, left, list.drop_last(), t);
        assert(list.drop_last()[t] == list[t]);
        let i = choose|i: int| 0 <= i < was.len() && was[i] == list[t];
        assert(now[i] == list[t]);
    }
}

/// How a position ends, and which candidate is marked: while the loop goes on, the one with the best
/// score, and no other. Where all scores are numbers it ranks first, and of two candidates the one
/// with the higher score comes first.
pub proof fn law_ending<F: Fn(Op) -> u64>(
    vs: VsResult<F>,
    r: AnalysisNode,
    path: Seq<usize>,
    h: Seq<u8>,
)
    requires
        vs.wf(),
        analysis_of(r, vs.game(), path, h),
        game::live_children(
            vs.game(),
            trail(vs.game(), vs.game().root(), path, h).1,
        ).len() <= usize::MAX,
    ensures
        r.terminal == 2 <==> r.depth == 5 && r.field == TWO_LINE_HASH,
        r.terminal == 1 <==> r.depth == 10,
        r.terminal == 3 <==> r.depth != 10 && !(r.depth == 5 && r.field == TWO_LINE_HASH)
            && r.best_score == 0,
        r.best_score != 0 ==> score::exceeds(r.best_score, 0) && exists|i: int|
            0 <= i < r.cands@.len() && (#[trigger] r.cands@[i]).best && r.cands@[i].score
                == r.best_score,
        forall|i: int, j: int|
            0 <= i < r.cands@.len() && 0 <= j < r.cands@.len() && (#[trigger] r.cands@[i]).best
                && (#[trigger] r.cands@[j]).best ==> i == j,
        forall|i: int|
            0 <= i < r.cands@.len() ==> !score::exceeds(
                (#[trigger] r.cands@[i]).score,
                r.best_score,
            ),
        (forall|i: int| 0 <= i < r.cands@.len() ==> !score::is_nan((#[trigger] r.cands@[i]).score))
            ==> {
            &&& r.best_score != 0 ==> r.cands@[0].best
            &&& forall|i: int, j: int|
                0 <= i < j < r.cands@.len() ==> !score::exceeds(
                    (#[trigger] r.cands@[j]).score,
                    (#[trigger] r.cands@[i]).score,
                )
        },
{
    let g = vs.game();
    let k = trail(g, g.root(), path, h).1;
    let list = all_cands(g, k, h);
    let marked = flagged(list);
    let cands = r.cands@;
    lemma_top(list);
    lemma_trail_depth(g, g.root(), path, h);
    lemma_cands_order(g, k, h, game::live_children(g, k).len());
    assert forall|i: int| 0 <= i < cands.len() implies exists|y: int|
        0 <= y < list.len() && marked[y] == #[trigger] cands[i] && list[y].score == cands[i].score
            && list[y].edge == cands[i].edge && (cands[i].best <==> top(list).0 == Some(y)) by {
        assert(cands.contains(cands[i]));
        assert(marked.contains(cands[i]));
        let y = choose|y: int| 0 <= y < marked.len() && marked[y] == cands[i];
        lemma_unmarked(g, k, h, game::live_children(g, k).len(), y);
        assert(marked[y] == cands[i]);
    }
    assert forall|i: int| 0 <= i < cands.len() implies !score::exceeds(
        (#[trigger] cands[i]).score,
        r.best_score,
    ) by {
        let y = choose|y: int|
            0 <= y < list.len() && marked[y] == cands[i] && list[y].score == cands[i].score
                && list[y].edge == cands[i].edge && (cands[i].best <==> top(list).0 == Some(y));
        law_top_is_best(list, y);
    }
    if top(list).0 is Some {
        let x = top(list).0->0;
        assert(marked[x].best);
        assert(marked.contains(marked[x]));
        assert(cands.contains(marked[x]));
        let at = choose|at: int| 0 <= at < cands.len() && cands[at] == marked[x];
        assert(cands[at].best && cands[at].score == r.best_score);
        if (forall|i: int| 0 <= i < cands.len() ==> !score::is_nan((#[trigger] cands[i]).score))
            && at > 0 {
            assert(before(cands[0], cands[at]));
            let y = choose|y: int|
                0 <= y < list.len() && marked[y] == cands[0] && list[y].score == cands[0].score
                    && list[y].edge == cands[0].edge && (cands[0].best <==> top(list).0 == Some(y));
            law_top_is_best(list, y);
            if y < x {
                assert(score::exceeds(list[x].score, list[y].score));
            } else if y > x {
                assert(list[x].edge < list[y].edge);
            }
        }
    }
    assert forall|i: int, j: int|
        0 <= i < cands.len() && 0 <= j < cands.len() && (#[trigger] cands[i]).best && (
        #[trigger] cands[j]).best implies i == j by {
        if i != j {
            assert(cands[i] != cands[j]);
        }
    }
    if forall|i: int| 0 <= i < cands.len() ==> !score::is_nan((#[trigger] cands[i]).score) {
        assert forall|i: int, j: int| 0 <= i < j < cands.len() implies !score::exceeds(
            (#[trigger] cands[j]).score,
            (#[trigger] cands[i]).score,
        ) by {
            assert(before(cands[i], cands[j]));
        }
    }
}

/// Before the best is marked, no candidate is.
proof fn lemma_unmarked(g: Game, k: NodeKey, h: Seq<u8>, n: nat, y: int)
    requires
        0 <= y < cands_of(g, k, h, n).len(),
    ensures
        !cands_of(g, k, h, n)[y].best,
    decreases n,
{
    let was = cands_of(g, k, h, (n - 1) as nat);
    if y < was.len() {
        lemma_unmarked(g, k, h, (n - 1) as nat, y);
    }
}

/// The pieces that a reveal may bring are those that the bag allows after the reveals before it.
pub proof fn law_reveal_options<F: Fn(Op) -> u64>(
    vs: VsResult<F>,
    r: AnalysisNode,
    path: Seq<usize>,
    h: Seq<u8>,
    j: int,
    p: u8,
)
    requires
        vs.wf(),
        analysis_of(r, vs.game(), path, h),
        0 <= j < 4,
        h.len() == 4,
        hidden::legal(vs.game().mask, h.take(j)),
    ensures
        r.reveal_options@[j]@.contains(p) <==> hidden::legal(vs.game().mask, h.take(j).push(p)),
{
    broadcast use piece::lemma_in_bag_range;

    let mask = vs.game().mask;
    let bag = hidden::bag_after(mask, h.take(j));
    hidden::lemma_push(mask, h.take(j), p);
    piece::lemma_pieces_below(bag, 7);
    let list = piece::pieces_of(bag);
    assert(r.reveal_options@[j]@ == list);
    if list.contains(p) {
        let i = choose|i: int| 0 <= i < list.len() && list[i] == p;
        assert(piece::in_bag(bag, list[i] as int));
    }
}

/* ---- reveals that the bag does not allow ---- */

/// Where the bag does not allow the reveals so far, an early placement scores nothing. Where it does
/// not allow all four, a placement before the first of them is due scores as under the first
/// sequence that it allows.
pub proof fn law_scores_of_other_reveals(g: Game, k: NodeKey, h: Seq<u8>, e: int)
    requires
        g.ok(),
        score::all_fair(g.calc),
        g.fits(k),
        k.depth <= 5,
        h.len() == 4,
        forall|i: int| 0 <= i < 4 ==> h[i] < 7,
        0 <= e < game::live_children(g, k).len(),
    ensures
        k.depth <= 3 && !hidden::legal(g.mask, h.take(k.depth as int)) ==> cand_at(
            g,
            k,
            e,
            h,
        ).score == 0,
        k.depth >= 4 && !hidden::legal(g.mask, h) ==> cand_at(g, k, e, h).score == cand_at(
            g,
            k,
            e,
            hidden::reveals(g.mask, 4)[0],
        ).score,
{
    let c = game::live_children(g, k)[e];
    lemma_live_child(g, k, e);
    if k.depth <= 3 {
        let seen = h.take(k.depth as int);
        if !hidden::legal(g.mask, seen) {
            hidden::lemma_bag_after(g.mask, seen);
            piece::lemma_pieces_some(hidden::bag_after(g.mask, seen));
            lemma_illegal_sum(g, c, seen, 7);
        }
    } else {
        hidden::lemma_reveals_some(g.mask, 4);
        hidden::lemma_reveals_legal(g.mask, 4, 0);
    }
}

proof fn lemma_illegal_sum(g: Game, c: NodeKey, seen: Seq<u8>, n: nat)
    requires
        !hidden::legal(g.mask, seen),
    ensures
        expected_sum(g, c, seen, n) == 0,
    decreases n,
{
    if n > 0 {
        lemma_illegal_sum(g, c, seen, (n - 1) as nat);
        hidden::lemma_push(g.mask, seen, (n - 1) as u8);
    }
}

/* ---- paths ---- */

/// The steps of a path follow each other: each starts from the field where the last one ended, the
/// first from the empty field, and the position is where the last one ended.
pub proof fn law_steps_follow_the_path<F: Fn(Op) -> u64>(
    vs: VsResult<F>,
    r: AnalysisNode,
    path: Seq<usize>,
    h: Seq<u8>,
)
    requires
        vs.wf(),
        analysis_of(r, vs.game(), path, h),
        walked(vs.game(), vs.game().root(), path) is Some,
    ensures
        r.path_steps@.len() == path.len(),
        r.depth == path.len(),
        forall|i: int| 0 <= i < path.len() ==> (#[trigger] r.path_steps@[i]).edge == path[i],
        path.len() > 0 ==> r.path_steps@[0].field_before == 0,
        path.len() > 0 ==> r.field == r.path_steps@.last().field_after && r.hold
            == r.path_steps@.last().hold_after,
        forall|i: int, j: int|
            0 <= i && j == i + 1 && j < path.len() ==> (#[trigger] r.path_steps@[j]).field_before
                == (#[trigger] r.path_steps@[i]).field_after,
{
    let g = vs.game();
    assert(g.fits(g.root()));
    lemma_steps(g, g.root(), path, h);
    lemma_walked_trail(g, g.root(), path, h);
}

proof fn lemma_steps(g: Game, k: NodeKey, path: Seq<usize>, h: Seq<u8>)
    requires
        g.ok(),
        g.fits(k),
        walked(g, k, path) is Some,
    ensures
        ({
            let t = trail(g, k, path, h);
            &&& t.0.len() == path.len()
            &&& t.1.depth == k.depth + path.len()
            &&& forall|i: int| 0 <= i < path.len() ==> (#[trigger] t.0[i]).edge == path[i]
            &&& path.len() > 0 ==> t.0[0].field_before == k.field && t.1.field
                == t.0.last().field_after && t.1.hold == t.0.last().hold_after
            &&& forall|i: int, j: int|
                0 <= i && j == i + 1 && j < path.len() ==> (#[trigger] t.0[j]).field_before == (
                #[trigger] t.0[i]).field_after
        }),
    decreases path.len(),
{
    if path.len() > 0 {
        let e = path[0] as int;
        let c = game::live_children(g, k)[e];
        let rest = path.drop_first();
        lemma_live_child(g, k, e);
        lemma_steps(g, c, rest, h);
        let a = trail(g, k, path, h).0;
        let b = trail(g, c, rest, h).0;
        assert(a =~= seq![cand_at(g, k, e, h)] + b);
        assert forall|i: int| 0 <= i < path.len() implies (#[trigger] a[i]).edge == path[i] by {
            if i > 0 {
                assert(a[i] == b[i - 1]);
                assert(rest[i - 1] == path[i]);
            }
        }
        assert forall|i: int, j: int| 0 <= i && j == i + 1 && j < path.len() implies (
        #[trigger] a[j]).field_before == (#[trigger] a[i]).field_after by {
            assert(a[j] == b[j - 1]);
            if i > 0 {
                assert(a[i] == b[i - 1]);
            }
        }
        if rest.len() > 0 {
            assert(a.last() == b.last());
        }
    }
}

/// Playing the best keeps what a position is worth: with four placements made or more, the position
/// that a placement with the best score leads to is worth as much under the reveals.
pub proof fn law_best_play_keeps_the_worth(g: Game, k: NodeKey, h: Seq<u8>, e: int)
    requires
        g.ok(),
        g.fits(k),
        4 <= k.depth < 10,
        !game::two_lines(k),
        in_step(g, k, h),
        0 <= e < game::live_children(g, k).len(),
        agrees(g, k, e, h),
        cand_at(g, k, e, h).score == top(all_cands(g, k, h)).1,
    ensures
        ({
            let c = game::live_children(g, k)[e];
            game::worth(g, game::left_of(c), c, ahead(c, h)) == game::worth(
                g,
                game::left_of(k),
                k,
                ahead(k, h),
            )
        }),
{
    law_late_score_is_worth(g, k, h, e);
    law_best_late_score_is_worth(g, k, h);
    lemma_live_child(g, k, e);
    if k.depth >= 6 {
        assert(ahead(k, h).drop_first() =~= h.skip(k.depth - 5));
    }
}

} // verus!
