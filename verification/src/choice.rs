//! Choosing a placement when some of the pieces that it depends on were not delivered yet: its score
//! is the mean over every way in which the bag can go on.

use vstd::prelude::*;
use crate::analysis;
use crate::analysis::AnalysisCand;
use crate::game;
use crate::game::{Game, NodeKey};
use crate::hidden;
use crate::piece;
use crate::piece::{after_reveal, has, Piece};
use crate::score;
use crate::score::{ask, greater, Op};
use crate::table::Table;
use crate::value_search::VsResult;

verus! {

/* ---- ways to go on ---- */

/// The first way in which a bag can go on.
pub open spec fn filler(mask: u8, n: nat) -> Seq<u8> {
    hidden::reveals(mask, n)[0]
}

/// `seen`, then `s`, then the first way to go on up to four reveals. The bag is the one after
/// `seen`.
pub open spec fn completion(seen: Seq<u8>, mask: u8, s: Seq<u8>, upto: nat) -> Seq<u8> {
    seen + s + filler(hidden::bag_after(mask, s), (4 - upto) as nat)
}

/// All ways to go on from `seen` up to `upto` reveals, in order.
pub open spec fn completions(seen: Seq<u8>, mask: u8, upto: nat) -> Seq<Seq<u8>> {
    completed(seen, mask, hidden::reveals(mask, (upto - seen.len()) as nat), upto)
}

pub open spec fn completed(seen: Seq<u8>, mask: u8, list: Seq<Seq<u8>>, upto: nat) -> Seq<Seq<u8>> {
    Seq::new(list.len(), |i: int| completion(seen, mask, list[i], upto))
}

/// The sequences in arrays.
pub open spec fn views(list: Seq<[Piece; 4]>) -> Seq<Seq<u8>> {
    Seq::new(list.len(), |i: int| list[i]@)
}

/// The first way to go on starts with the least piece.
proof fn lemma_filler(mask: u8, n: nat, p: u8)
    requires
        piece::bag(mask),
        n > 0,
        piece::in_bag(mask, p as int),
        forall|q: int| 0 <= q < p ==> !piece::in_bag(mask, q),
    ensures
        filler(mask, n) == seq![p] + filler(piece::after(mask, p), (n - 1) as nat),
{
    piece::lemma_in_bag_range(mask, p as int);
    piece::lemma_after(mask, p);
    hidden::lemma_branches_gap(mask, n, 0, p as nat);
    hidden::lemma_reveals_some(piece::after(mask, p), (n - 1) as nat);
    hidden::lemma_branch_block(mask, n, p, 0);
}

fn least(mask: u8) -> (p: Piece)
    requires
        piece::bag(mask),
    ensures
        p < 7,
        piece::in_bag(mask, p as int),
        forall|q: int| 0 <= q < p ==> !piece::in_bag(mask, q),
{
    let mut p: u8 = 0;
    let ghost w = piece::lemma_bag_holds(mask);
    while p < 6 && !(has(mask, p))
        invariant
            p <= 6,
            p <= w < 7,
            piece::in_bag(mask, w),
            forall|q: int| 0 <= q < p ==> !piece::in_bag(mask, q),
        ensures
            p <= 6,
            piece::in_bag(mask, p as int),
            forall|q: int| 0 <= q < p ==> !piece::in_bag(mask, q),
        decreases 6 - p,
    {
        p = p + 1;
    }
    p
}

/// Fill the last places with the first way to go on.
pub(crate) fn fill(base: [Piece; 4], from: usize, mask: u8) -> (c: [Piece; 4])
    requires
        from <= 4,
        piece::bag(mask),
    ensures
        c@ == base@.take(from as int) + filler(mask, (4 - from) as nat),
{
    let mut c: [Piece; 4] = base;
    let mut m: u8 = mask;
    let mut slot: usize = from;
    let ghost head = base@.take(from as int);
    let ghost built = Seq::<u8>::empty();
    assert(built + filler(m, (4 - slot) as nat) =~= filler(mask, (4 - from) as nat));
    assert(c@.take(slot as int) =~= head + built);
    while slot < 4
        invariant
            from <= slot <= 4,
            piece::bag(m),
            c@.take(slot as int) == head + built,
            built + filler(m, (4 - slot) as nat) == filler(mask, (4 - from) as nat),
        decreases 4 - slot,
    {
        let p: Piece = least(m);
        proof {
            lemma_filler(m, (4 - slot) as nat, p);
            piece::lemma_after(m, p);
            assert(built + (seq![p] + filler(piece::after(m, p), (3 - slot) as nat)) =~= built.push(p)
                + filler(piece::after(m, p), (3 - slot) as nat));
        }
        let ghost was = c@;
        c[slot] = p;
        m = after_reveal(m, p);
        proof {
            built = built.push(p);
            assert(c@.take(slot + 1) =~= was.take(slot as int).push(p));
            assert(c@.take(slot + 1) =~= head + built);
        }
        slot = slot + 1;
    }
    proof {
        assert(hidden::reveals(m, 0) =~= seq![Seq::<u8>::empty()]);
        assert(built + Seq::<u8>::empty() =~= built);
        assert(c@.take(4) =~= c@);
    }
    c
}

/// List all ways to go on from the first `idx` reveals of `base`.
pub fn enumerate_reveals(
    base: [Piece; 4],
    idx: usize,
    upto: usize,
    mask: u8,
    out: &mut Vec<[Piece; 4]>,
)
    requires
        idx <= upto <= 4,
        piece::bag(mask),
    ensures
        views(final(out)@) == views(old(out)@) + completions(
            base@.take(idx as int),
            mask,
            upto as nat,
        ),
    decreases upto - idx,
{
    let ghost seen = base@.take(idx as int);
    let ghost before = views(out@);
    if idx >= upto {
        let c = fill(base, upto, mask);
        out.push(c);
        proof {
            assert(hidden::reveals(mask, 0) =~= seq![Seq::<u8>::empty()]);
            let all = completions(seen, mask, upto as nat);
            assert(seen + Seq::<u8>::empty() =~= seen);
            assert(all =~= seq![c@]);
            assert(views(out@) =~= before + all);
        }
        return;
    }
    let ghost n = (upto - idx) as nat;
    let mut p: u8 = 0;
    assert(views(out@) =~= before + completed(
        seen,
        mask,
        hidden::branches(mask, n, 0),
        upto as nat,
    ));
    while p < 7
        invariant
            p <= 7,
            idx < upto <= 4,
            n == upto - idx,
            piece::bag(mask),
            seen == base@.take(idx as int),
            views(out@) == before + completed(
                seen,
                mask,
                hidden::branches(mask, n, p as nat),
                upto as nat,
            ),
        decreases 7 - p,
    {
        if has(mask, p) {
            let mut b: [Piece; 4] = base;
            b[idx] = p;
            let next: u8 = after_reveal(mask, p);
            let ghost was = views(out@);
            proof {
                piece::lemma_after(mask, p);
                assert(b@.take(idx + 1) =~= seen.push(p));
            }
            enumerate_reveals(b, idx + 1, upto, next, out);
            proof {
                let tails = hidden::reveals(next, (n - 1) as nat);
                let more = completed(seen.push(p), next, tails, upto as nat);
                let list = hidden::prefixed(p, tails);
                assert forall|i: int| 0 <= i < tails.len() implies #[trigger] more[i] == completion(
                    seen,
                    mask,
                    list[i],
                    upto as nat,
                ) by {
                    assert(list[i] == seq![p] + tails[i]);
                    assert(list[i].drop_first() =~= tails[i]);
                    assert(seen.push(p) + tails[i] =~= seen + list[i]);
                }
                assert(views(out@) =~= before + completed(
                    seen,
                    mask,
                    hidden::branches(mask, n, (p + 1) as nat),
                    upto as nat,
                ));
            }
        }
        p = p + 1;
    }
}

/// Every way to go on is allowed by the bag and starts with what was seen.
pub proof fn lemma_completions(seen: Seq<u8>, first: u8, upto: nat, i: int)
    requires
        piece::bag(first),
        hidden::legal(first, seen),
        seen.len() <= upto <= 4,
        0 <= i < completions(seen, hidden::bag_after(first, seen), upto).len(),
    ensures
        completions(seen, hidden::bag_after(first, seen), upto)[i].len() == 4,
        hidden::legal(first, completions(seen, hidden::bag_after(first, seen), upto)[i]),
        completions(seen, hidden::bag_after(first, seen), upto)[i].take(seen.len() as int) == seen,
{
    let mask = hidden::bag_after(first, seen);
    let n = (upto - seen.len()) as nat;
    let s = hidden::reveals(mask, n)[i];
    hidden::lemma_small(first, seen);
    hidden::lemma_bag_after(first, seen);
    hidden::lemma_reveals_legal(mask, n, i);
    hidden::lemma_small(mask, s);
    hidden::lemma_bag_after(mask, s);
    let bag = hidden::bag_after(mask, s);
    hidden::lemma_reveals_some(bag, (4 - upto) as nat);
    hidden::lemma_reveals_legal(bag, (4 - upto) as nat, 0);
    let f = filler(bag, (4 - upto) as nat);
    let c = seen + s + f;
    let front = seen + s;
    assert(front.take(seen.len() as int) =~= seen);
    assert(front.skip(seen.len() as int) =~= s);
    hidden::lemma_split(first, front, seen.len() as int);
    assert(c.take(front.len() as int) =~= front);
    assert(c.skip(front.len() as int) =~= f);
    hidden::lemma_split(first, c, front.len() as int);
    assert(c.take(seen.len() as int) =~= seen);
}

/// There is always a way to go on.
pub proof fn lemma_completions_some(seen: Seq<u8>, mask: u8, upto: nat)
    requires
        piece::bag(mask),
        seen.len() <= upto,
    ensures
        completions(seen, mask, upto).len() >= 1,
{
    hidden::lemma_reveals_some(mask, (upto - seen.len()) as nat);
}

/* ---- means over the ways to go on ---- */

/// There is something to hope for under the reveals.
pub open spec fn hopeful(g: Game, k: NodeKey, h: Seq<u8>) -> bool {
    analysis::ending(k, analysis::all_cands(g, k, h)) == 0
}

/// The sum and the number of the scores of placement `e` over the first `n` ways to go on.
pub open spec fn tally(g: Game, k: NodeKey, ways: Seq<Seq<u8>>, e: int, n: nat) -> (u64, nat)
    decreases n,
{
    if n == 0 {
        (0, 0)
    } else {
        let t = tally(g, k, ways, e, (n - 1) as nat);
        let h = ways[n - 1];
        if hopeful(g, k, h) && analysis::agrees(g, k, e, h) {
            ((g.calc)(Op::Plus(t.0, analysis::cand_at(g, k, e, h).score)), t.1 + 1)
        } else {
            t
        }
    }
}

/// How many ways to go on placement `e` was scored over.
pub open spec fn scored(g: Game, k: NodeKey, ways: Seq<Seq<u8>>, e: int) -> nat {
    tally(g, k, ways, e, ways.len()).1
}

/// The mean score of placement `e`.
pub open spec fn mean_score(g: Game, k: NodeKey, ways: Seq<Seq<u8>>, e: int) -> u64 {
    let t = tally(g, k, ways, e, ways.len());
    (g.calc)(Op::Over(t.0, t.1 as u64))
}

/// The first of the highest means among the first `n` placements.
pub open spec fn pick(g: Game, k: NodeKey, ways: Seq<Seq<u8>>, n: nat) -> Option<int>
    decreases n,
{
    if n == 0 {
        None
    } else {
        let b = pick(g, k, ways, (n - 1) as nat);
        let e = n - 1;
        if scored(g, k, ways, e) == 0 {
            b
        } else {
            match b {
                None => Some(e),
                Some(x) => if score::exceeds(
                    mean_score(g, k, ways, e),
                    mean_score(g, k, ways, x),
                ) {
                    Some(e)
                } else {
                    b
                },
            }
        }
    }
}

/// Some way to go on leaves something to hope for.
pub open spec fn any_hope(g: Game, k: NodeKey, ways: Seq<Seq<u8>>) -> bool {
    exists|i: int| 0 <= i < ways.len() && hopeful(g, k, #[trigger] ways[i])
}

/// The placement that is chosen.
#[derive(Clone, Copy, Debug)]
pub struct Choice {
    pub edge: usize,
    pub placed: Piece,
    pub field_after: u64,
}

/// What is chosen at a position over the ways to go on.
pub open spec fn chosen(g: Game, k: NodeKey, ways: Seq<Seq<u8>>) -> Option<Choice> {
    match pick(g, k, ways, game::live_children(g, k).len()) {
        Some(e) => Some(
            Choice {
                edge: e as usize,
                placed: analysis::cand_at(g, k, e, ways[0]).placed,
                field_after: game::live_children(g, k)[e].field,
            },
        ),
        None => None,
    }
}

/// No placement has a higher mean than the one that is picked.
pub proof fn law_pick_is_best(g: Game, k: NodeKey, ways: Seq<Seq<u8>>, n: nat, e: int)
    requires
        0 <= e < n,
        scored(g, k, ways, e) > 0,
        forall|x: int| 0 <= x < n ==> !score::is_nan(#[trigger] mean_score(g, k, ways, x)),
    ensures
        pick(g, k, ways, n) is Some,
        !score::exceeds(
            mean_score(g, k, ways, e),
            mean_score(g, k, ways, pick(g, k, ways, n)->0),
        ),
    decreases n,
{
    lemma_pick(g, k, ways, (n - 1) as nat);
    if e < n - 1 {
        law_pick_is_best(g, k, ways, (n - 1) as nat, e);
    }
}

/// What is picked was scored.
pub proof fn lemma_pick(g: Game, k: NodeKey, ways: Seq<Seq<u8>>, n: nat)
    ensures
        pick(g, k, ways, n) matches Some(e) ==> 0 <= e < n && scored(g, k, ways, e) > 0,
    decreases n,
{
    if n > 0 {
        lemma_pick(g, k, ways, (n - 1) as nat);
    }
}

/// Placements that were never scored are not picked.
proof fn lemma_pick_bound(g: Game, k: NodeKey, ways: Seq<Seq<u8>>, m: nat, n: nat)
    requires
        m <= n,
        forall|e: int| m <= e < n ==> #[trigger] scored(g, k, ways, e) == 0,
    ensures
        pick(g, k, ways, n) == pick(g, k, ways, m),
    decreases n,
{
    if m < n {
        lemma_pick_bound(g, k, ways, m, (n - 1) as nat);
        assert(scored(g, k, ways, n - 1) == 0);
    }
}

proof fn lemma_tally_count(g: Game, k: NodeKey, ways: Seq<Seq<u8>>, e: int, n: nat)
    ensures
        tally(g, k, ways, e, n).1 <= n,
    decreases n,
{
    if n > 0 {
        lemma_tally_count(g, k, ways, e, (n - 1) as nat);
    }
}

/// Where there is hope, some placement was scored.
proof fn lemma_hope_scores(g: Game, k: NodeKey, ways: Seq<Seq<u8>>, i: int) -> (e: int)
    requires
        0 <= i < ways.len(),
        hopeful(g, k, ways[i]),
    ensures
        0 <= e < game::live_children(g, k).len(),
        scored(g, k, ways, e) > 0,
{
    let h = ways[i];
    let n = game::live_children(g, k).len();
    let list = analysis::all_cands(g, k, h);
    analysis::lemma_cands_hold(g, k, h, n);
    assert(list.len() > 0);
    assert(analysis::stems(g, k, h, n, list[0]));
    let e = choose|e: int|
        0 <= e < n && #[trigger] analysis::agrees(g, k, e, h) && list[0] == analysis::cand_at(
            g,
            k,
            e,
            h,
        );
    lemma_tally_grows(g, k, ways, e, (i + 1) as nat, ways.len());
    e
}

proof fn lemma_tally_grows(g: Game, k: NodeKey, ways: Seq<Seq<u8>>, e: int, m: nat, n: nat)
    requires
        m <= n,
    ensures
        tally(g, k, ways, e, m).1 <= tally(g, k, ways, e, n).1,
    decreases n,
{
    if m < n {
        lemma_tally_grows(g, k, ways, e, m, (n - 1) as nat);
    }
}

/// Without hope, nothing was scored.
proof fn lemma_no_hope(g: Game, k: NodeKey, ways: Seq<Seq<u8>>, e: int, n: nat)
    requires
        n <= ways.len(),
        forall|i: int| 0 <= i < n ==> !hopeful(g, k, #[trigger] ways[i]),
    ensures
        tally(g, k, ways, e, n) == (0u64, 0nat),
    decreases n,
{
    if n > 0 {
        lemma_no_hope(g, k, ways, e, (n - 1) as nat);
        assert(!hopeful(g, k, ways[n - 1]));
    }
}

/// Something is chosen exactly where there is hope.
pub proof fn law_chosen_where_hope(g: Game, k: NodeKey, ways: Seq<Seq<u8>>)
    ensures
        chosen(g, k, ways) is Some <==> any_hope(g, k, ways),
{
    let n = game::live_children(g, k).len();
    if any_hope(g, k, ways) {
        let i = choose|i: int| 0 <= i < ways.len() && hopeful(g, k, #[trigger] ways[i]);
        let e = lemma_hope_scores(g, k, ways, i);
        lemma_scored_picked(g, k, ways, n, e);
    } else {
        assert forall|e: int| 0 <= e < n implies #[trigger] scored(g, k, ways, e) == 0 by {
            lemma_no_hope(g, k, ways, e, ways.len());
        }
        lemma_pick_bound(g, k, ways, 0, n);
    }
}

proof fn lemma_scored_picked(g: Game, k: NodeKey, ways: Seq<Seq<u8>>, n: nat, e: int)
    requires
        0 <= e < n,
        scored(g, k, ways, e) > 0,
    ensures
        pick(g, k, ways, n) is Some,
    decreases n,
{
    if e < n - 1 {
        lemma_scored_picked(g, k, ways, (n - 1) as nat, e);
    }
}

/* ---- what is averaged ---- */

/// The ways to go on under which placement `e` is scored: there is hope, and the placement agrees
/// with the reveals.
pub open spec fn scoring_ways(g: Game, k: NodeKey, ways: Seq<Seq<u8>>, e: int) -> Seq<Seq<u8>> {
    ways.filter(|h: Seq<u8>| hopeful(g, k, h) && analysis::agrees(g, k, e, h))
}

/// Its scores under them.
pub open spec fn scores(g: Game, k: NodeKey, ways: Seq<Seq<u8>>, e: int) -> Seq<u64> {
    scoring_ways(g, k, ways, e).map_values(|h: Seq<u8>| analysis::cand_at(g, k, e, h).score)
}

/// The mean of its scores.
pub open spec fn mean_of(g: Game, k: NodeKey, ways: Seq<Seq<u8>>, e: int) -> u64 {
    score::average(g.calc, scores(g, k, ways, e))
}

/// All means of the first `n` placements that were scored are numbers.
pub open spec fn means_are_numbers(g: Game, k: NodeKey, ways: Seq<Seq<u8>>, n: nat) -> bool {
    forall|x: int|
        0 <= x < n && scores(g, k, ways, x).len() > 0 ==> !score::is_nan(
            #[trigger] mean_of(g, k, ways, x),
        )
}

proof fn lemma_tally_is_total(g: Game, k: NodeKey, ways: Seq<Seq<u8>>, e: int, n: nat)
    requires
        n <= ways.len(),
    ensures
        tally(g, k, ways, e, n).0 == score::total(g.calc, scores(g, k, ways.take(n as int), e)),
        tally(g, k, ways, e, n).1 == scores(g, k, ways.take(n as int), e).len(),
    decreases n,
{
    reveal(Seq::filter);
    if n == 0 {
        assert(ways.take(0) =~= Seq::<Seq<u8>>::empty());
        assert(scores(g, k, ways.take(0), e) =~= Seq::<u64>::empty());
    } else {
        let was = ways.take(n - 1);
        let now = ways.take(n as int);
        lemma_tally_is_total(g, k, ways, e, (n - 1) as nat);
        assert(now.drop_last() =~= was);
        assert(now.last() == ways[n - 1]);
        if hopeful(g, k, ways[n - 1]) && analysis::agrees(g, k, e, ways[n - 1]) {
            assert(scoring_ways(g, k, now, e) =~= scoring_ways(g, k, was, e).push(ways[n - 1]));
            assert(scores(g, k, now, e).drop_last() =~= scores(g, k, was, e));
            assert(scores(g, k, now, e).last() == analysis::cand_at(g, k, e, ways[n - 1]).score);
        } else {
            assert(scoring_ways(g, k, now, e) =~= scoring_ways(g, k, was, e));
        }
    }
}

/// Placements are compared by the mean of their scores over all ways to go on that leave hope and
/// that they agree with.
pub proof fn law_mean_is_over_all_ways(g: Game, k: NodeKey, ways: Seq<Seq<u8>>, e: int)
    ensures
        scored(g, k, ways, e) == scores(g, k, ways, e).len(),
        scored(g, k, ways, e) > 0 ==> mean_score(g, k, ways, e) == mean_of(g, k, ways, e),
{
    lemma_tally_is_total(g, k, ways, e, ways.len());
    assert(ways.take(ways.len() as int) =~= ways);
}

/// The choice has the highest mean: of all placements with scores, none has a higher mean, and those
/// before it have lower ones.
pub proof fn law_choice_has_the_highest_mean(g: Game, k: NodeKey, ways: Seq<Seq<u8>>, e: int)
    requires
        0 <= e < game::live_children(g, k).len() <= usize::MAX,
        scores(g, k, ways, e).len() > 0,
        means_are_numbers(g, k, ways, game::live_children(g, k).len()),
    ensures
        chosen(g, k, ways) matches Some(c) && {
            &&& c.edge < game::live_children(g, k).len()
            &&& scores(g, k, ways, c.edge as int).len() > 0
            &&& c.field_after == game::live_children(g, k)[c.edge as int].field
            &&& !score::exceeds(
                mean_of(g, k, ways, e),
                mean_of(g, k, ways, c.edge as int),
            )
            &&& e < c.edge ==> score::exceeds(
                mean_of(g, k, ways, c.edge as int),
                mean_of(g, k, ways, e),
            )
        },
{
    let n = game::live_children(g, k).len();
    law_mean_is_over_all_ways(g, k, ways, e);
    lemma_pick(g, k, ways, n);
    lemma_pick_tops(g, k, ways, n, e);
    let x = pick(g, k, ways, n)->0;
    law_mean_is_over_all_ways(g, k, ways, x);
}

proof fn lemma_pick_tops(g: Game, k: NodeKey, ways: Seq<Seq<u8>>, n: nat, e: int)
    requires
        0 <= e < n,
        scored(g, k, ways, e) > 0,
        means_are_numbers(g, k, ways, n),
    ensures
        pick(g, k, ways, n) is Some,
        !score::exceeds(
            mean_score(g, k, ways, e),
            mean_score(g, k, ways, pick(g, k, ways, n)->0),
        ),
        e < pick(g, k, ways, n)->0 ==> score::exceeds(
            mean_score(g, k, ways, pick(g, k, ways, n)->0),
            mean_score(g, k, ways, e),
        ),
    decreases n,
{
    lemma_pick(g, k, ways, n);
    lemma_pick(g, k, ways, (n - 1) as nat);
    assert forall|x: int| 0 <= x < n && scored(g, k, ways, x) > 0 implies !score::is_nan(
        #[trigger] mean_score(g, k, ways, x),
    ) by {
        law_mean_is_over_all_ways(g, k, ways, x);
        assert(!score::is_nan(mean_of(g, k, ways, x)));
    }
    if e < n - 1 {
        lemma_pick_tops(g, k, ways, (n - 1) as nat, e);
    }
}

/// What stays open is filled in every way that the bag allows, and in no way twice: the ways to go on
/// and the sequences that the bag can reveal after `seen` stand for each other.
pub proof fn law_ways_are_what_the_bag_allows(first: u8, seen: Seq<u8>, upto: nat)
    requires
        piece::bag(first),
        hidden::legal(first, seen),
        seen.len() <= upto <= 4,
    ensures
        forall|i: int|
            0 <= i < completions(seen, hidden::bag_after(first, seen), upto).len() ==> {
                let w = #[trigger] completions(seen, hidden::bag_after(first, seen), upto)[i];
                &&& w.len() == 4
                &&& hidden::legal(first, w)
                &&& w.take(seen.len() as int) == seen
            },
        forall|s: Seq<u8>| #[trigger]
            hidden::legal(first, s) && s.len() == upto && s.take(seen.len() as int) == seen
                ==> exists|i: int|
                0 <= i < completions(seen, hidden::bag_after(first, seen), upto).len()
                    && (#[trigger] completions(
                    seen,
                    hidden::bag_after(first, seen),
                    upto,
                )[i]).take(upto as int) == s,
        forall|i: int, j: int|
            0 <= i < j < completions(seen, hidden::bag_after(first, seen), upto).len() ==> (
            #[trigger] completions(seen, hidden::bag_after(first, seen), upto)[i]).take(upto as int)
                != (#[trigger] completions(seen, hidden::bag_after(first, seen), upto)[j]).take(
                upto as int,
            ),
{
    let mask = hidden::bag_after(first, seen);
    let n = (upto - seen.len()) as nat;
    let list = hidden::reveals(mask, n);
    let all = completions(seen, mask, upto);
    hidden::lemma_small(first, seen);
    hidden::lemma_bag_after(first, seen);
    assert forall|i: int| 0 <= i < all.len() implies (#[trigger] all[i]).take(upto as int) == seen
        + list[i] && all[i].len() == 4 && hidden::legal(first, all[i]) && all[i].take(
        seen.len() as int,
    ) == seen by {
        lemma_completions(seen, first, upto, i);
        hidden::lemma_reveals_legal(mask, n, i);
        assert(all[i].take(upto as int) =~= seen + list[i]);
    }
    assert forall|s: Seq<u8>| #[trigger]
        hidden::legal(first, s) && s.len() == upto && s.take(seen.len() as int)
            == seen implies exists|i: int|
        0 <= i < all.len() && (#[trigger] all[i]).take(upto as int) == s by {
        hidden::lemma_split(first, s, seen.len() as int);
        let rest = s.skip(seen.len() as int);
        hidden::lemma_rank(mask, rest);
        let i = hidden::rank(mask, rest) as int;
        assert(seen + rest =~= s);
        assert(all[i].take(upto as int) == s);
    }
    assert forall|i: int, j: int| 0 <= i < j < all.len() implies (#[trigger] all[i]).take(
        upto as int,
    ) != (#[trigger] all[j]).take(upto as int) by {
        hidden::lemma_reveals_legal(mask, n, i);
        hidden::lemma_reveals_legal(mask, n, j);
        if seen + list[i] == seen + list[j] {
            assert((seen + list[i]).skip(seen.len() as int) =~= list[i]);
            assert((seen + list[j]).skip(seen.len() as int) =~= list[j]);
        }
    }
}

/// The running sum of a placement.
#[derive(Clone, Copy, Debug)]
pub struct Tally {
    pub sum: u64,
    pub count: u64,
    pub placed: Piece,
    pub field: u64,
}

/// The entry of placement `e` is right.
spec fn entry_ok(
    g: Game,
    k: NodeKey,
    ways: Seq<Seq<u8>>,
    agg: Table<Tally>,
    e: int,
    t: (u64, nat),
) -> bool {
    &&& agg@.dom().contains(e as u64) <==> t.1 > 0
    &&& t.1 > 0 ==> agg@[e as u64].sum == t.0 && agg@[e as u64].count == t.1
        && agg@[e as u64].placed == analysis::cand_at(g, k, e, ways[0]).placed
        && agg@[e as u64].field == game::live_children(g, k)[e].field
}

/// All entries are right after `n` ways to go on; beyond `bound` there is none.
spec fn agg_ok(
    g: Game,
    k: NodeKey,
    ways: Seq<Seq<u8>>,
    agg: Table<Tally>,
    n: nat,
    bound: int,
) -> bool {
    &&& agg.wf()
    &&& forall|e: int|
        0 <= e < game::live_children(g, k).len() ==> entry_ok(
            g,
            k,
            ways,
            agg,
            e,
            #[trigger] tally(g, k, ways, e, n),
        )
    &&& forall|w: u64| #[trigger] agg@.dom().contains(w) ==> w < bound
    &&& bound <= game::live_children(g, k).len()
}

/// What is common to all ways to go on: the bag allows them, and the piece that is due is the same.
pub open spec fn ways_ok(g: Game, k: NodeKey, ways: Seq<Seq<u8>>) -> bool {
    &&& ways.len() > 0
    &&& forall|i: int|
        0 <= i < ways.len() ==> (#[trigger] ways[i]).len() == 4 && hidden::legal(g.mask, ways[i])
            && analysis::due(g.visible, ways[i], k.depth as int) == analysis::due(
            g.visible,
            ways[0],
            k.depth as int,
        )
}

/// The entry of placement `e` is right when the first `j` candidates under way `n` were added.
spec fn midway(
    g: Game,
    k: NodeKey,
    ways: Seq<Seq<u8>>,
    agg: Table<Tally>,
    cands: Seq<AnalysisCand>,
    j: int,
    n: nat,
    e: int,
) -> bool {
    entry_ok(
        g,
        k,
        ways,
        agg,
        e,
        if analysis::has_edge(cands, j, e) {
            tally(g, k, ways, e, n + 1)
        } else {
            tally(g, k, ways, e, n)
        },
    )
}

/// Add the scores of the candidates under way `n` to the entries.
fn add_scores<F: Fn(Op) -> u64>(
    agg: &mut Table<Tally>,
    bound: usize,
    cands: &Vec<AnalysisCand>,
    calc: &F,
    Ghost(g): Ghost<Game>,
    Ghost(k): Ghost<NodeKey>,
    Ghost(ways): Ghost<Seq<Seq<u8>>>,
    Ghost(n): Ghost<nat>,
) -> (r: usize)
    requires
        score::answers(*calc),
        score::arith(*calc) == g.calc,
        game::live_children(g, k).len() <= usize::MAX,
        ways.len() <= usize::MAX,
        n < ways.len(),
        ways_ok(g, k, ways),
        hopeful(g, k, ways[n as int]),
        analysis::same_cands(cands@, analysis::flagged(analysis::all_cands(g, k, ways[n as int]))),
        agg_ok(g, k, ways, *old(agg), n, bound as int),
    ensures
        agg_ok(g, k, ways, *final(agg), n + 1, r as int),
{
    let ghost h = ways[n as int];
    let ghost live = game::live_children(g, k);
    proof {
        analysis::lemma_ranked_list(g, k, h, cands@);
        assert(h.len() == 4);
        assert forall|e: int| 0 <= e < live.len() implies #[trigger] midway(
            g,
            k,
            ways,
            *agg,
            cands@,
            0,
            n,
            e,
        ) by {
            assert(entry_ok(g, k, ways, *agg, e, tally(g, k, ways, e, n)));
        }
    }
    let mut bound: usize = bound;
    let mut j: usize = 0;
    while j < cands.len()
        invariant
            j <= cands@.len(),
            score::answers(*calc),
            score::arith(*calc) == g.calc,
            live == game::live_children(g, k),
            live.len() <= usize::MAX,
            ways.len() <= usize::MAX,
            n < ways.len(),
            h == ways[n as int],
            ways_ok(g, k, ways),
            hopeful(g, k, h),
            forall|i: int|
                0 <= i < cands@.len() ==> (#[trigger] cands@[i]).edge < live.len()
                    && analysis::agrees(g, k, cands@[i].edge as int, h) && analysis::is_cand(
                    g,
                    k,
                    cands@[i].edge as int,
                    h,
                    cands@[i],
                ),
            forall|x: int, y: int|
                0 <= x < cands@.len() && 0 <= y < cands@.len() && cands@[x].edge == cands@[y].edge
                    ==> x == y,
            agg.wf(),
            forall|e: int|
                0 <= e < live.len() ==> #[trigger] midway(g, k, ways, *agg, cands@, j as int, n, e),
            forall|w: u64| #[trigger] agg@.dom().contains(w) ==> w < bound,
            bound <= live.len(),
        decreases cands@.len() - j,
    {
        let c: AnalysisCand = cands[j];
        let ghost was = *agg;
        let ghost e0 = c.edge as int;
        proof {
            assert(analysis::is_cand(g, k, cands@[j as int].edge as int, h, cands@[j as int]));
            assert(!analysis::has_edge(cands@, j as int, e0)) by {
                if analysis::has_edge(cands@, j as int, e0) {
                    let i = choose|i: int| 0 <= i < j && (#[trigger] cands@[i]).edge == e0;
                    assert(cands@[i].edge == cands@[j as int].edge);
                }
            }
            assert(midway(g, k, ways, *agg, cands@, j as int, n, e0));
            lemma_tally_count(g, k, ways, e0, n);
            assert(analysis::due(g.visible, h, k.depth as int) == analysis::due(
                g.visible,
                ways[0],
                k.depth as int,
            ));
        }
        let t: Tally = match agg.get(c.edge as u64) {
            Some(t) => *t,
            None => Tally { sum: 0, count: 0, placed: c.placed, field: c.field_after },
        };
        proof {
            if tally(g, k, ways, e0, n).1 == 0 {
                lemma_zero_sum(g, k, ways, e0, n);
            }
        }
        let sum: u64 = ask(calc, Op::Plus(t.sum, c.score));
        agg.insert(
            c.edge as u64,
            Tally { sum, count: t.count + 1, placed: t.placed, field: t.field },
        );
        if c.edge >= bound {
            bound = c.edge + 1;
        }
        proof {
            assert forall|e: int| 0 <= e < live.len() implies #[trigger] midway(g, k, ways, *agg, cands@, j + 1, n, e) by {
                if e == e0 {
                    assert(cands@[j as int].edge == e);
                    assert(analysis::has_edge(cands@, j + 1, e));
                } else {
                    assert(midway(g, k, ways, was, cands@, j as int, n, e));
                    if analysis::has_edge(cands@, j as int, e) {
                        let i = choose|i: int| 0 <= i < j && (#[trigger] cands@[i]).edge == e;
                        assert(cands@[i].edge == e);
                    }
                    assert(analysis::has_edge(cands@, j + 1, e) == analysis::has_edge(
                        cands@,
                        j as int,
                        e,
                    )) by {
                        if analysis::has_edge(cands@, j + 1, e) {
                            let i = choose|i: int|
                                0 <= i < j + 1 && (#[trigger] cands@[i]).edge == e;
                            assert(i < j);
                            assert(cands@[i].edge == e);
                        }
                    }
                }
            }
        }
        j = j + 1;
    }
    proof {
        assert forall|e: int| 0 <= e < live.len() implies entry_ok(
            g,
            k,
            ways,
            *agg,
            e,
            #[trigger] tally(g, k, ways, e, n + 1),
        ) by {
            assert(midway(g, k, ways, *agg, cands@, cands@.len() as int, n, e));
            if !analysis::has_edge(cands@, cands@.len() as int, e) {
                assert(!analysis::agrees(g, k, e, h));
            }
        }
    }
    bound
}

/// What was never scored has no sum.
proof fn lemma_zero_sum(g: Game, k: NodeKey, ways: Seq<Seq<u8>>, e: int, n: nat)
    requires
        tally(g, k, ways, e, n).1 == 0,
    ensures
        tally(g, k, ways, e, n).0 == 0,
    decreases n,
{
    if n > 0 {
        lemma_zero_sum(g, k, ways, e, (n - 1) as nat);
    }
}

/// The placement that is chosen over all ways to go on.
pub(crate) fn choose_edge<F: Fn(Op) -> u64>(
    vs: &VsResult<F>,
    path: &Vec<usize>,
    ways: &Vec<[Piece; 4]>,
    Ghost(k): Ghost<NodeKey>,
) -> (r: Option<Choice>)
    requires
        vs.wf(),
        game::alive(vs.game(), vs.game().root()),
        analysis::walked(vs.game(), vs.game().root(), path@) == Some(k),
        ways_ok(vs.game(), k, views(ways@)),
    ensures
        r == chosen(vs.game(), k, views(ways@)),
        game::live_children(vs.game(), k).len() <= usize::MAX,
{
    let ghost g = vs.game();
    let ghost all = views(ways@);
    let ghost live = game::live_children(g, k);
    let calc = &vs.retained.calc;
    let mut agg: Table<Tally> = Table::new();
    let mut bound: usize = 0;
    let total: usize = ways.len();
    let mut n: usize = 0;
    proof {
        assert forall|e: int| 0 <= e < live.len() implies entry_ok(
            g,
            k,
            all,
            agg,
            e,
            #[trigger] tally(g, k, all, e, 0),
        ) by {}
    }
    while n < total
        invariant
            n <= total,
            total == ways@.len(),
            vs.wf(),
            g == vs.game(),
            calc == vs.retained.calc,
            all == views(ways@),
            live == game::live_children(g, k),
            game::alive(g, g.root()),
            analysis::walked(g, g.root(), path@) == Some(k),
            ways_ok(g, k, all),
            agg_ok(g, k, all, agg, n as nat, bound as int),
            n > 0 ==> live.len() <= usize::MAX,
        decreases total - n,
    {
        let h: [Piece; 4] = ways[n];
        proof {
            assert(all[n as int] == h@);
            assert(all[n as int].len() == 4);
            hidden::lemma_small(g.mask, h@);
            analysis::lemma_walked_trail(g, g.root(), path@, h@);
        }
        let node = vs.analyze(path.as_slice(), h);
        if node.terminal == 0 {
            bound = add_scores(
                &mut agg,
                bound,
                &node.cands,
                calc,
                Ghost(g),
                Ghost(k),
                Ghost(all),
                Ghost(n as nat),
            );
            assert(agg_ok(g, k, all, agg, (n + 1) as nat, bound as int));
        } else {
            proof {
                assert forall|e: int| 0 <= e < live.len() implies entry_ok(
                    g,
                    k,
                    all,
                    agg,
                    e,
                    #[trigger] tally(g, k, all, e, (n + 1) as nat),
                ) by {
                    assert(entry_ok(g, k, all, agg, e, tally(g, k, all, e, n as nat)));
                    assert(!hopeful(g, k, all[n as int]));
                }
                assert(agg_ok(g, k, all, agg, (n + 1) as nat, bound as int));
            }
        }
        n = n + 1;
    }
    let mut best: Option<usize> = None;
    let mut best_mean: u64 = 0;
    let mut e: usize = 0;
    while e < bound
        invariant
            e <= bound,
            g == vs.game(),
            vs.wf(),
            calc == vs.retained.calc,
            live == game::live_children(g, k),
            all.len() <= usize::MAX,
            agg_ok(g, k, all, agg, all.len(), bound as int),
            best is Some <==> pick(g, k, all, e as nat) is Some,
            best is Some ==> best->0 == pick(g, k, all, e as nat)->0 && best->0 < e && best_mean
                == mean_score(g, k, all, best->0 as int),
        decreases bound - e,
    {
        proof {
            assert(entry_ok(g, k, all, agg, e as int, tally(g, k, all, e as int, all.len())));
        }
        if let Some(t) = agg.get(e as u64) {
            let m: u64 = ask(calc, Op::Over(t.sum, t.count));
            assert(m == mean_score(g, k, all, e as int));
            let better: bool = match best {
                Some(_) => greater(m, best_mean),
                None => true,
            };
            if better {
                best = Some(e);
                best_mean = m;
            }
        }
        e = e + 1;
    }
    proof {
        assert forall|x: int| bound <= x < live.len() implies #[trigger] scored(g, k, all, x) == 0 by {
            assert(entry_ok(g, k, all, agg, x, tally(g, k, all, x, all.len())));
            if live.len() <= usize::MAX {
                assert(!agg@.dom().contains(x as u64));
            }
        }
        lemma_pick_bound(g, k, all, bound as nat, live.len());
    }
    match best {
        Some(b) => {
            proof {
                lemma_pick(g, k, all, bound as nat);
                assert(entry_ok(g, k, all, agg, b as int, tally(g, k, all, b as int, all.len())));
            }
            match agg.get(b as u64) {
                Some(t) => Some(Choice { edge: b, placed: t.placed, field_after: t.field }),
                None => None,
            }
        },
        None => None,
    }
}

/* ---- hope ---- */

/// There is hope under the reveals exactly where the position is worth something under them.
pub proof fn law_hope_is_worth(g: Game, k: NodeKey, h: Seq<u8>)
    requires
        g.ok(),
        score::all_fair(g.calc),
        g.fits(k),
        k.depth < 10,
        !game::two_lines(k),
        analysis::in_step(g, k, h),
    ensures
        k.depth >= 4 ==> (hopeful(g, k, h) <==> game::worth(
            g,
            game::left_of(k),
            k,
            analysis::ahead(k, h),
        ) != 0),
        k.depth < 4 ==> (hopeful(g, k, h) <==> score::or_nothing(
            game::expected(g, game::left_of(k), k, h.take(k.depth as int)),
        ) != 0),
{
    let list = analysis::all_cands(g, k, h);
    analysis::lemma_top(list);
    if k.depth >= 4 {
        analysis::law_best_late_score_is_worth(g, k, h);
    } else {
        hidden::lemma_split(g.mask, h, k.depth as int);
        analysis::law_best_early_score_is_expected(g, k, h);
    }
}

} // verus!
