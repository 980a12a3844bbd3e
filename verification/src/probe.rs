//! Playing a solved loop to its end under given reveals, always with the placement that ranks first.

use vstd::prelude::*;
use crate::analysis;
use crate::analysis::{bag_first, AnalysisCand};
use crate::bot;
use crate::bytes;
use crate::bytes::{has_magic, read_little};
use crate::choice;
use crate::choice::fill;
use crate::game;
use crate::game::{Game, NodeKey};
use crate::hidden;
use crate::moves::FilteredMoves;
use crate::piece;
use crate::piece::Piece;
use crate::proj;
use crate::proj::ProjFilter;
use crate::score;
use crate::score::Op;
use crate::value_search;
use crate::value_search::{value_search, SearchInput, VsResult};
use crate::values::{ResetEval, ValueTable};

verus! {

/// Where a walk ends with nothing left to hope for.
#[derive(Clone, Copy, Debug, PartialEq, Eq, Structural)]
pub struct DeadEnd {
    pub depth: u8,
    pub field: u64,
    pub hold: Piece,
    pub active: Piece,
    pub best_score: u64,
    /// How many placements there are.
    pub cands: usize,
}

/// Solve a loop.
pub fn build<F: Fn(Op) -> u64>(
    proj: &ProjFilter,
    table: &ValueTable,
    calc: F,
    hold: Piece,
    visible: [Piece; 6],
    mask: u8,
) -> (r: VsResult<F>)
    requires
        proj.wf(),
        score::answers(calc),
        hold < 7,
        forall|i: int| 0 <= i < 6 ==> visible@[i] < 7,
    ensures
        r.wf(),
        r.game() == (Game {
            hold,
            visible: visible@,
            mask: hidden::canonical(mask),
            kids: bot::moves_of(*proj),
            book: Some(table@),
            calc: score::arith(calc),
        }),
        r.root_value == game::game_value(r.game()),
        r.missing_keys == crate::values::tallied(
            0,
            value_search::lacking_from(r.game(), r.kept(), |h: u8, m: u8| false, 0),
        ),
        exists|keys: Seq<NodeKey>|
            r.nodes_total == keys.len() && #[trigger] value_search::lists_positions(
                r.game(),
                keys,
            ),
        r.nodes_pruned == r.kept().len(),
        value_search::lists_live_positions(r.game(), r.kept()),
        r.leaf_count == hidden::reveals(hidden::canonical(mask), 4).len(),
        r.retained.calc == calc,
{
    let reset = ResetEval::new(Some(table), calc);
    let input = SearchInput { hold, visible, mask, reset };
    let mut edges = FilteredMoves::new(proj);
    let ghost made = value_search::game_of(input, edges);
    let r = value_search(input, &mut edges);
    proof {
        assert(made.kids =~= bot::moves_of(*proj));
        assert((|h: u8, m: u8| input.reset.knows(h, m)) =~= (|h: u8, m: u8| false));
    }
    r
}

/* ---- walks ---- */

/// What is known of the reveals after `n` placements: one for each of them, then the first way in
/// which the bag can go on.
pub open spec fn in_sight(g: Game, reveals: Seq<u8>, n: int) -> Seq<u8> {
    let seen = reveals.take(
        if n < 4 {
            n
        } else {
            4
        },
    );
    seen + choice::filler(hidden::bag_after(g.mask, seen), (4 - seen.len()) as nat)
}

/// The list is a ranking of the placements.
pub open spec fn ranking(g: Game, k: NodeKey, h: Seq<u8>, cands: Seq<AnalysisCand>) -> bool {
    &&& cands == analysis::by_rank(analysis::flagged(analysis::all_cands(g, k, h)))
    &&& analysis::same_cands(cands, analysis::flagged(analysis::all_cands(g, k, h)))
    &&& analysis::ranked(cands)
}

/// Placement `e` ranks first.
pub open spec fn ranks_first(g: Game, k: NodeKey, h: Seq<u8>, e: int) -> bool {
    exists|cands: Seq<AnalysisCand>| #[trigger]
        ranking(g, k, h, cands) && cands.len() > 0 && cands[0].edge == e
}

/// Placement `i` of the path is the one that ranks first where it is made.
pub open spec fn greedy_step(g: Game, reveals: Seq<u8>, path: Seq<usize>, i: int) -> bool {
    let k = analysis::walked(g, g.root(), path.take(i));
    let h = in_sight(g, reveals, i);
    k is Some && choice::hopeful(g, k->0, h) && ranks_first(g, k->0, h, path[i] as int)
}

/// Every placement of the path is.
pub open spec fn greedy(g: Game, reveals: Seq<u8>, path: Seq<usize>) -> bool {
    forall|i: int| 0 <= i < path.len() ==> #[trigger] greedy_step(g, reveals, path, i)
}

/// The walk along the path ends so.
pub open spec fn ends_so(
    g: Game,
    reveals: Seq<u8>,
    path: Seq<usize>,
    r: Result<u8, DeadEnd>,
) -> bool {
    let end = analysis::walked(g, g.root(), path);
    let k = end->0;
    let h = in_sight(g, reveals, path.len() as int);
    let list = analysis::all_cands(g, k, h);
    &&& end is Some
    &&& match r {
        Ok(t) => t == analysis::ending(k, list) && (t == 1 || t == 2),
        Err(d) => {
            &&& analysis::ending(k, list) == 3
            &&& d.depth == k.depth
            &&& d.field == k.field
            &&& d.hold == k.hold
            &&& d.active == analysis::due(g.visible, h, k.depth as int)
            &&& d.best_score == analysis::top(list).1
            &&& d.cands == list.len()
        },
    }
}

/// Where the scores are numbers, the placement that ranks first is the first of the best.
pub proof fn law_first_is_top(g: Game, k: NodeKey, h: Seq<u8>, e: int)
    requires
        game::live_children(g, k).len() <= usize::MAX,
        ranks_first(g, k, h, e),
        choice::hopeful(g, k, h),
        forall|i: int|
            0 <= i < analysis::all_cands(g, k, h).len() ==> !score::is_nan(
                (#[trigger] analysis::all_cands(g, k, h)[i]).score,
            ),
    ensures
        analysis::top(analysis::all_cands(g, k, h)).0 matches Some(i) && analysis::all_cands(
            g,
            k,
            h,
        )[i].edge == e,
{
    let list = analysis::all_cands(g, k, h);
    let marked = analysis::flagged(list);
    let cands = choose|cands: Seq<AnalysisCand>| #[trigger]
        ranking(g, k, h, cands) && cands.len() > 0 && cands[0].edge == e;
    analysis::lemma_top(list);
    let i = analysis::top(list).0->0;
    assert(marked[i] == (AnalysisCand { best: true, ..list[i] }));
    assert(marked.contains(marked[i]));
    assert(cands.contains(marked[i]));
    let j = choose|j: int| 0 <= j < cands.len() && cands[j] == marked[i];
    assert forall|x: int| 0 <= x < cands.len() implies !score::is_nan(
        (#[trigger] cands[x]).score,
    ) by {
        assert(cands.contains(cands[x]));
        assert(marked.contains(cands[x]));
        let y = choose|y: int| 0 <= y < marked.len() && marked[y] == cands[x];
        assert(list[y].score == cands[x].score);
    }
    if j > 0 {
        assert(analysis::before(cands[0], cands[j]));
        assert(cands.contains(cands[0]));
        assert(marked.contains(cands[0]));
        let y = choose|y: int| 0 <= y < marked.len() && marked[y] == cands[0];
        assert(list[y].score == cands[0].score && list[y].edge == cands[0].edge);
        analysis::law_top_is_best(list, y);
        analysis::lemma_cands_order(g, k, h, game::live_children(g, k).len());
        if y < i {
            assert(score::exceeds(list[i].score, list[y].score));
        } else if y > i {
            assert(list[i].edge < list[y].edge);
        }
    }
}

/// Where the bag does not allow what was revealed, no placement has a score.
proof fn lemma_no_score(g: Game, k: NodeKey, h: Seq<u8>, n: nat)
    requires
        g.ok(),
        g.fits(k),
        score::all_fair(g.calc),
        h.len() == 4,
        forall|i: int| 0 <= i < 4 ==> h[i] < 7,
        k.depth <= 3,
        !hidden::legal(g.mask, h.take(k.depth as int)),
        n <= game::live_children(g, k).len(),
    ensures
        analysis::top(analysis::cands_of(g, k, h, n)) == (None::<int>, 0u64),
    decreases n,
{
    if n > 0 {
        lemma_no_score(g, k, h, (n - 1) as nat);
        analysis::lemma_live_child(g, k, n - 1);
        let c = game::live_children(g, k)[n - 1];
        let seen = h.take(k.depth as int);
        lemma_nothing_expected(g, c, seen, 7);
        hidden::lemma_bag_after(g.mask, seen);
        piece::lemma_pieces_some(hidden::bag_after(g.mask, seen));
        let s = analysis::decision(g, c, h);
        assert(score::at_most_zero(s));
        let was = analysis::cands_of(g, k, h, (n - 1) as nat);
        let now = analysis::cands_of(g, k, h, n);
        assert(now == was.push(analysis::cand_at(g, k, n - 1, h)));
        assert(now.drop_last() =~= was);
    }
}

proof fn lemma_nothing_expected(g: Game, c: NodeKey, seen: Seq<u8>, n: nat)
    requires
        !hidden::legal(g.mask, seen),
    ensures
        analysis::expected_sum(g, c, seen, n) == 0,
    decreases n,
{
    if n > 0 {
        lemma_nothing_expected(g, c, seen, (n - 1) as nat);
        hidden::lemma_push(g.mask, seen, (n - 1) as u8);
    }
}

/// What is known after `n` placements, in an array.
fn sight(mask: u8, reveals: [Piece; 4], n: usize, Ghost(g): Ghost<Game>) -> (h: [Piece; 4])
    requires
        piece::bag(mask),
        mask == g.mask,
        forall|i: int| 0 <= i < 4 ==> reveals@[i] < 7,
    ensures
        h@ == in_sight(g, reveals@, n as int),
        forall|i: int| 0 <= i < 4 ==> h@[i] < 7,
        n < 4 ==> h@.take(n as int) == reveals@.take(n as int),
        n >= 4 ==> h@ == reveals@,
{
    let known: usize = if n < 4 {
        n
    } else {
        4
    };
    let bag: u8 = bag_first(mask, &reveals, known as u8);
    let h = fill(reveals, known, bag);
    proof {
        let rest = (4 - known) as nat;
        hidden::lemma_reveals_some(bag, rest);
        hidden::lemma_reveals_legal(bag, rest, 0);
        let f = choice::filler(bag, rest);
        assert forall|i: int| 0 <= i < 4 implies h@[i] < 7 by {
            if i >= known {
                hidden::lemma_legal_small(bag, f, i - known);
            }
        }
        assert(h@.take(known as int) =~= reveals@.take(known as int));
        if known == 4 {
            assert(h@ =~= reveals@);
        }
    }
    h
}

/// Walk through a solved loop to its end: with four lines done, with two, or with nothing left to
/// hope for.
pub fn walk<F: Fn(Op) -> u64>(vs: &VsResult<F>, reveals: [Piece; 4]) -> (r: Result<u8, DeadEnd>)
    requires
        vs.wf(),
        game::alive(vs.game(), vs.game().root()),
        forall|i: int| 0 <= i < 4 ==> reveals@[i] < 7,
        hidden::legal(vs.game().mask, reveals@) || !hidden::legal(
            vs.game().mask,
            reveals@.take(3),
        ),
    ensures
        exists|path: Seq<usize>| #[trigger]
            greedy(vs.game(), reveals@, path) && ends_so(vs.game(), reveals@, path, r),
{
    let ghost g = vs.game();
    let mut path: Vec<usize> = Vec::new();
    loop
        invariant
            vs.wf(),
            g == vs.game(),
            game::alive(g, g.root()),
            forall|i: int| 0 <= i < 4 ==> reveals@[i] < 7,
            hidden::legal(g.mask, reveals@) || !hidden::legal(g.mask, reveals@.take(3)),
            hidden::legal(g.mask, reveals@) || path@.len() <= 3,
            analysis::walked(g, g.root(), path@) is Some,
            greedy(g, reveals@, path@),
        decreases 11 - path@.len(),
    {
        let ghost k = analysis::walked(g, g.root(), path@)->0;
        proof {
            assert(g.fits(g.root()));
            analysis::lemma_walked(g, g.root(), path@);
        }
        let h = sight(vs.retained.initial_mask, reveals, path.len(), Ghost(g));
        proof {
            analysis::lemma_walked_trail(g, g.root(), path@, h@);
        }
        let node = vs.analyze(path.as_slice(), h);
        let ghost list = analysis::all_cands(g, k, h@);
        proof {
            analysis::lemma_top(list);
            assert(analysis::flagged(list).len() == list.len());
        }
        if node.terminal == 1 || node.terminal == 2 {
            return Ok(node.terminal);
        }
        if node.terminal != 0 {
            return Err(
                DeadEnd {
                    depth: node.depth,
                    field: node.field,
                    hold: node.hold,
                    active: node.active,
                    best_score: node.best_score,
                    cands: node.cands.len(),
                },
            );
        }
        let e: usize = node.cands[0].edge;
        let ghost was = path@;
        proof {
            let n = path@.len();
            assert(ranking(g, k, h@, node.cands@));
            assert(ranks_first(g, k, h@, e as int));
            analysis::lemma_ranked_list(g, k, h@, node.cands@);
            if !hidden::legal(g.mask, reveals@) {
                if !hidden::legal(g.mask, reveals@.take(n as int)) {
                    score::law_answers_are_fair(vs.retained.calc);
                    lemma_no_score(g, k, h@, game::live_children(g, k).len());
                }
            }
            analysis::lemma_walked_push(g, g.root(), path@, e);
        }
        path.push(e);
        proof {
            assert forall|i: int| 0 <= i < path@.len() implies #[trigger] greedy_step(
                g,
                reveals@,
                path@,
                i,
            ) by {
                if i < was.len() {
                    assert(greedy_step(g, reveals@, was, i));
                    assert(path@.take(i) =~= was.take(i));
                } else {
                    assert(path@.take(i) =~= was);
                }
            }
        }
    }
}

/* ---- looking for fields that a filter drops ---- */

/// `PCFLDSR1`.
pub const SOURCE_MAGIC: [u8; 8] = [0x50, 0x43, 0x46, 0x4C, 0x44, 0x53, 0x52, 0x31];

/// How many fields a list says it holds.
pub open spec fn source_count(b: Seq<u8>) -> nat {
    bytes::little(b, 8, 8)
}

/// The bytes are a list of fields: a header, then five bytes for each field.
pub open spec fn is_source(b: Seq<u8>) -> bool {
    &&& bytes::begins(b, SOURCE_MAGIC)
    &&& b.len() >= 16
    &&& 16 + 5 * source_count(b) <= b.len()
}

/// Read a list of fields.
pub fn read_source(b: &[u8]) -> (r: Option<Vec<u64>>)
    ensures
        r is Some <==> is_source(b@),
        r matches Some(v) ==> v@.len() == source_count(b@) && forall|i: int|
            0 <= i < v@.len() ==> #[trigger] v@[i] == bytes::little(b@, 16 + 5 * i, 5),
{
    let len: usize = b.len();
    if len < 16 || !has_magic(b, &SOURCE_MAGIC) {
        return None;
    }
    let count: u64 = read_little(b, 8, 8);
    if count > (len - 16) as u64 / 5 {
        return None;
    }
    let n: usize = count as usize;
    let mut v: Vec<u64> = Vec::new();
    let mut i: usize = 0;
    while i < n
        invariant
            i <= n,
            len == b@.len(),
            16 + 5 * n <= len,
            v@.len() == i,
            forall|j: int|
                0 <= j < i ==> #[trigger] v@[j] == bytes::little(b@, 16 + 5 * j, 5),
        decreases n - i,
    {
        v.push(read_little(b, 16 + 5 * i, 5));
        i = i + 1;
    }
    Some(v)
}

/// What two filters drop of a list of fields.
pub struct Scan {
    /// How many fields the first drops.
    pub base_missed: usize,
    /// How many more the second drops.
    pub extra_missed: usize,
    /// Up to eight of those.
    pub samples: Vec<u64>,
}

pub open spec fn lets_pass(f: ProjFilter, x: u64) -> bool {
    proj::passes(f.data@, f.extra@, x)
}

/// The fields that the filter drops.
pub open spec fn dropped(base: ProjFilter, fields: Seq<u64>) -> Seq<u64> {
    fields.filter(|x: u64| !lets_pass(base, x))
}

/// The fields that only the second filter drops.
pub open spec fn dropped_only(base: ProjFilter, ext: ProjFilter, fields: Seq<u64>) -> Seq<u64> {
    fields.filter(|x: u64| lets_pass(base, x) && !lets_pass(ext, x))
}

/// Run a list of fields through two filters.
pub fn scan(base: &ProjFilter, ext: &ProjFilter, fields: &[u64]) -> (r: Scan)
    requires
        base.wf(),
        ext.wf(),
    ensures
        r.base_missed == dropped(*base, fields@).len(),
        r.extra_missed == dropped_only(*base, *ext, fields@).len(),
        r.samples@ == dropped_only(*base, *ext, fields@).take(
            if r.extra_missed < 8 {
                r.extra_missed as int
            } else {
                8
            },
        ),
{
    let len: usize = fields.len();
    let mut base_missed: usize = 0;
    let mut extra_missed: usize = 0;
    let mut samples: Vec<u64> = Vec::new();
    let mut i: usize = 0;
    proof {
        assert(fields@.take(0) =~= Seq::<u64>::empty());
        reveal(Seq::filter);
    }
    while i < len
        invariant
            i <= len,
            len == fields@.len(),
            base.wf(),
            ext.wf(),
            base_missed <= i,
            extra_missed <= i,
            base_missed == dropped(*base, fields@.take(i as int)).len(),
            extra_missed == dropped_only(*base, *ext, fields@.take(i as int)).len(),
            samples@ == dropped_only(*base, *ext, fields@.take(i as int)).take(
                if extra_missed < 8 {
                    extra_missed as int
                } else {
                    8
                },
            ),
        decreases len - i,
    {
        let f: u64 = fields[i];
        proof {
            reveal(Seq::filter);
            assert(fields@.take(i + 1).drop_last() =~= fields@.take(i as int));
            assert(fields@.take(i + 1).last() == f);
        }
        if !base.maybe(f) {
            base_missed = base_missed + 1;
        } else if !ext.maybe(f) {
            let ghost was = dropped_only(*base, *ext, fields@.take(i as int));
            extra_missed = extra_missed + 1;
            if samples.len() < 8 {
                samples.push(f);
            }
            assert(dropped_only(*base, *ext, fields@.take(i + 1)) =~= was.push(f));
        }
        i = i + 1;
    }
    assert(fields@.take(len as int) =~= fields@);
    Scan { base_missed, extra_missed, samples }
}

/// A filter with more projections never lets more fields pass.
pub proof fn law_more_projections_drop_more(base: ProjFilter, ext: ProjFilter, fields: Seq<u64>)
    requires
        base.data@ == ext.data@,
        base.extra@.len() <= ext.extra@.len(),
        base.extra@ == ext.extra@.take(base.extra@.len() as int),
    ensures
        dropped(ext, fields).len() == dropped(base, fields).len() + dropped_only(
            base,
            ext,
            fields,
        ).len(),
    decreases fields.len(),
{
    reveal(Seq::filter);
    if fields.len() > 0 {
        law_more_projections_drop_more(base, ext, fields.drop_last());
        let x = fields.last();
        if lets_pass(ext, x) {
            let n = base.extra@.len() as int;
            assert(ext.extra@ =~= base.extra@ + ext.extra@.skip(n));
            proj::law_extra_only_narrows(base.data@, base.extra@, ext.extra@.skip(n), x);
        }
    }
}

/// A walk sees one reveal for each placement that was made, and none ahead of that: reveals that agree
/// so far look the same, and once four placements were made all of them are seen.
pub proof fn law_walk_sees_no_further(g: Game, a: Seq<u8>, b: Seq<u8>, n: int)
    requires
        g.ok(),
        0 <= n,
        a.len() == 4,
        b.len() == 4,
        forall|i: int| 0 <= i < 4 ==> a[i] < 7,
        forall|i: int| 0 <= i < n && i < 4 ==> a[i] == b[i],
    ensures
        in_sight(g, a, n) == in_sight(g, b, n),
        in_sight(g, a, n).len() == 4,
        forall|i: int| 0 <= i < n && i < 4 ==> in_sight(g, a, n)[i] == a[i],
        n >= 4 ==> in_sight(g, a, n) == a,
        hidden::legal(g.mask, a) ==> hidden::legal(g.mask, in_sight(g, a, n)),
{
    let m = if n < 4 {
        n
    } else {
        4
    };
    let seen = a.take(m);
    assert(seen =~= b.take(m));
    hidden::lemma_bag_after(g.mask, seen);
    let bag = hidden::bag_after(g.mask, seen);
    let rest = (4 - m) as nat;
    hidden::lemma_reveals_some(bag, rest);
    hidden::lemma_reveals_legal(bag, rest, 0);
    let all = in_sight(g, a, n);
    if n >= 4 {
        assert(all =~= a);
    }
    hidden::lemma_split(g.mask, a, m);
    assert(all.take(m) =~= seen);
    assert(all.skip(m) =~= choice::filler(bag, rest));
    hidden::lemma_split(g.mask, all, m);
}

} // verus!
