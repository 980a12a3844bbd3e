//! The bot: it follows the board and the dealt pieces, solves each loop when it begins, and answers
//! with one placement at a time.
//!
//! Pieces are dealt in bags of seven. The dealt pieces are kept in order from the start of the game,
//! where a bag begins; a loop that begins after `n` placements knows the deals up to `n + 7`.

use vstd::prelude::*;
use crate::analysis;
use crate::bits;
use crate::board;
use crate::chain;
use crate::choice;
use crate::choice::{choose_edge, enumerate_reveals, Choice};
use crate::fault;
use crate::fault::Fault;
use crate::game;
use crate::game::{Game, NodeKey};
use crate::graph::{MAX_HASH, TWO_LINE_HASH};
use crate::hidden;
use crate::movegen;
use crate::moves;
use crate::moves::FilteredMoves;
use crate::physical;
use crate::physical::realize;
use crate::piece;
use crate::piece::{after_reveal, has, Piece, FULL_BAG};
use crate::proj::ProjFilter;
use crate::score;
use crate::score::{none_left, Op};
use crate::value_search;
use crate::value_search::{value_search, SearchInput, VsResult};
use crate::values::{ResetEval, ValueTable};

verus! {

/// The names of the orientations.
pub const ORIENT_NAMES: [&'static str; 4] = ["north", "east", "south", "west"];

/// A placement as the host speaks of it: the orientation, and the cell that the piece turns about,
/// from the left and from the bottom.
#[derive(Clone, Copy, Debug, PartialEq, Eq, Structural)]
pub struct TbpMove {
    pub piece: Piece,
    pub orient: u8,
    pub x: i8,
    pub y: i8,
}

/// A loop under way.
pub struct LoopState<F: Fn(Op) -> u64> {
    pub vs: VsResult<F>,
    /// The placements made, each by its place among those at its position.
    pub path: Vec<usize>,
    /// How many pieces were dealt when the loop began: the first reveal is the next one.
    pub boundary_dealt: usize,
}

pub struct Bot<F: Fn(Op) -> u64 + Copy> {
    pub proj: ProjFilter,
    pub table: ValueTable,
    pub calc: F,
    /// All dealt pieces since the game began.
    pub stream: Vec<Piece>,
    pub placed_cnt: usize,
    pub hold: Option<Piece>,
    /// The pieces to come, the one that is due first.
    pub queue: Vec<Piece>,
    /// The field, with the lines of this loop sunk at the bottom.
    pub board_hash: u64,
    /// The bot has given up.
    pub out_of_book: bool,
    pub loop_state: Option<LoopState<F>>,
    /// The placement that was suggested last and not played yet.
    pub pending: Option<Choice>,
    pub last_error: String,
}

/* ---- bags ---- */

/// The dealt pieces of bag `w`, as far as `n` pieces go.
pub open spec fn window(stream: Seq<u8>, w: int, n: int) -> Seq<u8> {
    stream.subrange(
        7 * w,
        if 7 * w + 7 < n {
            7 * w + 7
        } else {
            n
        },
    )
}

/// The first bag from bag `w` on whose pieces are not pieces of one bag.
pub open spec fn bad_window(stream: Seq<u8>, n: int, w: int) -> Option<int>
    decreases n - w,
{
    if w < 0 || 7 * w >= n {
        None
    } else if !hidden::legal(FULL_BAG, window(stream, w, n)) {
        Some(w)
    } else {
        bad_window(stream, n, w + 1)
    }
}

/// The bag that the next piece after `n` dealt ones comes from.
pub open spec fn bag_at(stream: Seq<u8>, n: int) -> u8 {
    hidden::bag_after(FULL_BAG, stream.subrange(n - n % 7, n))
}

/// The first piece that the bag does not allow.
pub open spec fn first_illegal(mask: u8, s: Seq<u8>, i: int) -> Option<int>
    decreases s.len() - i,
{
    if i < 0 || i >= s.len() {
        None
    } else if !piece::in_bag(hidden::bag_after(mask, s.take(i)), s[i] as int) {
        Some(i)
    } else {
        first_illegal(mask, s, i + 1)
    }
}

/// All pieces are pieces.
pub open spec fn all_pieces(s: Seq<u8>) -> bool {
    forall|i: int| 0 <= i < s.len() ==> s[i] < 7
}

/// One for a piece in hold.
pub open spec fn held(hold: Option<u8>) -> int {
    if hold is Some {
        1
    } else {
        0
    }
}

/// No piece is out of place exactly where the bag allows them all; else the bag allows what comes
/// before the piece that is out of place, and not that piece.
pub proof fn law_first_illegal(mask: u8, s: Seq<u8>)
    ensures
        first_illegal(mask, s, 0) is None <==> hidden::legal(mask, s),
        first_illegal(mask, s, 0) matches Some(i) ==> 0 <= i < s.len() && hidden::legal(
            mask,
            s.take(i),
        ) && !hidden::legal(mask, s.take(i + 1)),
{
    assert(s.take(0) =~= Seq::<u8>::empty());
    lemma_first_illegal(mask, s, 0);
    assert(s.take(s.len() as int) =~= s);
}

proof fn lemma_first_illegal(mask: u8, s: Seq<u8>, i: int)
    requires
        0 <= i <= s.len(),
        hidden::legal(mask, s.take(i)),
    ensures
        first_illegal(mask, s, i) is None <==> hidden::legal(mask, s.take(s.len() as int)),
        first_illegal(mask, s, i) matches Some(j) ==> 0 <= j < s.len() && hidden::legal(
            mask,
            s.take(j),
        ) && !hidden::legal(mask, s.take(j + 1)),
    decreases s.len() - i,
{
    if i < s.len() {
        assert(s.take(i + 1) =~= s.take(i).push(s[i]));
        hidden::lemma_push(mask, s.take(i), s[i]);
        if piece::in_bag(hidden::bag_after(mask, s.take(i)), s[i] as int) {
            lemma_first_illegal(mask, s, i + 1);
        } else {
            let all = s.take(s.len() as int);
            hidden::lemma_split(mask, all, i + 1);
            assert(all.take(i + 1) =~= s.take(i + 1));
        }
    }
}

/// The bag that the next piece comes from.
fn loop_mask(stream: &Vec<Piece>, bd: usize) -> (mask: u8)
    requires
        bd <= stream@.len(),
        all_pieces(stream@),
    ensures
        mask == bag_at(stream@, bd as int),
        piece::bag(mask),
{
    let from: usize = bd - bd % 7;
    let ghost part = stream@.subrange(from as int, bd as int);
    let mut mask: u8 = FULL_BAG;
    let mut i: usize = from;
    assert(part.take(0) =~= Seq::<u8>::empty());
    while i < bd
        invariant
            from <= i <= bd <= stream@.len(),
            all_pieces(stream@),
            part == stream@.subrange(from as int, bd as int),
            mask == hidden::bag_after(FULL_BAG, part.take(i - from)),
            piece::bag(mask),
        decreases bd - i,
    {
        let p: Piece = stream[i];
        proof {
            assert(part.take(i + 1 - from) =~= part.take(i - from).push(p));
            hidden::lemma_push(FULL_BAG, part.take(i - from), p);
            piece::lemma_after(mask, p);
        }
        mask = after_reveal(mask, p);
        i = i + 1;
    }
    assert(part.take(bd - from) =~= part);
    mask
}

/// The first piece that the bag does not allow, with the bag that it met.
fn find_illegal(mask: u8, s: &Vec<Piece>, from: usize, to: usize) -> (r: Option<(usize, u8)>)
    requires
        piece::bag(mask),
        from <= to <= s@.len(),
        all_pieces(s@),
    ensures
        ({
            let part = s@.subrange(from as int, to as int);
            &&& r is Some <==> first_illegal(mask, part, 0) is Some
            &&& r matches Some((i, bag)) ==> i == first_illegal(mask, part, 0)->0 && i < to - from
                && bag == hidden::bag_after(mask, part.take(i as int))
        }),
{
    let ghost part = s@.subrange(from as int, to as int);
    let mut bag: u8 = mask;
    let mut i: usize = from;
    assert(part.take(0) =~= Seq::<u8>::empty());
    while i < to
        invariant
            from <= i <= to <= s@.len(),
            all_pieces(s@),
            part == s@.subrange(from as int, to as int),
            bag == hidden::bag_after(mask, part.take(i - from)),
            piece::bag(bag),
            first_illegal(mask, part, 0) == first_illegal(mask, part, i - from),
        decreases to - i,
    {
        let p: Piece = s[i];
        assert(part[i - from] == p);
        if !(has(bag, p)) {
            return Some((i - from, bag));
        }
        proof {
            assert(part.take(i + 1 - from) =~= part.take(i - from).push(p));
            hidden::lemma_push(mask, part.take(i - from), p);
            piece::lemma_after(bag, p);
        }
        bag = after_reveal(bag, p);
        i = i + 1;
    }
    None
}

/// The first bag whose pieces are not pieces of one bag.
fn find_bad_window(stream: &Vec<Piece>, n: usize) -> (r: Option<(usize, usize)>)
    requires
        n <= stream@.len(),
        all_pieces(stream@),
    ensures
        r is Some <==> bad_window(stream@, n as int, 0) is Some,
        r matches Some((start, end)) ==> {
            let w = bad_window(stream@, n as int, 0)->0;
            start == 7 * w && start < end <= n && stream@.subrange(start as int, end as int)
                == window(stream@, w, n as int)
        },
{
    let mut start: usize = 0;
    let ghost mut w: int = 0;
    while start < n
        invariant
            n <= stream@.len(),
            all_pieces(stream@),
            start == 7 * w || (start == n && 7 * w >= n),
            w >= 0,
            bad_window(stream@, n as int, 0) == bad_window(stream@, n as int, w),
        decreases n - start,
    {
        let end: usize = if n - start > 7 {
            start + 7
        } else {
            n
        };
        proof {
            law_first_illegal(FULL_BAG, window(stream@, w, n as int));
        }
        if find_illegal(FULL_BAG, stream, start, end).is_some() {
            return Some((start, end));
        }
        start = end;
        proof {
            w = w + 1;
        }
    }
    None
}

/* ---- what the bot knows ---- */

/// The fields that the search goes on with.
pub open spec fn moves_of(proj: ProjFilter) -> spec_fn(u64, u8) -> Seq<u64> {
    |f: u64, p: u8| moves::kept_children(proj.data@, proj.extra@, f, p)
}

/// What is decided in a loop that began after `bd` dealt pieces, with the placements of `path` made
/// and the pieces of `stream` dealt: the placement, or why there is none.
///
/// Only as many reveals are read as placements were made, and at most four. Those of them that were
/// not dealt yet are averaged over.
pub open spec fn decided(
    g: Game,
    path: Seq<usize>,
    bd: int,
    stream: Seq<u8>,
) -> Result<Choice, Seq<char>> {
    let n = path.len() as int;
    let delivered = stream.len() - bd;
    let needed = if n > 5 {
        n - 5
    } else {
        0
    };
    let upto = if n < 4 {
        n
    } else {
        4
    };
    let known = if delivered < upto {
        delivered
    } else {
        upto
    };
    let seen = stream.subrange(bd, bd + known);
    if delivered < needed {
        Err(
            fault::fault_text(
                Fault::Underrun {
                    placements: n as u64,
                    needed: needed as u64,
                    delivered: delivered as u64,
                },
            ),
        )
    } else {
        match first_illegal(g.mask, seen, 0) {
            Some(i) => Err(
                fault::fault_text(
                    Fault::BagDesync {
                        number: (i + 1) as u64,
                        piece: seen[i],
                        bag: hidden::bag_after(g.mask, seen.take(i)),
                        dealt: bd as u64,
                    },
                ),
            ),
            None => {
                let ways = choice::completions(
                    seen,
                    hidden::bag_after(g.mask, seen),
                    upto as nat,
                );
                let k = analysis::walked(g, g.root(), path)->0;
                match choice::chosen(g, k, ways) {
                    Some(c) => Ok(c),
                    None => Err(fault::dead_text(seen, n as nat, ways.len())),
                }
            },
        }
    }
}

impl<F: Fn(Op) -> u64 + Copy> Bot<F> {
    /// The queue is what was dealt and neither placed nor held.
    pub open spec fn aligned(&self) -> bool {
        &&& self.placed_cnt + held(self.hold) <= self.stream@.len()
        &&& self.queue@ == self.stream@.skip(self.placed_cnt + held(self.hold))
    }

    /// The loop is that of this bot, and the board, the hold and the dealt pieces are those of the
    /// position that its path leads to.
    pub open spec fn in_step(&self, ls: LoopState<F>) -> bool {
        let g = ls.vs.game();
        let d = ls.path@.len() as int;
        let bd = ls.boundary_dealt as int;
        &&& ls.vs.wf()
        &&& g.book == Some(self.table@)
        &&& g.calc == score::arith(self.calc)
        &&& g.kids == moves_of(self.proj)
        &&& game::alive(g, g.root())
        &&& analysis::walked(g, g.root(), ls.path@) is Some
        &&& d <= 9
        &&& bd >= 7
        &&& bd <= self.stream@.len()
        &&& self.placed_cnt == bd - 7 + d
        &&& g.mask == bag_at(self.stream@, bd)
        &&& g.visible == self.stream@.subrange(bd - 6, bd)
        &&& self.aligned()
        &&& self.at_position(analysis::walked(g, g.root(), ls.path@)->0, g, bd)
    }

    pub open spec fn at_position(&self, k: NodeKey, g: Game, bd: int) -> bool {
        let d = k.depth as int;
        &&& !game::two_lines(k)
        &&& self.board_hash == k.field
        &&& d >= 6 ==> bd + d - 6 <= self.stream@.len() && k.mask == hidden::bag_after(
            g.mask,
            self.stream@.subrange(bd, bd + d - 6),
        )
        &&& match self.hold {
            Some(h) => h == k.hold,
            None => self.placed_cnt < self.stream@.len() && self.stream@[self.placed_cnt as int]
                == k.hold,
        }
    }

    /// The placement leads from the position on, with the piece that is due or the one in hold.
    pub open spec fn playable(&self, ls: LoopState<F>, c: Choice) -> bool {
        let g = ls.vs.game();
        let k = analysis::walked(g, g.root(), ls.path@)->0;
        let live = game::live_children(g, k);
        let child = live[c.edge as int];
        let due = self.stream@[self.placed_cnt + 1];
        &&& c.edge < live.len()
        &&& c.field_after == child.field
        &&& self.placed_cnt + 1 < self.stream@.len()
        &&& if child.hold == k.hold {
            c.placed == due
        } else {
            child.hold == due && c.placed == k.hold
        }
        &&& k.depth >= 6 ==> child.mask == piece::after(k.mask, due)
    }

    /// What holds of the bot between calls.
    pub open spec fn wf(&self) -> bool {
        &&& score::answers(self.calc)
        &&& all_pieces(self.stream@)
        &&& all_pieces(self.queue@)
        &&& self.hold is Some ==> self.hold->0 < 7
        &&& self.board_hash <= MAX_HASH
        &&& match self.loop_state {
            Some(ls) => self.in_step(ls) && (self.pending is Some ==> self.playable(
                ls,
                self.pending->0,
            )),
            None => self.pending is None && (self.board_hash == 0 && !self.out_of_book
                ==> self.aligned()),
        }
    }

    /// The piece in hold for the search, and the pieces after it.
    pub open spec fn engine_hold(&self) -> Piece {
        match self.hold {
            Some(h) => h,
            None => self.queue@[0],
        }
    }

    pub open spec fn previews(&self) -> Seq<u8> {
        match self.hold {
            Some(h) => self.queue@,
            None => self.queue@.drop_first(),
        }
    }

    /// The loop that begins now.
    pub open spec fn next_game(&self) -> Game {
        Game {
            hold: self.engine_hold(),
            visible: self.previews().take(6),
            mask: bag_at(self.stream@, self.placed_cnt + 7),
            kids: moves_of(self.proj),
            book: Some(self.table@),
            calc: score::arith(self.calc),
        }
    }

    /// Why no loop can begin now.
    pub open spec fn no_loop(&self) -> Option<Seq<char>> {
        let n = self.placed_cnt + 7;
        if self.board_hash != 0 {
            Some(
                fault::fault_text(
                    Fault::NonEmptyBoard {
                        board: self.board_hash,
                        placed: self.placed_cnt as u64,
                    },
                ),
            )
        } else if self.hold is None && self.queue@.len() == 0 {
            Some(fault::fault_text(Fault::EmptyQueue))
        } else if self.previews().len() < 6 {
            Some(fault::fault_text(Fault::FewPreviews { have: self.previews().len() as u64 }))
        } else {
            match bad_window(self.stream@, n, 0) {
                Some(w) => Some(
                    fault::window_text(
                        (7 * w) as nat,
                        (if 7 * w + 7 < n {
                            7 * w + 7
                        } else {
                            n
                        }) as nat,
                        window(self.stream@, w, n),
                    ),
                ),
                None => if score::at_most_zero(game::game_value(self.next_game())) {
                    Some(fault::fault_text(Fault::Unsolvable))
                } else {
                    None
                },
            }
        }
    }

    /// Nothing but the loop, the suggestion and the reason to give up differs.
    pub open spec fn same_state(&self, other: &Self) -> bool {
        &&& self.proj == other.proj
        &&& self.table == other.table
        &&& self.calc == other.calc
        &&& self.stream == other.stream
        &&& self.placed_cnt == other.placed_cnt
        &&& self.hold == other.hold
        &&& self.queue == other.queue
        &&& self.board_hash == other.board_hash
    }

    pub fn new(proj: ProjFilter, table: ValueTable, calc: F) -> (b: Bot<F>)
        requires
            score::answers(calc),
        ensures
            b.wf(),
            b.proj == proj,
            b.table == table,
            b.calc == calc,
            b.stream@.len() == 0,
            b.placed_cnt == 0,
            b.hold is None,
            b.queue@.len() == 0,
            b.board_hash == 0,
            !b.out_of_book,
            b.loop_state is None,
            b.pending is None,
            b.last_error@ == Seq::<char>::empty(),
    {
        let b = Bot {
            proj,
            table,
            calc,
            stream: Vec::new(),
            placed_cnt: 0,
            hold: None,
            queue: Vec::new(),
            board_hash: 0,
            out_of_book: false,
            loop_state: None,
            pending: None,
            last_error: String::new(),
        };
        assert(b.queue@ =~= b.stream@.skip(0));
        b
    }

    /// One more piece was dealt.
    pub fn new_piece(&mut self, p: Piece)
        requires
            old(self).wf(),
            p < 7,
        ensures
            final(self).wf(),
            final(self).stream@ == old(self).stream@.push(p),
            final(self).queue@ == old(self).queue@.push(p),
            final(self).proj == old(self).proj,
            final(self).table == old(self).table,
            final(self).calc == old(self).calc,
            final(self).placed_cnt == old(self).placed_cnt,
            final(self).hold == old(self).hold,
            final(self).board_hash == old(self).board_hash,
            final(self).out_of_book == old(self).out_of_book,
            final(self).loop_state == old(self).loop_state,
            final(self).pending == old(self).pending,
            final(self).last_error == old(self).last_error,
    {
        let ghost was = self.stream@;
        self.stream.push(p);
        self.queue.push(p);
        proof {
            let now = self.stream@;
            let at = self.placed_cnt + held(self.hold);
            if at <= was.len() {
                assert(now.skip(at) =~= was.skip(at).push(p));
            }
            if self.loop_state is Some {
                let ls = self.loop_state->0;
                let bd = ls.boundary_dealt as int;
                let g = ls.vs.game();
                let k = analysis::walked(g, g.root(), ls.path@)->0;
                assert(now.subrange(bd - bd % 7, bd) =~= was.subrange(bd - bd % 7, bd));
                assert(now.subrange(bd - 6, bd) =~= was.subrange(bd - 6, bd));
                if k.depth >= 6 {
                    assert(now.subrange(bd, bd + k.depth - 6) =~= was.subrange(
                        bd,
                        bd + k.depth - 6,
                    ));
                }
            }
        }
    }

    /// Forget the loop and the suggestion.
    pub fn stop(&mut self)
        requires
            old(self).wf(),
        ensures
            final(self).wf(),
            final(self).same_state(old(self)),
            final(self).loop_state is None,
            final(self).pending is None,
            final(self).out_of_book == old(self).out_of_book,
            final(self).last_error == old(self).last_error,
    {
        self.pending = None;
        self.loop_state = None;
    }

    fn fail(&mut self, f: Fault)
        requires
            fault::fault_ok(f),
        ensures
            final(self).same_state(old(self)),
            final(self).loop_state == old(self).loop_state,
            final(self).pending == old(self).pending,
            final(self).out_of_book,
            final(self).last_error@ == fault::fault_text(f),
    {
        self.out_of_book = true;
        self.last_error = f.message();
    }
}

/* ---- the board of the host ---- */

/// Cell `i` of a board is filled: row by row from the bottom, each from the left.
pub open spec fn cell_filled(cells: Seq<u8>, i: int) -> bool {
    i < cells.len() && cells[i] != 0
}

/// The field of a board.
pub open spec fn board_field(cells: Seq<u8>) -> u64 {
    bits::from_bits(|b: int| cell_filled(cells, movegen::mirror_index(b)), 40)
}

/// The board reaches out of the box.
pub open spec fn overflows(cells: Seq<u8>) -> bool {
    exists|i: int| 40 <= i < 400 && #[trigger] cell_filled(cells, i)
}

fn read_board(cells: &[u8]) -> (r: (u64, bool))
    ensures
        r.0 == board_field(cells@),
        r.1 == overflows(cells@),
        r.0 <= MAX_HASH,
{
    let mut hash: u64 = 0;
    let mut i: usize = 0;
    proof {
        assert forall|b: int| !#[trigger] bits::bit(0, b) by {
            bits::lemma_bit_zero(b);
        }
    }
    while i < cells.len() && i < 40
        invariant
            i <= cells@.len(),
            i <= 40,
            forall|b: int|
                #![trigger bits::bit(hash, b)]
                bits::bit(hash, b) == (0 <= b < 40 && movegen::mirror_index(b) < i && cell_filled(
                    cells@,
                    movegen::mirror_index(b),
                )),
        decreases 40 - i,
    {
        if cells[i] != 0 {
            let at: u64 = ((i / 10) * 10 + 9 - i % 10) as u64;
            let ghost was = hash;
            assert(at < 40);
            hash = hash | (1u64 << at);
            proof {
                assert forall|b: int| #[trigger] bits::bit(hash, b) == (0 <= b < 40
                    && movegen::mirror_index(b) < i + 1 && cell_filled(
                    cells@,
                    movegen::mirror_index(b),
                )) by {
                    bits::lemma_bit_or(was, 1u64 << at, b);
                    bits::lemma_bit_one(at, b);
                    bits::lemma_bit_range(was, b);
                }
            }
        }
        i = i + 1;
    }
    proof {
        let f = |b: int| cell_filled(cells@, movegen::mirror_index(b));
        assert forall|b: int| 0 <= b < 64 implies bits::bit(hash, b) == bits::bit(
            board_field(cells@),
            b,
        ) by {
            bits::lemma_from_bits(f, 40, b);
        }
        bits::lemma_bits_equal(hash, board_field(cells@));
        assert forall|b: int| 40 <= b implies !bits::bit(hash, b) by {}
        bits::lemma_bits_below(hash, 40);
        assert(1u64 << 40 == 0x100_0000_0000) by (bit_vector);
    }
    let mut overflow: bool = false;
    let mut j: usize = 40;
    while j < cells.len() && j < 400
        invariant
            40 <= j <= 400,
            overflow <==> exists|x: int| 40 <= x < j && #[trigger] cell_filled(cells@, x),
        ensures
            40 <= j <= 400,
            j == 400 || j >= cells@.len(),
            overflow <==> exists|x: int| 40 <= x < j && #[trigger] cell_filled(cells@, x),
        decreases 400 - j,
    {
        if cells[j] != 0 {
            overflow = true;
            assert(cell_filled(cells@, j as int));
        }
        j = j + 1;
    }
    (hash, overflow)
}

fn to_vec(s: &[Piece]) -> (v: Vec<Piece>)
    ensures
        v@ == s@,
{
    let mut v: Vec<Piece> = Vec::new();
    push_all(&mut v, s);
    assert(v@ =~= s@);
    v
}

fn push_all(v: &mut Vec<Piece>, s: &[Piece])
    ensures
        final(v)@ == old(v)@ + s@,
{
    let ghost before = v@;
    let mut i: usize = 0;
    while i < s.len()
        invariant
            i <= s@.len(),
            v@ =~= before + s@.take(i as int),
        decreases s@.len() - i,
    {
        v.push(s[i]);
        i = i + 1;
    }
    assert(s@.take(s@.len() as int) =~= s@);
}

/// Whether the pieces from `at` on are those of `s`.
fn matches_at(v: &Vec<Piece>, at: usize, s: &[Piece]) -> (r: bool)
    requires
        at + s@.len() <= v@.len(),
    ensures
        r == (v@.subrange(at as int, at + s@.len()) == s@),
{
    let _len: usize = v.len();
    let mut i: usize = 0;
    while i < s.len()
        invariant
            i <= s@.len(),
            _len == v@.len(),
            at + s@.len() <= v@.len(),
            forall|k: int| 0 <= k < i ==> v@[at + k] == s@[k],
        decreases s@.len() - i,
    {
        if v[at + i] != s[i] {
            assert(v@.subrange(at as int, at + s@.len())[i as int] != s@[i as int]);
            return false;
        }
        i = i + 1;
    }
    assert(v@.subrange(at as int, at + s@.len()) =~= s@);
    true
}

/// Of the two pieces in front one is taken, the rest stays.
pub open spec fn takes_one(before: Seq<u8>, after: Seq<u8>, p: u8) -> bool {
    exists|i: int| 0 <= i <= 1 && i < before.len() && before[i] == p && after == #[trigger] before.remove(i)
}

/// The dealt pieces when a game begins with this hold and queue.
pub open spec fn opening(hold: Option<u8>, queue: Seq<u8>) -> Seq<u8> {
    match hold {
        Some(h) => seq![h] + queue,
        None => queue,
    }
}

impl<F: Fn(Op) -> u64 + Copy> Bot<F> {
    /// The board is empty, or nothing was dealt yet: the deals begin anew.
    pub open spec fn begins_anew(&self, cells: Seq<u8>) -> bool {
        (board_field(cells) == 0 && !overflows(cells)) || self.stream@.len() == 0
    }

    /// The queue is what was dealt last.
    pub open spec fn resyncs(&self, queue: Seq<u8>) -> bool {
        let at = self.placed_cnt + held(self.hold);
        at + queue.len() <= self.stream@.len() && self.stream@.subrange(at, at + queue.len())
            == queue
    }

    /// What a start with this hold, queue and board makes of the bot.
    pub open spec fn starts(
        &self,
        after: &Self,
        hold: Option<Piece>,
        queue: Seq<u8>,
        cells: Seq<u8>,
    ) -> bool {
        let anew = self.begins_anew(cells);
        let at = self.placed_cnt + held(self.hold);
        let kept = if at < self.stream@.len() {
            at
        } else {
            self.stream@.len() as int
        };
        let mends = !anew && !self.resyncs(queue);
        &&& after.proj == self.proj
        &&& after.table == self.table
        &&& after.calc == self.calc
        &&& after.hold == hold
        &&& after.queue@ == queue
        &&& after.board_hash == board_field(cells)
        &&& after.loop_state is None
        &&& after.pending is None
        &&& after.out_of_book == overflows(cells)
        &&& after.placed_cnt == if anew {
            0
        } else {
            self.placed_cnt
        }
        &&& after.stream@ == if anew {
            opening(hold, queue)
        } else if mends {
            self.stream@.take(kept) + queue
        } else {
            self.stream@
        }
        &&& after.last_error@ == if overflows(cells) {
            fault::fault_text(Fault::AboveRowThree)
        } else if mends {
            fault::fault_text(Fault::ResyncMismatch)
        } else {
            Seq::empty()
        }
    }

    /// A game begins, or the host tells anew what the board, the hold and the queue are. False where
    /// the board reaches out of the box.
    pub fn start(
        &mut self,
        hold: Option<Piece>,
        queue: &[Piece],
        board_cells: &[u8],
        _combo: i32,
    ) -> (ok: bool)
        requires
            old(self).wf(),
            all_pieces(queue@),
            hold is Some ==> hold->0 < 7,
            old(self).begins_anew(board_cells@) || old(self).placed_cnt + held(old(self).hold)
                + queue@.len() <= usize::MAX,
        ensures
            final(self).wf(),
            ok == !overflows(board_cells@),
            old(self).starts(final(self), hold, queue@, board_cells@),
    {
        self.pending = None;
        self.loop_state = None;
        self.out_of_book = false;
        self.last_error = String::new();
        let (hash, overflow): (u64, bool) = read_board(board_cells);
        let fresh: bool = hash == 0 && !overflow;
        if fresh || self.stream.len() == 0 {
            let mut stream: Vec<Piece> = Vec::new();
            if let Some(h) = hold {
                stream.push(h);
            }
            push_all(&mut stream, queue);
            self.stream = stream;
            self.placed_cnt = 0;
            assert(self.stream@ =~= opening(hold, queue@));
            assert(queue@ =~= self.stream@.skip(held(hold)));
        } else {
            let at: usize = self.placed_cnt + if self.hold.is_some() {
                1
            } else {
                0
            };
            let dealt: usize = at + queue.len();
            if dealt > self.stream.len() || !matches_at(&self.stream, at, queue) {
                let f = Fault::ResyncMismatch;
                self.last_error = f.message();
                let kept: usize = if at < self.stream.len() {
                    at
                } else {
                    self.stream.len()
                };
                self.stream.truncate(kept);
                push_all(&mut self.stream, queue);
            }
        }
        self.hold = hold;
        self.queue = to_vec(queue);
        self.board_hash = hash;
        if overflow {
            let f = Fault::AboveRowThree;
            self.out_of_book = true;
            self.last_error = f.message();
        }
        !overflow
    }
}

/* ---- moves ---- */

/// A placement after a reveal comes from one of the pieces of the bag.
proof fn lemma_reveal_source(g: Game, k: NodeKey, n: nat, t: int) -> (r: (u8, int))
    requires
        n <= 7,
        0 <= t < game::reveal_moves(g, k, n).len(),
    ensures
        r.0 < 7,
        piece::in_bag(k.mask, r.0 as int),
        0 <= r.1 < game::moves(g, k, r.0, piece::after(k.mask, r.0)).len(),
        game::reveal_moves(g, k, n)[t] == game::moves(
            g,
            k,
            r.0,
            piece::after(k.mask, r.0),
        )[r.1],
    decreases n,
{
    let was = game::reveal_moves(g, k, (n - 1) as nat);
    if t < was.len() {
        lemma_reveal_source(g, k, (n - 1) as nat, t)
    } else {
        ((n - 1) as u8, t - was.len())
    }
}

/// A move places the piece that is due and keeps the hold, or places the hold and keeps the piece
/// that is due.
proof fn lemma_move_source(g: Game, k: NodeKey, p: u8, mask: u8, t: int)
    requires
        0 <= t < game::moves(g, k, p, mask).len(),
    ensures
        ({
            let c = game::moves(g, k, p, mask)[t];
            &&& c.mask == mask
            &&& if c.hold == k.hold {
                (g.kids)(k.field, p).contains(c.field)
            } else {
                c.hold == p && (g.kids)(k.field, k.hold).contains(c.field)
            }
        }),
{
    let a = game::placed((g.kids)(k.field, p), (k.depth + 1) as u8, k.hold, mask);
    let c = game::moves(g, k, p, mask)[t];
    if t < a.len() {
        assert((g.kids)(k.field, p)[t] == c.field);
    } else {
        assert((g.kids)(k.field, k.hold)[t - a.len()] == c.field);
    }
}

/// What a placement that agrees with the reveals does.
proof fn lemma_agreeing_move(g: Game, k: NodeKey, e: int, h: Seq<u8>)
    requires
        g.ok(),
        g.fits(k),
        0 <= e < game::live_children(g, k).len(),
        analysis::agrees(g, k, e, h),
        k.depth >= 6 ==> piece::in_bag(k.mask, h[k.depth - 6] as int),
    ensures
        ({
            let c = game::live_children(g, k)[e];
            let p = analysis::due(g.visible, h, k.depth as int);
            &&& if c.hold == k.hold {
                (g.kids)(k.field, p).contains(c.field)
            } else {
                c.hold == p && (g.kids)(k.field, k.hold).contains(c.field)
            }
            &&& k.depth >= 6 ==> c.mask == piece::after(k.mask, p)
        }),
{
    analysis::lemma_live_child(g, k, e);
    let c = game::live_children(g, k)[e];
    let list = game::child_keys(g, k);
    let t = choose|t: int| 0 <= t < list.len() && list[t] == c;
    if k.depth < 6 {
        lemma_move_source(g, k, g.visible[k.depth as int], k.mask, t);
    } else {
        let (q, j) = lemma_reveal_source(g, k, 7, t);
        lemma_move_source(g, k, q, piece::after(k.mask, q), j);
        piece::lemma_after_differs(k.mask, q, h[k.depth - 6]);
    }
}

/// A placement that was scored agrees with one of the ways to go on.
proof fn lemma_scored_agrees(
    g: Game,
    k: NodeKey,
    ways: Seq<Seq<u8>>,
    e: int,
    n: nat,
) -> (i: int)
    requires
        n <= ways.len(),
        choice::tally(g, k, ways, e, n).1 > 0,
    ensures
        0 <= i < n,
        analysis::agrees(g, k, e, ways[i]),
    decreases n,
{
    if choice::hopeful(g, k, ways[n - 1]) && analysis::agrees(g, k, e, ways[n - 1]) {
        n - 1
    } else {
        lemma_scored_agrees(g, k, ways, e, (n - 1) as nat)
    }
}

impl<F: Fn(Op) -> u64 + Copy> Bot<F> {
    /// What is known of the position of the loop.
    proof fn lemma_position(&self, ls: LoopState<F>) -> (k: NodeKey)
        requires
            self.wf(),
            self.loop_state == Some(ls),
        ensures
            k == analysis::walked(ls.vs.game(), ls.vs.game().root(), ls.path@)->0,
            ls.vs.game().ok(),
            ls.vs.game().fits(k),
            game::alive(ls.vs.game(), k),
            k.depth == ls.path@.len(),
    {
        let g = ls.vs.game();
        analysis::lemma_walked(g, g.root(), ls.path@);
        analysis::walked(g, g.root(), ls.path@)->0
    }

    /// The suggestion is played.
    pub fn play(&mut self)
        requires
            old(self).wf(),
        ensures
            final(self).wf(),
            final(self).proj == old(self).proj,
            final(self).table == old(self).table,
            final(self).calc == old(self).calc,
            final(self).stream == old(self).stream,
            final(self).out_of_book == old(self).out_of_book,
            final(self).last_error == old(self).last_error,
            final(self).pending is None,
            old(self).pending is None ==> final(self).same_state(old(self))
                && final(self).loop_state == old(self).loop_state,
            old(self).pending matches Some(c) ==> {
                let ls = old(self).loop_state->0;
                let depth = ls.path@.len() + 1;
                let done = (depth == 10 && c.field_after == MAX_HASH) || (depth == 5
                    && c.field_after == TWO_LINE_HASH);
                let due = old(self).stream@[old(self).placed_cnt + 1];
                &&& final(self).placed_cnt == old(self).placed_cnt + 1
                &&& final(self).queue@ == final(self).stream@.skip(
                    final(self).placed_cnt + held(final(self).hold),
                )
                &&& final(self).board_hash == if done {
                    0
                } else {
                    c.field_after
                }
                &&& final(self).hold == match old(self).hold {
                    Some(h) => if c.placed == due {
                        Some(h)
                    } else {
                        Some(due)
                    },
                    None => if c.placed == old(self).queue@[0] {
                        None
                    } else {
                        Some(old(self).queue@[0])
                    },
                }
                &&& takes_one(
                    opening(old(self).hold, old(self).queue@),
                    opening(final(self).hold, final(self).queue@),
                    c.placed,
                )
                &&& final(self).loop_state is None <==> done
                &&& !done ==> {
                    &&& final(self).loop_state->0.vs == ls.vs
                    &&& final(self).loop_state->0.path@ == ls.path@.push(c.edge)
                    &&& final(self).loop_state->0.boundary_dealt == ls.boundary_dealt
                }
            },
    {
        let p: Choice = match self.pending {
            Some(p) => p,
            None => {
                return ;
            },
        };
        let ghost ls0 = self.loop_state->0;
        let ghost g = ls0.vs.game();
        let ghost k = self.lemma_position(ls0);
        let ghost at = self.placed_cnt as int;
        let ghost all = self.stream@;
        let ghost child = game::live_children(g, k)[p.edge as int];
        proof {
            analysis::lemma_live_child(g, k, p.edge as int);
            assert(self.queue@.len() > 0);
            assert(self.hold is Some ==> self.queue@[0] == all[at + 1]);
            assert(self.hold is None ==> self.queue@[0] == all[at] && self.queue@.len() > 1
                && self.queue@[1] == all[at + 1]);
        }
        self.pending = None;
        if p.placed == self.queue[0] {
            self.queue.remove(0);
        } else {
            match self.hold {
                Some(h) => {
                    if h == p.placed {
                        let active: Piece = self.queue.remove(0);
                        self.hold = Some(active);
                    } else {
                        self.fail(Fault::PieceUnknown);
                        return ;
                    }
                },
                None => {
                    let active: Piece = self.queue.remove(0);
                    self.hold = Some(active);
                    if self.queue.len() > 0 && self.queue[0] == p.placed {
                        self.queue.remove(0);
                    } else {
                        self.fail(Fault::PieceUnavailable);
                        return ;
                    }
                },
            }
        }
        let _dealt: usize = self.stream.len();
        self.placed_cnt = self.placed_cnt + 1;
        self.board_hash = p.field_after;
        proof {
            assert(self.queue@ =~= all.skip(self.placed_cnt + held(self.hold)));
            let had = opening(old(self).hold, old(self).queue@);
            let has = opening(self.hold, self.queue@);
            if old(self).hold is Some && p.placed == old(self).queue@[0] {
                assert(has =~= had.remove(1));
            } else if old(self).hold is Some {
                assert(has =~= had.remove(0));
            } else if p.placed == old(self).queue@[0] {
                assert(has =~= had.remove(0));
            } else {
                assert(has =~= had.remove(1));
            }
            assert(takes_one(had, has, p.placed));
        }
        match self.loop_state.take() {
            Some(ls) => {
                let mut ls = ls;
                ls.path.push(p.edge);
                let depth: usize = ls.path.len();
                proof {
                    analysis::lemma_walked_push(g, g.root(), ls0.path@, p.edge);
                    let bd = ls.boundary_dealt as int;
                    if depth >= 7 {
                        let a = all.subrange(bd, bd + depth - 7);
                        assert(all.subrange(bd, bd + depth - 6) =~= a.push(all[bd + depth - 7]));
                        hidden::lemma_push(g.mask, a, all[bd + depth - 7]);
                    }
                    if depth == 6 {
                        assert(all.subrange(bd, bd) =~= Seq::<u8>::empty());
                    }
                }
                let done: bool = (depth == 10 && p.field_after == MAX_HASH) || (depth == 5
                    && p.field_after == TWO_LINE_HASH);
                if done {
                    self.board_hash = 0;
                } else {
                    self.loop_state = Some(ls);
                }
            },
            None => {},
        }
    }
}

fn copy_part(v: &Vec<Piece>, from: usize, to: usize) -> (r: Vec<Piece>)
    requires
        from <= to <= v@.len(),
    ensures
        r@ == v@.subrange(from as int, to as int),
{
    let mut r: Vec<Piece> = Vec::new();
    let mut i: usize = from;
    while i < to
        invariant
            from <= i <= to <= v@.len(),
            r@ =~= v@.subrange(from as int, i as int),
        decreases to - i,
    {
        r.push(v[i]);
        i = i + 1;
    }
    r
}

fn six_from(v: &Vec<Piece>, at: usize) -> (r: [Piece; 6])
    requires
        at + 6 <= v@.len(),
    ensures
        r@ == v@.subrange(at as int, at + 6),
{
    let _len: usize = v.len();
    let r: [Piece; 6] = [v[at], v[at + 1], v[at + 2], v[at + 3], v[at + 4], v[at + 5]];
    assert(r@ =~= v@.subrange(at as int, at + 6));
    r
}

impl<F: Fn(Op) -> u64 + Copy> Bot<F> {
    /// Begin a loop. False where none can begin.
    fn form_boundary(&mut self) -> (ok: bool)
        requires
            old(self).wf(),
            !old(self).out_of_book,
            old(self).loop_state is None,
            old(self).board_hash == 0,
            old(self).begins_loop() ==> old(self).proj.wf(),
        ensures
            final(self).wf(),
            final(self).same_state(old(self)),
            final(self).pending is None,
            ok <==> old(self).no_loop() is None,
            ok ==> {
                &&& final(self).loop_state is Some
                &&& final(self).loop_state->0.vs.game() == old(self).next_game()
                &&& final(self).loop_state->0.path@.len() == 0
                &&& final(self).loop_state->0.boundary_dealt == old(self).placed_cnt + 7
                &&& !final(self).out_of_book
                &&& final(self).last_error == old(self).last_error
            },
            !ok ==> {
                &&& final(self).loop_state is None
                &&& final(self).out_of_book == !(old(self).hold is None
                    && old(self).queue@.len() == 0)
                &&& final(self).last_error@ == old(self).no_loop()->0
            },
    {
        let skip: usize = match self.hold {
            Some(_) => 0,
            None => {
                if self.queue.len() == 0 {
                    let f = Fault::EmptyQueue;
                    self.last_error = f.message();
                    return false;
                }
                1
            },
        };
        let engine_hold: Piece = match self.hold {
            Some(h) => h,
            None => self.queue[0],
        };
        let have: usize = self.queue.len() - skip;
        let ghost ahead = self.previews();
        proof {
            assert(ahead =~= self.queue@.skip(skip as int));
        }
        if have < 6 {
            self.fail(Fault::FewPreviews { have: have as u64 });
            return false;
        }
        let _dealt: usize = self.stream.len();
        let boundary_dealt: usize = self.placed_cnt + 7;
        if let Some((start, end)) = find_bad_window(&self.stream, boundary_dealt) {
            let deals = copy_part(&self.stream, start, end);
            self.fail(Fault::Window { start: start as u64, end: end as u64, deals });
            return false;
        }
        let visible: [Piece; 6] = six_from(&self.queue, skip);
        let mask: u8 = loop_mask(&self.stream, boundary_dealt);
        let ghost g = self.next_game();
        proof {
            assert(visible@ =~= ahead.take(6));
            hidden::lemma_canonical(mask);
            assert(engine_hold < 7);
            assert forall|i: int| 0 <= i < 6 implies visible@[i] < 7 by {
                assert(visible@[i] == self.queue@[skip + i]);
            }
        }
        let reset = ResetEval::new(Some(&self.table), self.calc);
        let input = SearchInput { hold: engine_hold, visible, mask, reset };
        let mut edges = FilteredMoves::new(&self.proj);
        let ghost made = value_search::game_of(input, edges);
        let vs = value_search(input, &mut edges);
        proof {
            assert(made.kids =~= g.kids);
            assert(vs.game() == g);
        }
        if none_left(vs.root_value) {
            self.fail(Fault::Unsolvable);
            return false;
        }
        let path: Vec<usize> = Vec::new();
        let ghost bd = boundary_dealt as int;
        proof {
            if !game::alive(g, g.root()) {
                game::law_lost_is_hopeless(g, 10, g.root(), Seq::empty());
            }
            assert(g.visible =~= self.stream@.subrange(bd - 6, bd));
        }
        self.loop_state = Some(LoopState { vs, path, boundary_dealt });
        true
    }
}

/// The reveals from `bd` on in the first places, and the bag after them.
fn read_seen(stream: &Vec<Piece>, bd: usize, known: usize, mask: u8) -> (r: ([Piece; 4], u8))
    requires
        known <= 4,
        bd + known <= stream@.len(),
        all_pieces(stream@),
        piece::bag(mask),
    ensures
        r.0@.take(known as int) == stream@.subrange(bd as int, bd + known),
        r.1 == hidden::bag_after(mask, stream@.subrange(bd as int, bd + known)),
        piece::bag(r.1),
{
    let _len: usize = stream.len();
    let ghost seen = stream@.subrange(bd as int, bd + known);
    let mut base: [Piece; 4] = [0u8; 4];
    let mut bag: u8 = mask;
    let mut i: usize = 0;
    assert(seen.take(0) =~= Seq::<u8>::empty());
    while i < known
        invariant
            i <= known <= 4,
            _len == stream@.len(),
            bd + known <= stream@.len(),
            all_pieces(stream@),
            seen == stream@.subrange(bd as int, bd + known),
            base@.take(i as int) =~= seen.take(i as int),
            bag == hidden::bag_after(mask, seen.take(i as int)),
            piece::bag(bag),
        decreases known - i,
    {
        let p: Piece = stream[bd + i];
        proof {
            assert(seen.take(i + 1) =~= seen.take(i as int).push(p));
            hidden::lemma_push(mask, seen.take(i as int), p);
            piece::lemma_after(bag, p);
        }
        let ghost was = base@;
        base[i] = p;
        bag = after_reveal(bag, p);
        assert(base@.take(i + 1) =~= was.take(i as int).push(p));
        i = i + 1;
    }
    assert(seen.take(known as int) =~= seen);
    (base, bag)
}

impl<F: Fn(Op) -> u64 + Copy> Bot<F> {
    /// The first reveals were read: as many as placements were made and pieces dealt, at most four.
    spec fn reads(&self, ls: LoopState<F>, seen: Seq<u8>, upto: nat) -> bool {
        let n = ls.path@.len();
        let bd = ls.boundary_dealt as int;
        &&& hidden::legal(ls.vs.game().mask, seen)
        &&& seen.len() <= upto
        &&& upto == if n < 4 {
            n
        } else {
            4
        }
        &&& bd + seen.len() <= self.stream@.len()
        &&& seen == self.stream@.subrange(bd, bd + seen.len())
        &&& n > 5 ==> seen.len() >= n - 5
    }

    /// The ways to go on agree on the piece that is due: the one that was dealt.
    proof fn lemma_ways(&self, ls: LoopState<F>, seen: Seq<u8>, upto: nat)
        requires
            self.wf(),
            self.loop_state == Some(ls),
            self.reads(ls, seen, upto),
        ensures
            ({
                let g = ls.vs.game();
                let k = analysis::walked(g, g.root(), ls.path@)->0;
                let ways = choice::completions(seen, hidden::bag_after(g.mask, seen), upto);
                let due = self.stream@[self.placed_cnt + 1];
                &&& choice::ways_ok(g, k, ways)
                &&& self.placed_cnt + 1 < self.stream@.len()
                &&& forall|i: int|
                    0 <= i < ways.len() ==> analysis::due(
                        g.visible,
                        #[trigger] ways[i],
                        k.depth as int,
                    ) == due
            }),
    {
        let g = ls.vs.game();
        let k = self.lemma_position(ls);
        let bag = hidden::bag_after(g.mask, seen);
        let ways = choice::completions(seen, bag, upto);
        let d = k.depth as int;
        let bd = ls.boundary_dealt as int;
        let due = self.stream@[self.placed_cnt + 1];
        hidden::lemma_small(g.mask, seen);
        hidden::lemma_bag_after(g.mask, seen);
        choice::lemma_completions_some(seen, bag, upto);
        assert(d >= 6 ==> seen[d - 6] == self.stream@[bd + d - 6]);
        assert(d < 6 ==> g.visible[d] == self.stream@[bd - 6 + d]);
        assert forall|i: int| 0 <= i < ways.len() implies (#[trigger] ways[i]).len() == 4
            && hidden::legal(g.mask, ways[i]) && analysis::due(g.visible, ways[i], d) == due by {
            choice::lemma_completions(seen, g.mask, upto, i);
            if d >= 6 {
                assert(ways[i].take(seen.len() as int)[d - 6] == seen[d - 6]);
            }
        }
    }

    /// What is chosen can be played.
    proof fn lemma_chosen_playable(&self, ls: LoopState<F>, seen: Seq<u8>, upto: nat, c: Choice)
        requires
            self.wf(),
            self.loop_state == Some(ls),
            self.reads(ls, seen, upto),
            ({
                let g = ls.vs.game();
                let k = analysis::walked(g, g.root(), ls.path@)->0;
                let ways = choice::completions(seen, hidden::bag_after(g.mask, seen), upto);
                game::live_children(g, k).len() <= usize::MAX && choice::chosen(g, k, ways) == Some(
                    c,
                )
            }),
        ensures
            self.playable(ls, c),
            c.placed < 7,
            movegen::is_child(c.placed as int, self.board_hash, c.field_after),
    {
        let g = ls.vs.game();
        let k = self.lemma_position(ls);
        let d = k.depth as int;
        let bd = ls.boundary_dealt as int;
        let ways = choice::completions(seen, hidden::bag_after(g.mask, seen), upto);
        let due = self.stream@[self.placed_cnt + 1];
        self.lemma_ways(ls, seen, upto);
        let n = game::live_children(g, k).len();
        choice::lemma_pick(g, k, ways, n);
        let e = choice::pick(g, k, ways, n)->0;
        assert(c.edge == e);
        let i = lemma_scored_agrees(g, k, ways, e, ways.len());
        assert(analysis::due(g.visible, ways[i], d) == due);
        assert(analysis::due(g.visible, ways[0], d) == due);
        if d >= 6 {
            let head = seen.take(d - 6);
            let rest = seen.skip(d - 6);
            assert(head =~= self.stream@.subrange(bd, bd + d - 6));
            hidden::lemma_split(g.mask, seen, d - 6);
            assert(rest[0] == seen[d - 6]);
            assert(piece::in_bag(k.mask, due as int));
        }
        lemma_agreeing_move(g, k, e, ways[i]);
        moves::law_kept_children(self.proj.data@, self.proj.extra@, k.field, due);
        moves::law_kept_children(self.proj.data@, self.proj.extra@, k.field, k.hold);
    }

    /// Choose over the ways to go on from the reveals that were read.
    fn go_on(&self, ls: &LoopState<F>, known: usize, upto: usize) -> (r: Result<Choice, Fault>)
        requires
            self.wf(),
            self.loop_state == Some(*ls),
            ls.boundary_dealt + known <= self.stream@.len(),
            self.reads(
                *ls,
                self.stream@.subrange(
                    ls.boundary_dealt as int,
                    ls.boundary_dealt + known,
                ),
                upto as nat,
            ),
        ensures
            ({
                let g = ls.vs.game();
                let k = analysis::walked(g, g.root(), ls.path@)->0;
                let seen = self.stream@.subrange(
                    ls.boundary_dealt as int,
                    ls.boundary_dealt + known,
                );
                let ways = choice::completions(
                    seen,
                    hidden::bag_after(g.mask, seen),
                    upto as nat,
                );
                &&& r matches Ok(c) ==> choice::chosen(g, k, ways) == Some(c) && self.playable(*ls, c)
                    && c.placed < 7 && movegen::is_child(
                    c.placed as int,
                    self.board_hash,
                    c.field_after,
                )
                &&& r matches Err(f) ==> choice::chosen(g, k, ways) is None && fault::fault_ok(f)
                    && fault::fault_text(f) == fault::dead_text(seen, ls.path@.len(), ways.len())
            }),
    {
        let ghost g = ls.vs.game();
        let bd: usize = ls.boundary_dealt;
        let ghost k = self.lemma_position(*ls);
        let ghost seen = self.stream@.subrange(bd as int, bd + known);
        let _len: usize = self.stream.len();
        let (base, bag): ([Piece; 4], u8) = read_seen(
            &self.stream,
            bd,
            known,
            ls.vs.retained.initial_mask,
        );
        let ghost all = choice::completions(seen, bag, upto as nat);
        let mut ways: Vec<[Piece; 4]> = Vec::new();
        enumerate_reveals(base, known, upto, bag, &mut ways);
        proof {
            assert(choice::views(ways@) =~= all);
            self.lemma_ways(*ls, seen, upto as nat);
        }
        let c = choose_edge(&ls.vs, &ls.path, &ways, Ghost(k));
        match c {
            Some(c) => {
                proof {
                    self.lemma_chosen_playable(*ls, seen, upto as nat, c);
                }
                Ok(c)
            },
            None => {
                let revealed = copy_part(&self.stream, bd, bd + known);
                Err(
                    Fault::DeadReveal {
                        revealed,
                        depth: ls.path.len() as u64,
                        completions: ways.len() as u64,
                    },
                )
            },
        }
    }

    /// The placement that the loop goes on with, or why there is none.
    fn decide(&self, ls: &LoopState<F>) -> (r: Result<Choice, Fault>)
        requires
            self.wf(),
            self.loop_state == Some(*ls),
        ensures
            ({
                let want = decided(
                    ls.vs.game(),
                    ls.path@,
                    ls.boundary_dealt as int,
                    self.stream@,
                );
                &&& r matches Ok(c) ==> want == Ok::<Choice, Seq<char>>(c) && self.playable(*ls, c)
                    && c.placed < 7 && movegen::is_child(
                    c.placed as int,
                    self.board_hash,
                    c.field_after,
                )
                &&& r matches Err(f) ==> fault::fault_ok(f) && want == Err::<Choice, Seq<char>>(
                    fault::fault_text(f),
                )
            }),
    {
        let bd: usize = ls.boundary_dealt;
        let n: usize = ls.path.len();
        let delivered: usize = self.stream.len() - bd;
        let needed: usize = if n > 5 {
            n - 5
        } else {
            0
        };
        if delivered < needed {
            return Err(
                Fault::Underrun {
                    placements: n as u64,
                    needed: needed as u64,
                    delivered: delivered as u64,
                },
            );
        }
        let upto: usize = if n < 4 {
            n
        } else {
            4
        };
        let known: usize = if delivered < upto {
            delivered
        } else {
            upto
        };
        let mask: u8 = ls.vs.retained.initial_mask;
        let ghost seen = self.stream@.subrange(bd as int, bd + known);
        proof {
            law_first_illegal(mask, seen);
        }
        if let Some((i, bag)) = find_illegal(mask, &self.stream, bd, bd + known) {
            return Err(
                Fault::BagDesync {
                    number: i as u64 + 1,
                    piece: self.stream[bd + i],
                    bag,
                    dealt: bd as u64,
                },
            );
        }
        self.go_on(ls, known, upto)
    }

    /// The next move in the loop under way.
    fn next_move(&mut self) -> (r: Option<TbpMove>)
        requires
            old(self).wf(),
            old(self).loop_state is Some,
            !old(self).out_of_book,
        ensures
            final(self).wf(),
            final(self).same_state(old(self)),
            final(self).loop_state == old(self).loop_state,
            old(self).moves_on(final(self), old(self).loop_state->0, r),
    {
        let d: Result<Choice, Fault> = match &self.loop_state {
            Some(ls) => self.decide(ls),
            None => {
                return None;
            },
        };
        match d {
            Err(f) => {
                self.fail(f);
                None
            },
            Ok(c) => match realize(self.board_hash, c.placed, c.field_after) {
                Some((orient, x, y)) => {
                    self.pending = Some(c);
                    Some(TbpMove { piece: c.placed, orient, x, y })
                },
                None => {
                    self.fail(Fault::NoPlacement);
                    None
                },
            },
        }
    }

    /// What asking for the next move in a loop does.
    pub open spec fn moves_on(&self, after: &Self, ls: LoopState<F>, r: Option<TbpMove>) -> bool {
        match decided(ls.vs.game(), ls.path@, ls.boundary_dealt as int, self.stream@) {
            Ok(c) => {
                &&& r is Some
                &&& r->0.piece == c.placed
                &&& physical::realizes(
                    self.board_hash,
                    c.placed,
                    c.field_after,
                    r->0.orient,
                    r->0.x,
                    r->0.y,
                )
                &&& after.pending == Some(c)
                &&& !after.out_of_book
                &&& after.last_error == self.last_error
            },
            Err(t) => {
                &&& r is None
                &&& after.pending == self.pending
                &&& after.out_of_book
                &&& after.last_error@ == t
            },
        }
    }

    /// The next suggestion begins a loop, and asks the filter for its moves.
    pub open spec fn begins_loop(&self) -> bool {
        &&& !self.out_of_book
        &&& self.loop_state is None
        &&& self.board_hash == 0
        &&& self.hold is Some || self.queue@.len() > 0
        &&& self.previews().len() >= 6
        &&& bad_window(self.stream@, self.placed_cnt + 7, 0) is None
    }

    /// Whether the next move can be asked for: a filter that is asked for moves has to be sound.
    pub fn is_ready(&self) -> (r: bool)
        requires
            self.wf(),
        ensures
            r == (self.begins_loop() ==> self.proj.wf()),
    {
        if self.proj.is_sound() || self.out_of_book || self.loop_state.is_some() || self.board_hash
            != 0 {
            return true;
        }
        let have: usize = match self.hold {
            Some(_) => self.queue.len(),
            None => {
                if self.queue.len() == 0 {
                    return true;
                }
                self.queue.len() - 1
            },
        };
        if have < 6 {
            return true;
        }
        let _dealt: usize = self.stream.len();
        find_bad_window(&self.stream, self.placed_cnt + 7).is_some()
    }

    /// What asking for the next move does.
    pub open spec fn suggests(&self, after: &Self, r: Option<TbpMove>) -> bool {
        &&& after.same_state(self)
        &&& if self.out_of_book {
            &&& r is None
            &&& after.out_of_book
            &&& after.loop_state == self.loop_state
            &&& after.pending == self.pending
            &&& after.last_error == self.last_error
        } else if self.loop_state is Some {
            &&& after.loop_state == self.loop_state
            &&& self.moves_on(after, self.loop_state->0, r)
        } else {
            match self.no_loop() {
                Some(t) => {
                    &&& r is None
                    &&& after.loop_state is None
                    &&& after.pending is None
                    &&& after.out_of_book == !(self.board_hash == 0 && self.hold is None
                        && self.queue@.len() == 0)
                    &&& after.last_error@ == t
                },
                None => {
                    &&& after.loop_state is Some
                    &&& after.loop_state->0.vs.game() == self.next_game()
                    &&& after.loop_state->0.path@.len() == 0
                    &&& after.loop_state->0.boundary_dealt == self.placed_cnt + 7
                    &&& self.moves_on(after, after.loop_state->0, r)
                },
            }
        }
    }

    /// The next move; none where the bot gives up. Where no loop is under way, one begins.
    pub fn suggest(&mut self) -> (r: Option<TbpMove>)
        requires
            old(self).wf(),
            old(self).begins_loop() ==> old(self).proj.wf(),
        ensures
            final(self).wf(),
            old(self).suggests(final(self), r),
    {
        if self.out_of_book {
            return None;
        }
        if self.loop_state.is_none() {
            if self.board_hash != 0 {
                let (board, placed): (u64, u64) = (self.board_hash, self.placed_cnt as u64);
                self.fail(Fault::NonEmptyBoard { board, placed });
                return None;
            }
            if !self.form_boundary() {
                return None;
            }
        }
        self.next_move()
    }
}

/* ---- the board of a loop ---- */

/// While a loop is under way, full lines lie at the bottom of the field and nowhere else.
pub proof fn law_board_is_settled<F: Fn(Op) -> u64 + Copy>(b: Bot<F>)
    requires
        b.wf(),
        b.loop_state is Some,
    ensures
        board::settled(b.board_hash),
{
    let ls = b.loop_state->0;
    board::law_empty_is_settled();
    lemma_walked_settled(b.proj, ls.vs.game(), ls.vs.game().root(), ls.path@);
}

proof fn lemma_walked_settled(proj: ProjFilter, g: Game, k: NodeKey, path: Seq<usize>)
    requires
        g.ok(),
        g.fits(k),
        g.kids == moves_of(proj),
        board::settled(k.field),
        analysis::walked(g, k, path) is Some,
    ensures
        board::settled(analysis::walked(g, k, path)->0.field),
    decreases path.len(),
{
    if path.len() > 0 {
        let c = game::live_children(g, k)[path[0] as int];
        analysis::lemma_live_child(g, k, path[0] as int);
        let list = game::child_keys(g, k);
        let t = choose|t: int| 0 <= t < list.len() && list[t] == c;
        lemma_child_field(g, k, t);
        let p = choose|p: u8| #[trigger] (g.kids)(k.field, p).contains(c.field);
        moves::law_kept_children(proj.data@, proj.extra@, k.field, p);
        board::law_children_are_settled(p as int, k.field, c.field);
        lemma_walked_settled(proj, g, c, path.drop_first());
    }
}

/// A position after a placement has one of the fields that the placement can lead to.
proof fn lemma_child_field(g: Game, k: NodeKey, t: int)
    requires
        0 <= t < game::child_keys(g, k).len(),
    ensures
        exists|p: u8| #[trigger] (g.kids)(k.field, p).contains(game::child_keys(g, k)[t].field),
{
    if k.depth < 6 {
        lemma_move_field(g, k, g.visible[k.depth as int], k.mask, t);
    } else {
        lemma_reveal_field(g, k, 7, t);
    }
}

proof fn lemma_move_field(g: Game, k: NodeKey, p: u8, mask: u8, t: int)
    requires
        0 <= t < game::moves(g, k, p, mask).len(),
    ensures
        exists|q: u8| #[trigger] (g.kids)(k.field, q).contains(game::moves(g, k, p, mask)[t].field),
{
    let n = (g.kids)(k.field, p).len();
    let field = game::moves(g, k, p, mask)[t].field;
    if t < n {
        assert((g.kids)(k.field, p)[t] == field);
        assert((g.kids)(k.field, p).contains(field));
    } else {
        assert((g.kids)(k.field, k.hold)[t - n] == field);
        assert((g.kids)(k.field, k.hold).contains(field));
    }
}

proof fn lemma_reveal_field(g: Game, k: NodeKey, n: nat, t: int)
    requires
        0 <= t < game::reveal_moves(g, k, n).len(),
    ensures
        exists|q: u8| #[trigger]
            (g.kids)(k.field, q).contains(game::reveal_moves(g, k, n)[t].field),
    decreases n,
{
    if n > 0 {
        let was = game::reveal_moves(g, k, (n - 1) as nat);
        let p = (n - 1) as u8;
        let field = game::reveal_moves(g, k, n)[t].field;
        if t < was.len() {
            lemma_reveal_field(g, k, (n - 1) as nat, t);
            assert(was[t].field == field);
        } else {
            let next = game::moves(g, k, p, piece::after(k.mask, p));
            lemma_move_field(g, k, p, piece::after(k.mask, p), t - was.len());
            assert(next[t - was.len()].field == field);
        }
    }
}

/* ---- what is not read ---- */

/// A decision depends on no deal beyond one reveal for each placement made, and on none beyond the
/// fourth reveal.
pub proof fn law_decision_reads_no_further(
    g: Game,
    path: Seq<usize>,
    bd: int,
    stream: Seq<u8>,
    other: Seq<u8>,
)
    requires
        path.len() <= 9,
        bd >= 0,
        ({
            let end = bd + if path.len() < 4 {
                path.len() as int
            } else {
                4
            };
            &&& end <= stream.len()
            &&& end <= other.len()
            &&& stream.take(end) == other.take(end)
        }),
    ensures
        decided(g, path, bd, stream) == decided(g, path, bd, other),
{
    let end = bd + if path.len() < 4 {
        path.len() as int
    } else {
        4
    };
    assert(stream.subrange(bd, end) =~= stream.take(end).subrange(bd, end));
    assert(other.subrange(bd, end) =~= other.take(end).subrange(bd, end));
}

/// A loop depends on the hold, the next six pieces and the deals up to them.
pub proof fn law_loop_reads_no_further<F: Fn(Op) -> u64 + Copy>(a: Bot<F>, b: Bot<F>)
    requires
        a.proj == b.proj,
        a.table == b.table,
        a.calc == b.calc,
        a.hold == b.hold,
        a.placed_cnt == b.placed_cnt,
        a.board_hash == b.board_hash,
        a.placed_cnt + 7 <= a.stream@.len(),
        a.placed_cnt + 7 <= b.stream@.len(),
        a.stream@.take(a.placed_cnt + 7) == b.stream@.take(a.placed_cnt + 7),
        a.aligned(),
        b.aligned(),
    ensures
        a.next_game() == b.next_game(),
        a.no_loop() == b.no_loop(),
{
    let n = a.placed_cnt + 7;
    let (s, t) = (a.stream@, b.stream@);
    let at = a.placed_cnt + held(a.hold);
    assert forall|i: int| 0 <= i < n implies s[i] == t[i] by {
        assert(s.take(n)[i] == t.take(n)[i]);
    }
    assert(s.subrange(n - n % 7, n) =~= t.subrange(n - n % 7, n));
    assert(a.queue@[0] == s[at] && b.queue@[0] == t[at]);
    assert(a.previews().take(6) =~= b.previews().take(6));
    assert(a.next_game().visible =~= b.next_game().visible);
    lemma_bad_window_same(s, t, n, 0);
    if let Some(w) = bad_window(s, n, 0) {
        lemma_bad_window_range(s, n, 0);
        lemma_window_same(s, t, n, w);
    }
}

proof fn lemma_window_same(s: Seq<u8>, t: Seq<u8>, n: int, w: int)
    requires
        0 <= w,
        7 * w < n <= s.len(),
        n <= t.len(),
        forall|i: int| 0 <= i < n ==> s[i] == t[i],
    ensures
        window(s, w, n) == window(t, w, n),
{
    assert(window(s, w, n) =~= window(t, w, n));
}

proof fn lemma_bad_window_range(s: Seq<u8>, n: int, w: int)
    ensures
        bad_window(s, n, w) matches Some(x) ==> 0 <= x && 7 * x < n,
    decreases n - w,
{
    if w >= 0 && 7 * w < n {
        lemma_bad_window_range(s, n, w + 1);
    }
}

proof fn lemma_bad_window_same(s: Seq<u8>, t: Seq<u8>, n: int, w: int)
    requires
        n <= s.len(),
        n <= t.len(),
        forall|i: int| 0 <= i < n ==> s[i] == t[i],
    ensures
        bad_window(s, n, w) == bad_window(t, n, w),
    decreases n - w,
{
    if w >= 0 && 7 * w < n {
        lemma_window_same(s, t, n, w);
        lemma_bad_window_same(s, t, n, w + 1);
    }
}

impl<F: Fn(Op) -> u64 + Copy> Bot<F> {
    /// How many deals the next suggestion may read: those up to the sixth preview, and in a loop one
    /// more for each placement made in it, up to four.
    pub open spec fn readable(&self) -> int {
        match self.loop_state {
            Some(ls) => ls.boundary_dealt + if ls.path@.len() < 4 {
                ls.path@.len() as int
            } else {
                4
            },
            None => self.placed_cnt + 7,
        }
    }

    /// The loops are the same game with the same placements made, or neither bot is in one.
    pub open spec fn same_loop(&self, other: &Self) -> bool {
        match self.loop_state {
            Some(ls) => {
                &&& other.loop_state is Some
                &&& other.loop_state->0.vs.game() == ls.vs.game()
                &&& other.loop_state->0.path@ == ls.path@
                &&& other.loop_state->0.boundary_dealt == ls.boundary_dealt
            },
            None => other.loop_state is None,
        }
    }

    /// The bots agree in everything but deals that may not be read.
    pub open spec fn reads_the_same(&self, other: &Self) -> bool {
        let end = self.readable();
        &&& self.proj == other.proj
        &&& self.table == other.table
        &&& self.calc == other.calc
        &&& self.placed_cnt == other.placed_cnt
        &&& self.hold == other.hold
        &&& self.board_hash == other.board_hash
        &&& self.out_of_book == other.out_of_book
        &&& self.pending == other.pending
        &&& self.last_error@ == other.last_error@
        &&& self.same_loop(other)
        &&& end <= self.stream@.len()
        &&& end <= other.stream@.len()
        &&& self.stream@.take(end) == other.stream@.take(end)
    }
}

/// The piece of a suggestion is a piece.
proof fn lemma_pending_piece<F: Fn(Op) -> u64 + Copy>(b: Bot<F>)
    requires
        b.wf(),
        b.pending is Some,
    ensures
        b.pending->0.placed < 7,
{
    let ls = b.loop_state->0;
    let g = ls.vs.game();
    assert(g.fits(g.root()));
    analysis::lemma_walked(g, g.root(), ls.path@);
    assert(b.playable(ls, b.pending->0));
}

/// Two bots that agree in what may be read make the same suggestion, to the coordinates, or give up
/// for the same reason: deals further ahead are never read.
pub proof fn law_suggestion_reads_no_further<F: Fn(Op) -> u64 + Copy>(
    a: Bot<F>,
    b: Bot<F>,
    after_a: Bot<F>,
    after_b: Bot<F>,
    r: Option<TbpMove>,
    t: Option<TbpMove>,
)
    requires
        a.wf(),
        b.wf(),
        after_a.wf(),
        after_b.wf(),
        a.reads_the_same(&b),
        a.suggests(&after_a, r),
        b.suggests(&after_b, t),
    ensures
        r == t,
        after_a.pending == after_b.pending,
        after_a.out_of_book == after_b.out_of_book,
        after_a.last_error@ == after_b.last_error@,
        after_a.same_loop(&after_b),
{
    if !a.out_of_book {
        if a.loop_state is None {
            if a.board_hash == 0 {
                law_loop_reads_no_further(a, b);
                assert(a.queue@.len() > 0 && b.queue@.len() > 0);
            }
            assert(a.no_loop() == b.no_loop());
        }
        if after_a.loop_state is Some {
            let ls = after_a.loop_state->0;
            let other = after_b.loop_state->0;
            let g = ls.vs.game();
            assert(other.path@ =~= ls.path@);
            law_decision_reads_no_further(
                g,
                ls.path@,
                ls.boundary_dealt as int,
                a.stream@,
                b.stream@,
            );
            if let Ok(c) = decided(g, ls.path@, ls.boundary_dealt as int, a.stream@) {
                lemma_pending_piece(after_a);
                physical::law_coordinates_are_unique(
                    a.board_hash,
                    c.placed,
                    c.field_after,
                    (r->0.orient, r->0.x, r->0.y),
                    (t->0.orient, t->0.x, t->0.y),
                );
            }
        }
    }
}

/* ---- beginning anew ---- */

/// A start on an empty board forgets whatever was before: two bots that are told the same are the
/// same afterwards.
pub proof fn law_new_game_forgets<F: Fn(Op) -> u64 + Copy>(
    a: Bot<F>,
    b: Bot<F>,
    after_a: Bot<F>,
    after_b: Bot<F>,
    hold: Option<Piece>,
    queue: Seq<u8>,
    cells: Seq<u8>,
)
    requires
        a.proj == b.proj,
        a.table == b.table,
        a.calc == b.calc,
        board_field(cells) == 0,
        !overflows(cells),
        a.starts(&after_a, hold, queue, cells),
        b.starts(&after_b, hold, queue, cells),
    ensures
        after_a.proj == after_b.proj,
        after_a.table == after_b.table,
        after_a.calc == after_b.calc,
        after_a.stream@ == after_b.stream@,
        after_a.stream@ == opening(hold, queue),
        after_a.placed_cnt == 0,
        after_b.placed_cnt == 0,
        after_a.hold == hold,
        after_b.hold == hold,
        after_a.queue@ == queue,
        after_b.queue@ == queue,
        after_a.board_hash == 0,
        after_b.board_hash == 0,
        !after_a.out_of_book,
        !after_b.out_of_book,
        after_a.loop_state is None,
        after_b.loop_state is None,
        after_a.pending is None,
        after_b.pending is None,
        after_a.last_error@ == Seq::<char>::empty(),
        after_b.last_error@ == Seq::<char>::empty(),
{
}

/* ---- bags and previews ---- */

/// Where the deals are those of bags, the last deal is not in the bag that is left over, or that bag
/// is a new one.
pub proof fn law_deals_are_in_phase(stream: Seq<u8>, n: int)
    requires
        1 <= n <= stream.len(),
        bad_window(stream, n, 0) is None,
    ensures
        bag_at(stream, n) == FULL_BAG || !piece::in_bag(bag_at(stream, n), stream[n - 1] as int),
{
    let w = n / 7;
    let s = stream.subrange(n - n % 7, n);
    if n % 7 == 0 {
        assert(s =~= Seq::<u8>::empty());
    } else {
        lemma_good_window(stream, n, 0, w);
        assert(window(stream, w, n) =~= s);
        let front = s.drop_last();
        let p = s.last();
        assert(s =~= front.push(p));
        hidden::lemma_push(FULL_BAG, front, p);
        let bag = hidden::bag_after(FULL_BAG, front);
        lemma_bag_left(front);
        chain::law_size_after_draw(bag, p);
        assert(p == stream[n - 1]);
    }
}

proof fn lemma_good_window(stream: Seq<u8>, n: int, from: int, w: int)
    requires
        bad_window(stream, n, from) is None,
        0 <= from <= w,
        7 * w < n,
    ensures
        hidden::legal(FULL_BAG, window(stream, w, n)),
    decreases w - from,
{
    if from < w {
        lemma_good_window(stream, n, from + 1, w);
    }
}

/// What is left of a new bag after up to six deals.
proof fn lemma_bag_left(s: Seq<u8>)
    requires
        hidden::legal(FULL_BAG, s),
        s.len() < 7,
    ensures
        piece::bag(hidden::bag_after(FULL_BAG, s)),
        chain::size(hidden::bag_after(FULL_BAG, s)) == 7 - s.len(),
    decreases s.len(),
{
    if s.len() == 0 {
        let p = piece::lemma_bag_holds(FULL_BAG);
        chain::law_size_after_draw(FULL_BAG, p as u8);
    } else {
        let front = s.drop_last();
        assert(s =~= front.push(s.last()));
        hidden::lemma_push(FULL_BAG, front, s.last());
        lemma_bag_left(front);
        broadcast use piece::lemma_in_bag_range;

        piece::lemma_after(hidden::bag_after(FULL_BAG, front), s.last());
        chain::law_size_after_draw(hidden::bag_after(FULL_BAG, front), s.last());
    }
}

/// A bot with a complete table lacks nothing in a loop that it begins.
pub proof fn law_loop_lacks_nothing<F: Fn(Op) -> u64 + Copy>(
    b: Bot<F>,
    keys: Seq<NodeKey>,
    known: spec_fn(u8, u8) -> bool,
)
    requires
        b.wf(),
        b.aligned(),
        b.no_loop() is None,
        chain::complete(b.table@),
        b.next_game().ok(),
        forall|i: int| 0 <= i < keys.len() ==> b.next_game().fits(#[trigger] keys[i]),
    ensures
        value_search::lacking_from(b.next_game(), keys, known, 0) == 0,
{
    let g = b.next_game();
    let n = b.placed_cnt + 7;
    let at = b.placed_cnt + held(b.hold);
    assert(g.visible[5] == b.stream@[n - 1]);
    law_deals_are_in_phase(b.stream@, n);
    chain::law_complete_table_lacks_nothing(g, b.table@, keys, known, 0);
}

/* ---- what the bot goes by ---- */

/// The bags are in order exactly where each of them deals no piece twice, and the one found out of
/// order is the first.
pub proof fn law_bad_window(stream: Seq<u8>, n: int)
    requires
        0 <= n <= stream.len(),
        all_pieces(stream),
    ensures
        bad_window(stream, n, 0) is None <==> forall|w: int|
            0 <= w && 7 * w < n ==> (#[trigger] window(stream, w, n)).no_duplicates(),
        bad_window(stream, n, 0) matches Some(w) ==> 0 <= w && 7 * w < n && !window(
            stream,
            w,
            n,
        ).no_duplicates() && forall|v: int|
            0 <= v < w ==> (#[trigger] window(stream, v, n)).no_duplicates(),
{
    lemma_bad_window(stream, n, 0);
}

proof fn lemma_bad_window(stream: Seq<u8>, n: int, from: int)
    requires
        0 <= n <= stream.len(),
        all_pieces(stream),
        0 <= from,
    ensures
        bad_window(stream, n, from) is None <==> forall|w: int|
            from <= w && 7 * w < n ==> (#[trigger] window(stream, w, n)).no_duplicates(),
        bad_window(stream, n, from) matches Some(w) ==> from <= w && 7 * w < n && !window(
            stream,
            w,
            n,
        ).no_duplicates() && forall|v: int|
            from <= v < w ==> (#[trigger] window(stream, v, n)).no_duplicates(),
    decreases n - from,
{
    if 7 * from < n {
        let s = window(stream, from, n);
        hidden::law_a_bag_deals_each_piece_once(s);
        lemma_bad_window(stream, n, from + 1);
        assert forall|i: int| 0 <= i < s.len() implies s[i] < 7 by {
            assert(s[i] == stream[7 * from + i]);
        }
    }
}

/// The bag that the next piece comes from holds the pieces that were not dealt from it yet.
pub proof fn law_bag_holds_what_was_not_dealt(stream: Seq<u8>, n: int, p: int)
    requires
        0 <= n <= stream.len(),
        all_pieces(stream),
        stream.subrange(n - n % 7, n).no_duplicates(),
    ensures
        piece::in_bag(bag_at(stream, n), p) <==> 0 <= p < 7 && !stream.subrange(
            n - n % 7,
            n,
        ).contains(p as u8),
{
    let s = stream.subrange(n - n % 7, n);
    assert forall|i: int| 0 <= i < s.len() implies s[i] < 7 by {
        assert(s[i] == stream[n - n % 7 + i]);
    }
    hidden::law_a_bag_deals_each_piece_once(s);
}

/// A field has the filled cells of the board in its lowest four rows, with the columns mirrored.
pub proof fn law_board_is_read(cells: Seq<u8>, row: int, col: int)
    requires
        0 <= row < 4,
        0 <= col < 10,
    ensures
        bits::bit(board_field(cells), 10 * row + 9 - col) <==> 10 * row + col < cells.len()
            && cells[10 * row + col] != 0,
        board_field(cells) < 1u64 << 40,
{
    let f = |b: int| cell_filled(cells, movegen::mirror_index(b));
    let at = 10 * row + 9 - col;
    bits::lemma_from_bits(f, 40, at);
    assert(at / 10 == row && at % 10 == 9 - col);
    assert(movegen::mirror_index(at) == 10 * row + col);
    assert forall|i: int| 40 <= i implies !bits::bit(board_field(cells), i) by {
        bits::lemma_from_bits(f, 40, i);
    }
    bits::lemma_bits_below(board_field(cells), 40);
}

/// Told the queue that it has, the bot keeps its deals. Told another, it keeps the deals up to the
/// queue and takes the rest from it. At the start of a game the deals are the hold and the queue.
pub proof fn law_start_follows_the_host<F: Fn(Op) -> u64 + Copy>(
    a: Bot<F>,
    b: Bot<F>,
    hold: Option<u8>,
    queue: Seq<u8>,
    cells: Seq<u8>,
)
    requires
        a.starts(&b, hold, queue, cells),
    ensures
        b.hold == hold && b.queue@ == queue,
        a.stream@.len() == 0 ==> b.stream@ == (if hold is Some {
            seq![hold->0]
        } else {
            Seq::empty()
        }) + queue && b.placed_cnt == 0,
        a.stream@.len() > 0 && b.board_hash != 0 ==> b.placed_cnt == a.placed_cnt,
        a.stream@.len() > 0 && b.board_hash != 0 && a.aligned() && queue == a.queue@ ==> b.stream@
            == a.stream@ && !(b.last_error@.len() > 0 && !b.out_of_book),
        a.stream@.len() > 0 && b.board_hash != 0 && a.aligned() ==> ({
            let at = a.placed_cnt + held(a.hold);
            &&& b.stream@.take(at) == a.stream@.take(at)
            &&& b.stream@.len() >= at + queue.len()
            &&& b.stream@.subrange(at, at + queue.len()) == queue
        }),
{
    if a.stream@.len() > 0 && b.board_hash != 0 && a.aligned() {
        let at = a.placed_cnt + held(a.hold);
        if queue == a.queue@ {
            assert(a.stream@.subrange(at, at + queue.len()) =~= queue);
        }
        if !a.resyncs(queue) {
            let now = a.stream@.take(at) + queue;
            assert(now.take(at) =~= a.stream@.take(at));
            assert(now.subrange(at, at + queue.len()) =~= queue);
        }
    }
    if a.stream@.len() == 0 {
        assert(opening(hold, queue) =~= (if hold is Some {
            seq![hold->0]
        } else {
            Seq::empty()
        }) + queue);
    }
}

/// A loop begins with the piece in hold, or, where none is, the first that was dealt and not placed;
/// with the six to see that were dealt last before its reveals; and with the bag that the first
/// reveal comes from.
pub proof fn law_loop_begins_with_what_was_dealt<F: Fn(Op) -> u64 + Copy>(
    a: Bot<F>,
    b: Bot<F>,
    r: Option<TbpMove>,
)
    requires
        a.wf(),
        b.wf(),
        a.suggests(&b, r),
        a.loop_state is None,
        b.loop_state is Some,
    ensures
        ({
            let g = b.loop_state->0.vs.game();
            let at = a.placed_cnt as int;
            &&& at + 7 <= a.stream@.len()
            &&& a.board_hash == 0
            &&& g.hold == match a.hold {
                Some(h) => h,
                None => a.stream@[at],
            }
            &&& g.visible == a.stream@.subrange(at + 1, at + 7)
            &&& forall|p: int| #[trigger]
                piece::in_bag(g.mask, p) <==> 0 <= p < 7 && !a.stream@.subrange(
                    at + 7 - (at + 7) % 7,
                    at + 7,
                ).contains(p as u8)
            &&& forall|f: u64, p: u8| #[trigger]
                (g.kids)(f, p) == moves::kept_children(a.proj.data@, a.proj.extra@, f, p)
            &&& g.book == Some(a.table@)
            &&& score::exceeds(b.loop_state->0.vs.root_value, 0)
        }),
{
    let g = b.loop_state->0.vs.game();
    let at = a.placed_cnt as int;
    let n = at + 7;
    let vs = b.loop_state->0.vs;
    assert(a.aligned());
    let all = a.stream@;
    match a.hold {
        Some(h) => {
            assert(b.in_step(b.loop_state->0));
        },
        None => {
            assert(a.queue@.drop_first() =~= all.skip(at + 1));
            assert(a.queue@[0] == all[at]);
        },
    }
    assert(a.previews() =~= all.skip(at + 1));
    assert(g.visible =~= all.subrange(at + 1, at + 7));
    law_bad_window(all, n);
    let s = all.subrange(n - n % 7, n);
    if n % 7 == 0 {
        assert(s =~= Seq::<u8>::empty());
    } else {
        assert(window(all, n / 7, n) =~= s);
    }
    assert forall|p: int| #[trigger] piece::in_bag(g.mask, p) <==> 0 <= p < 7 && !s.contains(
        p as u8,
    ) by {
        law_bag_holds_what_was_not_dealt(all, n, p);
    }
    score::law_answers_are_fair(vs.retained.calc);
    game::lemma_expected_not_below(g, 10, g.root(), Seq::empty());
}

/// The placements that a decision reads: as many as were made and dealt for, at most four.
pub open spec fn seen_reveals(n: nat, bd: int, stream: Seq<u8>) -> Seq<u8> {
    let delivered = stream.len() - bd;
    stream.subrange(
        bd,
        bd + if n <= delivered && n <= 4 {
            n as int
        } else if delivered <= 4 {
            delivered
        } else {
            4
        },
    )
}

/// What is decided has the highest mean over every way in which the bag can go on from the reveals
/// that were dealt: no placement with scores has a higher mean, and those listed before it have
/// lower ones. The reveals are allowed by the bag, and enough of them were dealt.
pub proof fn law_decision_has_the_highest_mean(
    g: Game,
    path: Seq<usize>,
    bd: int,
    stream: Seq<u8>,
    c: Choice,
    e: int,
)
    requires
        0 <= bd <= stream.len(),
        decided(g, path, bd, stream) == Ok::<Choice, Seq<char>>(c),
        game::live_children(g, analysis::walked(g, g.root(), path)->0).len() <= usize::MAX,
        0 <= e < game::live_children(g, analysis::walked(g, g.root(), path)->0).len(),
    ensures
        ({
            let n = path.len();
            let k = analysis::walked(g, g.root(), path)->0;
            let seen = seen_reveals(n, bd, stream);
            let upto = if n < 4 {
                n
            } else {
                4
            };
            let ways = choice::completions(seen, hidden::bag_after(g.mask, seen), upto);
            &&& hidden::legal(g.mask, seen)
            &&& stream.len() - bd >= n - 5
            &&& c.edge < game::live_children(g, k).len()
            &&& choice::scores(g, k, ways, c.edge as int).len() > 0
            &&& choice::means_are_numbers(g, k, ways, game::live_children(g, k).len())
                && choice::scores(g, k, ways, e).len() > 0 ==> !score::exceeds(
                choice::mean_of(g, k, ways, e),
                choice::mean_of(g, k, ways, c.edge as int),
            ) && (e < c.edge ==> score::exceeds(
                choice::mean_of(g, k, ways, c.edge as int),
                choice::mean_of(g, k, ways, e),
            ))
        }),
{
    let n = path.len();
    let k = analysis::walked(g, g.root(), path)->0;
    let seen = seen_reveals(n, bd, stream);
    let upto = if n < 4 {
        n
    } else {
        4
    };
    let ways = choice::completions(seen, hidden::bag_after(g.mask, seen), upto);
    law_first_illegal(g.mask, seen);
    let live = game::live_children(g, k);
    assert(choice::chosen(g, k, ways) == Some(c));
    choice::lemma_pick(g, k, ways, live.len());
    assert(choice::pick(g, k, ways, live.len()) == Some(c.edge as int));
    choice::law_mean_is_over_all_ways(g, k, ways, c.edge as int);
    if choice::means_are_numbers(g, k, ways, live.len()) && choice::scores(g, k, ways, e).len()
        > 0 {
        choice::law_choice_has_the_highest_mean(g, k, ways, e);
    }
}

/// The bot gives up on a board with a filled cell in any row from the fifth to the fortieth, and on no
/// other.
pub proof fn law_high_boards_are_refused<F: Fn(Op) -> u64 + Copy>(
    a: Bot<F>,
    b: Bot<F>,
    hold: Option<u8>,
    queue: Seq<u8>,
    cells: Seq<u8>,
)
    requires
        a.starts(&b, hold, queue, cells),
        cells.len() == 400,
    ensures
        b.out_of_book <==> exists|row: int, col: int|
            4 <= row < 40 && 0 <= col < 10 && #[trigger] cells[10 * row + col] != 0,
{
    if b.out_of_book {
        let i = choose|i: int| 40 <= i < 400 && #[trigger] cell_filled(cells, i);
        let (row, col) = (i / 10, i % 10);
        assert(10 * row + col == i);
        assert(cells[10 * row + col] != 0);
    }
    assert forall|row: int, col: int|
        4 <= row < 40 && 0 <= col < 10 && #[trigger] cells[10 * row + col] != 0 implies b.out_of_book by {
        assert(cell_filled(cells, 10 * row + col));
    }
}

} // verus!
