//! The moves of the game: the fields that placements lead to, as far as the filter lets them pass.

use vstd::prelude::*;
use crate::dag::{append, EdgeSource};
use crate::graph::{MAX_HASH, TWO_LINE_HASH};
use crate::movegen;
use crate::movegen::MoveGen;
use crate::piece::Piece;
use crate::proj;
use crate::proj::{Extra, ProjFilter};
use crate::table::Table;

verus! {

/// The words below `n` with a property, ascending.
pub open spec fn words_below(f: spec_fn(u64) -> bool, n: nat) -> Seq<u64>
    decreases n,
{
    if n == 0 {
        seq![]
    } else if f((n - 1) as u64) {
        words_below(f, (n - 1) as nat).push((n - 1) as u64)
    } else {
        words_below(f, (n - 1) as nat)
    }
}

/// A field that the search goes on with: a won one, or one that may still be cleared.
pub open spec fn kept(data: Seq<u8>, extra: Seq<Extra>, c: u64) -> bool {
    c == MAX_HASH || c == TWO_LINE_HASH || proj::passes(data, extra, c)
}

/// The fields that a placement of the piece on the field leads to and that the search goes on with,
/// ascending.
pub open spec fn kept_children(data: Seq<u8>, extra: Seq<Extra>, field: u64, piece: u8) -> Seq<u64> {
    words_below(
        |c: u64| movegen::is_child(piece as int, field, c) && kept(data, extra, c),
        0x100_0000_0000,
    )
}

proof fn lemma_words_below(f: spec_fn(u64) -> bool, n: nat)
    requires
        n <= 0x100_0000_0000,
    ensures
        movegen::ascending(words_below(f, n)),
        forall|i: int| 0 <= i < words_below(f, n).len() ==> #[trigger] words_below(f, n)[i] < n,
        forall|c: u64| #[trigger] words_below(f, n).contains(c) <==> c < n && f(c),
    decreases n,
{
    if n > 0 {
        let m = (n - 1) as nat;
        lemma_words_below(f, m);
        let was = words_below(f, m);
        let now = words_below(f, n);
        assert forall|c: u64| #[trigger] now.contains(c) <==> c < n && f(c) by {
            if was.contains(c) {
                let i = choose|i: int| 0 <= i < was.len() && was[i] == c;
                assert(now[i] == c);
            }
            if now.contains(c) {
                let i = choose|i: int| 0 <= i < now.len() && now[i] == c;
                if i < was.len() {
                    assert(was[i] == c);
                    assert(was.contains(c));
                }
            }
            if c == m && f(c) {
                assert(now.last() == c);
            }
            assert(was.contains(c) <==> c < m && f(c));
        }
    }
}

/// An ascending list is known by what it holds.
proof fn lemma_ascending_unique(a: Seq<u64>, b: Seq<u64>)
    requires
        movegen::ascending(a),
        movegen::ascending(b),
        forall|k: u64| #[trigger] a.contains(k) <==> b.contains(k),
    ensures
        a == b,
    decreases a.len(),
{
    if a.len() == 0 {
        if b.len() > 0 {
            assert(b.contains(b[0]));
            assert(a.contains(b[0]));
        }
        assert(a =~= b);
    } else {
        assert(a.contains(a.last()));
        assert(b.contains(a.last()));
        assert(b.contains(b.last()));
        assert(a.contains(b.last()));
        let i = choose|i: int| 0 <= i < b.len() && b[i] == a.last();
        let j = choose|j: int| 0 <= j < a.len() && a[j] == b.last();
        assert(b[i] <= b.last());
        assert(a[j] <= a.last());
        let (x, y) = (a.drop_last(), b.drop_last());
        assert forall|k: u64| #[trigger] x.contains(k) <==> y.contains(k) by {
            if x.contains(k) {
                let t = choose|t: int| 0 <= t < x.len() && x[t] == k;
                assert(a[t] == k);
                assert(a.contains(k));
                assert(b.contains(k));
                let u = choose|u: int| 0 <= u < b.len() && b[u] == k;
                assert(y[u] == k);
            }
            if y.contains(k) {
                let t = choose|t: int| 0 <= t < y.len() && y[t] == k;
                assert(b[t] == k);
                assert(b.contains(k));
                assert(a.contains(k));
                let u = choose|u: int| 0 <= u < a.len() && a[u] == k;
                assert(x[u] == k);
            }
        }
        lemma_ascending_unique(x, y);
        assert(a =~= x.push(a.last()));
        assert(b =~= y.push(b.last()));
    }
}

/// What the kept fields are: ascending, each once, in the box, and just those that a placement
/// leads to and that the search goes on with.
pub proof fn law_kept_children(data: Seq<u8>, extra: Seq<Extra>, field: u64, piece: u8)
    ensures
        movegen::ascending(kept_children(data, extra, field, piece)),
        kept_children(data, extra, field, piece).no_duplicates(),
        forall|i: int|
            0 <= i < kept_children(data, extra, field, piece).len() ==> #[trigger] kept_children(
                data,
                extra,
                field,
                piece,
            )[i] <= MAX_HASH,
        forall|c: u64| #[trigger]
            kept_children(data, extra, field, piece).contains(c) <==> movegen::is_child(
                piece as int,
                field,
                c,
            ) && kept(data, extra, c),
{
    let f = |c: u64| movegen::is_child(piece as int, field, c) && kept(data, extra, c);
    lemma_words_below(f, 0x100_0000_0000);
    assert forall|c: u64| movegen::is_child(piece as int, field, c) implies c < 0x100_0000_0000 by {
        lemma_child_small(piece as int, field, c);
    }
}

proof fn lemma_child_small(shape: int, field: u64, c: u64)
    requires
        movegen::is_child(shape, field, c),
    ensures
        c < 0x100_0000_0000,
{
    let s = choose|s: crate::shapes::Spot| #[trigger]
        crate::shapes::lands(shape, movegen::mirrored(field), s) && c == movegen::child_of(field, s);
    movegen::lemma_mirrored_small(movegen::sunk(movegen::mirrored(field) | s.word()));
    assert(1u64 << 40 == 0x100_0000_0000) by (bit_vector);
}

/// The moves, worked out once for each field and piece.
pub struct FilteredMoves<'a> {
    pub proj: &'a ProjFilter,
    pub mg: MoveGen,
    pub memo: Table<Vec<u64>>,
}

pub open spec fn memo_word(field: u64, piece: u8) -> int {
    field * 8 + piece
}

impl<'a> FilteredMoves<'a> {
    pub fn new(proj: &'a ProjFilter) -> (r: FilteredMoves<'a>)
        requires
            proj.wf(),
        ensures
            r.wf(),
            r.proj == proj,
    {
        FilteredMoves { proj, mg: MoveGen::new(), memo: Table::new() }
    }

    /// Work out the moves.
    fn generate(&mut self, field: u64, piece: Piece) -> (list: Vec<u64>)
        requires
            old(self).wf(),
            piece < 7,
        ensures
            final(self).mg.wf(),
            final(self).proj == old(self).proj,
            final(self).memo == old(self).memo,
            list@ == kept_children(old(self).proj.data@, old(self).proj.extra@, field, piece),
    {
        let ghost (data, extra) = (self.proj.data@, self.proj.extra@);
        let mut all: Vec<u64> = Vec::new();
        self.mg.children(piece as usize, field, &mut all);
        let mut list: Vec<u64> = Vec::new();
        let mut i: usize = 0;
        while i < all.len()
            invariant
                i <= all@.len(),
                self.proj.wf(),
                self.mg.wf(),
                self.proj == old(self).proj,
                self.memo == old(self).memo,
                data == self.proj.data@,
                extra == self.proj.extra@,
                movegen::ascending(all@),
                movegen::ascending(list@),
                forall|x: int, y: int|
                    0 <= x < list@.len() && i <= y < all@.len() ==> list@[x] < all@[y],
                forall|x: int|
                    0 <= x < list@.len() ==> all@.contains(#[trigger] list@[x]) && kept(
                        data,
                        extra,
                        list@[x],
                    ),
                forall|y: int|
                    0 <= y < i && kept(data, extra, #[trigger] all@[y]) ==> list@.contains(all@[y]),
            decreases all@.len() - i,
        {
            let c: u64 = all[i];
            let ghost was = list@;
            if c == MAX_HASH || c == TWO_LINE_HASH || self.proj.maybe(c) {
                list.push(c);
                assert(list@[was.len() as int] == c);
            }
            proof {
                assert forall|y: int| 0 <= y < i + 1 && kept(data, extra, #[trigger] all@[y]) implies list@.contains(
                all@[y]) by {
                    if y < i {
                        let x = choose|x: int| 0 <= x < was.len() && was[x] == all@[y];
                        assert(list@[x] == all@[y]);
                    }
                }
            }
            i = i + 1;
        }
        proof {
            law_kept_children(data, extra, field, piece);
            let want = kept_children(data, extra, field, piece);
            assert forall|c: u64| #[trigger] list@.contains(c) <==> want.contains(c) by {
                if list@.contains(c) {
                    let x = choose|x: int| 0 <= x < list@.len() && list@[x] == c;
                    assert(all@.contains(list@[x]));
                }
                if want.contains(c) {
                    assert(all@.contains(c));
                    let y = choose|y: int| 0 <= y < all@.len() && all@[y] == c;
                    assert(list@.contains(all@[y]));
                }
            }
            lemma_ascending_unique(list@, want);
        }
        list
    }
}

impl<'a> EdgeSource for FilteredMoves<'a> {
    open spec fn wf(&self) -> bool {
        &&& self.proj.wf()
        &&& self.mg.wf()
        &&& self.memo.wf()
        &&& forall|f: u64, p: u8|
            f <= MAX_HASH && p < 7 && self.memo@.dom().contains(#[trigger] memo_word(f, p) as u64)
                ==> self.memo@[memo_word(f, p) as u64]@ == self.kids(f, p)
    }

    open spec fn kids(&self, field: u64, piece: u8) -> Seq<u64> {
        kept_children(self.proj.data@, self.proj.extra@, field, piece)
    }

    proof fn kids_fit(&self, field: u64, piece: u8) {
        law_kept_children(self.proj.data@, self.proj.extra@, field, piece);
    }

    fn fetch(&mut self, field: u64, piece: Piece, out: &mut Vec<u64>) {
        let word: u64 = field * 8 + piece as u64;
        assert(word == memo_word(field, piece));
        if let Some(list) = self.memo.get(word) {
            append(out, list);
            return;
        }
        let list = self.generate(field, piece);
        append(out, &list);
        self.memo.insert(word, list);
        proof {
            assert forall|f: u64, p: u8|
                f <= MAX_HASH && p < 7 && self.memo@.dom().contains(
                    #[trigger] memo_word(f, p) as u64,
                ) implies self.memo@[memo_word(f, p) as u64]@ == self.kids(f, p) by {
                if memo_word(f, p) == word {
                    assert(f == field && p == piece);
                } else {
                    assert(old(self).memo@.dom().contains(memo_word(f, p) as u64));
                }
            }
        }
    }
}

/// The search goes on with every field that a placement leads to and that is won or passes the
/// filter, and with no other.
pub proof fn law_search_goes_on(data: Seq<u8>, extra: Seq<Extra>, field: u64, piece: u8, c: u64)
    ensures
        movegen::is_child(piece as int, field, c) && proj::passes(data, extra, c)
            ==> kept_children(data, extra, field, piece).contains(c),
        movegen::is_child(piece as int, field, c) && (c == MAX_HASH || c == TWO_LINE_HASH)
            ==> kept_children(data, extra, field, piece).contains(c),
        kept_children(data, extra, field, piece).contains(c) ==> movegen::is_child(
            piece as int,
            field,
            c,
        ) && (c == MAX_HASH || c == TWO_LINE_HASH || proj::passes(data, extra, c)),
{
    law_kept_children(data, extra, field, piece);
}

} // verus!
