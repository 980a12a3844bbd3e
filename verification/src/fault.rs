//! Why the bot has no move, in words.

use vstd::prelude::*;
use vstd::string::StringExecFns;
use crate::bits;
use crate::piece;
use crate::piece::{push_letter, Piece};
use crate::text;
use crate::text::{push_decimal, push_number};

verus! {

/// Why the bot gave up, or what it had to mend.
#[derive(Debug)]
pub enum Fault {
    /// The queue of a resync is not what was dealt; the dealt pieces were mended.
    ResyncMismatch,
    /// The board reaches out of the box.
    AboveRowThree,
    /// The piece to place was not next.
    PieceUnavailable,
    /// The piece to place is neither due nor held.
    PieceUnknown,
    /// The board holds cells, but no loop is under way.
    NonEmptyBoard { board: u64, placed: u64 },
    /// Fewer pieces were revealed than were placed.
    Underrun { placements: u64, needed: u64, delivered: u64 },
    /// A revealed piece is not in the bag.
    BagDesync { number: u64, piece: Piece, bag: u8, dealt: u64 },
    /// The dealt pieces from `start` up to `end` are not pieces of one bag.
    Window { start: u64, end: u64, deals: Vec<Piece> },
    /// Nothing leads to a perfect clear any more.
    DeadReveal { revealed: Vec<Piece>, depth: u64, completions: u64 },
    /// No placement leads to the field that was chosen.
    NoPlacement,
    /// There is no piece to start a loop with.
    EmptyQueue,
    /// There are fewer than six pieces to start a loop with.
    FewPreviews { have: u64 },
    /// The loop cannot be won.
    Unsolvable,
}

/// A row of a field, from left to right.
pub open spec fn row_text(board: u64, r: int) -> Seq<char> {
    Seq::new(
        10,
        |c: int|
            if bits::bit(board, r * 10 + 9 - c) {
                '#'
            } else {
                '.'
            },
    )
}

/// A field, from the bottom row up.
pub open spec fn board_text(board: u64) -> Seq<char> {
    row_text(board, 0) + "/"@ + row_text(board, 1) + "/"@ + row_text(board, 2) + "/"@ + row_text(
        board,
        3,
    )
}

/// What is said of dealt pieces that are not pieces of one bag.
pub open spec fn window_text(start: nat, end: nat, deals: Seq<u8>) -> Seq<char> {
    "deals "@ + text::decimal(start) + ".."@ + text::decimal(end) + " ["@ + piece::letters(deals)
        + "] are not a 7-bag permutation"@
}

/// What is said where nothing leads to a perfect clear any more.
pub open spec fn dead_text(revealed: Seq<u8>, depth: nat, completions: nat) -> Seq<char> {
    "dead reveal: no PC continuation after ["@ + piece::letters(revealed) + "] at depth "@
        + text::decimal(depth) + " (over "@ + text::decimal(completions)
        + " reveal completion(s))"@
}

/// What is said of a fault.
pub open spec fn fault_text(f: Fault) -> Seq<char> {
    match f {
        Fault::ResyncMismatch => "resync queue mismatch; stream tail rebuilt"@,
        Fault::AboveRowThree => "board has cells above row 3"@,
        Fault::PieceUnavailable => "play: piece not available (queue desync)"@,
        Fault::PieceUnknown => "play: piece matches neither active nor hold"@,
        Fault::NonEmptyBoard { board, placed } =>
        "non-empty board without an active loop (host sent a non-empty board, or a PC completion desynced): board[r0..r3]="@
            + board_text(board) + " placed="@ + text::decimal(placed as nat),
        Fault::Underrun { placements, needed, delivered } => "reveal underrun: "@ + text::decimal(
            placements as nat,
        ) + " placements consume "@ + text::decimal(needed as nat) + " reveal(s) but only "@
            + text::decimal(delivered as nat) + " delivered"@,
        Fault::BagDesync { number, piece, bag, dealt } => "bag desync: reveal h"@ + text::decimal(
            number as nat,
        ) + "="@ + piece::letters(seq![piece]) + " not in remaining bag "@ + text::numeral(
            bag as nat,
            2,
            7,
        ) + " (boundary_dealt="@ + text::decimal(dealt as nat) + ")"@,
        Fault::Window { start, end, deals } => window_text(start as nat, end as nat, deals@),
        Fault::DeadReveal { revealed, depth, completions } => dead_text(
            revealed@,
            depth as nat,
            completions as nat,
        ),
        Fault::NoPlacement => "no physical placement reproduces the engine transition"@,
        Fault::EmptyQueue => "empty queue at boundary"@,
        Fault::FewPreviews { have } =>
        "need 6 previews beyond the engine hold at a PC boundary (have "@ + text::decimal(
            have as nat,
        ) + "); set Next pieces to 6"@,
        Fault::Unsolvable => "boundary unsolvable (root value 0)"@,
    }
}

/// The pieces that a fault names are pieces.
pub open spec fn fault_ok(f: Fault) -> bool {
    match f {
        Fault::BagDesync { piece, .. } => piece < 7,
        Fault::Window { deals, .. } => forall|i: int| 0 <= i < deals@.len() ==> deals@[i] < 7,
        Fault::DeadReveal { revealed, .. } => forall|i: int|
            0 <= i < revealed@.len() ==> revealed@[i] < 7,
        _ => true,
    }
}

fn push_row(s: &mut String, board: u64, r: u64)
    requires
        r < 4,
    ensures
        final(s)@ == old(s)@ + row_text(board, r as int),
{
    let ghost before = s@;
    proof {
        reveal_strlit("#");
        reveal_strlit(".");
    }
    let mut c: u64 = 0;
    while c < 10
        invariant
            c <= 10,
            r < 4,
            s@ =~= before + row_text(board, r as int).take(c as int),
            "#"@ == seq!['#'],
            "."@ == seq!['.'],
        decreases 10 - c,
    {
        proof {
            reveal(bits::bit);
        }
        if (board >> (r * 10 + 9 - c)) & 1 == 1 {
            s.append("#");
        } else {
            s.append(".");
        }
        c = c + 1;
    }
    assert(row_text(board, r as int).take(10) =~= row_text(board, r as int));
}

fn push_board(s: &mut String, board: u64)
    ensures
        final(s)@ == old(s)@ + board_text(board),
{
    push_row(s, board, 0);
    s.append("/");
    push_row(s, board, 1);
    s.append("/");
    push_row(s, board, 2);
    s.append("/");
    push_row(s, board, 3);
    assert(s@ =~= old(s)@ + board_text(board));
}

fn push_letters(s: &mut String, list: &Vec<Piece>)
    requires
        forall|i: int| 0 <= i < list@.len() ==> list@[i] < 7,
    ensures
        final(s)@ == old(s)@ + piece::letters(list@),
{
    let ghost before = s@;
    let ghost all = piece::letters(list@);
    let mut i: usize = 0;
    while i < list.len()
        invariant
            i <= list@.len(),
            all == piece::letters(list@),
            forall|i: int| 0 <= i < list@.len() ==> list@[i] < 7,
            s@ =~= before + all.take(i as int),
        decreases list@.len() - i,
    {
        push_letter(s, list[i]);
        i = i + 1;
    }
    assert(all.take(all.len() as int) =~= all);
}

impl Fault {
    pub fn message(&self) -> (s: String)
        requires
            fault_ok(*self),
        ensures
            s@ == fault_text(*self),
    {
        let mut s: String = String::new();
        match self {
            Fault::ResyncMismatch => {
                s.append("resync queue mismatch; stream tail rebuilt");
            },
            Fault::AboveRowThree => {
                s.append("board has cells above row 3");
            },
            Fault::PieceUnavailable => {
                s.append("play: piece not available (queue desync)");
            },
            Fault::PieceUnknown => {
                s.append("play: piece matches neither active nor hold");
            },
            Fault::NonEmptyBoard { board, placed } => {
                s.append(
                    "non-empty board without an active loop (host sent a non-empty board, or a PC completion desynced): board[r0..r3]=",
                );
                push_board(&mut s, *board);
                s.append(" placed=");
                push_decimal(&mut s, *placed);
            },
            Fault::Underrun { placements, needed, delivered } => {
                s.append("reveal underrun: ");
                push_decimal(&mut s, *placements);
                s.append(" placements consume ");
                push_decimal(&mut s, *needed);
                s.append(" reveal(s) but only ");
                push_decimal(&mut s, *delivered);
                s.append(" delivered");
            },
            Fault::BagDesync { number, piece, bag, dealt } => {
                s.append("bag desync: reveal h");
                push_decimal(&mut s, *number);
                s.append("=");
                let ghost mid = s@;
                push_letter(&mut s, *piece);
                assert(s@ =~= mid + piece::letters(seq![*piece]));
                s.append(" not in remaining bag ");
                push_number(&mut s, *bag as u64, 2, 7);
                s.append(" (boundary_dealt=");
                push_decimal(&mut s, *dealt);
                s.append(")");
            },
            Fault::Window { start, end, deals } => {
                s.append("deals ");
                push_decimal(&mut s, *start);
                s.append("..");
                push_decimal(&mut s, *end);
                s.append(" [");
                push_letters(&mut s, deals);
                s.append("] are not a 7-bag permutation");
            },
            Fault::DeadReveal { revealed, depth, completions } => {
                s.append("dead reveal: no PC continuation after [");
                push_letters(&mut s, revealed);
                s.append("] at depth ");
                push_decimal(&mut s, *depth);
                s.append(" (over ");
                push_decimal(&mut s, *completions);
                s.append(" reveal completion(s))");
            },
            Fault::NoPlacement => {
                s.append("no physical placement reproduces the engine transition");
            },
            Fault::EmptyQueue => {
                s.append("empty queue at boundary");
            },
            Fault::FewPreviews { have } => {
                s.append("need 6 previews beyond the engine hold at a PC boundary (have ");
                push_decimal(&mut s, *have);
                s.append("); set Next pieces to 6");
            },
            Fault::Unsolvable => {
                s.append("boundary unsolvable (root value 0)");
            },
        }
        assert(s@ =~= fault_text(*self));
        s
    }
}

} // verus!
