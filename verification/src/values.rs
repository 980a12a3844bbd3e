//! Boundary states and what they are worth. A boundary state is a hold, a bag and the six pieces
//! to come; its key is `hold << 24 | bag << 17 | queue`, with the queue in base seven, first piece
//! lowest.

use vstd::prelude::*;
use vstd::string::StringExecFns;
use crate::bytes;
use crate::bytes::{has_magic, read_little};
use crate::hidden;
use crate::piece;
use crate::piece::{after_reveal, has, pieces, Piece};
use crate::score;
use crate::score::{ask, Contribution, Op, ONE};
use crate::table::Table;
use crate::text;
use crate::text::push_decimal;

verus! {

/* ---- keys ---- */

/// A queue in base seven, first piece lowest.
pub open spec fn base7(queue: Seq<u8>) -> nat
    decreases queue.len(),
{
    if queue.len() == 0 {
        0
    } else {
        queue[0] as nat + 7 * base7(queue.drop_first())
    }
}

/// The key of a boundary state.
pub open spec fn state_key(hold: u8, bag: u8, queue: Seq<u8>) -> int {
    hold * 16777216 + bag * 131072 + base7(queue)
}

/// The word that is looked up for any hold, bag and queue: the parts of a key, laid over each other.
pub open spec fn key_word(hold: u8, bag: u8, queue: Seq<u8>) -> u32 {
    ((hold as u32) << 24) | ((bag as u32) << 17) | (base7(queue) as u32)
}

pub open spec fn pow7(n: nat) -> nat
    decreases n,
{
    if n == 0 {
        1
    } else {
        7 * pow7((n - 1) as nat)
    }
}

proof fn lemma_pow7()
    ensures
        pow7(0) == 1,
        pow7(1) == 7,
        pow7(2) == 49,
        pow7(3) == 343,
        pow7(4) == 2401,
        pow7(5) == 16807,
        pow7(6) == 117649,
{
    reveal_with_fuel(pow7, 8);
}

proof fn lemma_base7_bound(queue: Seq<u8>)
    requires
        forall|i: int| 0 <= i < queue.len() ==> queue[i] < 7,
    ensures
        base7(queue) < pow7(queue.len()),
    decreases queue.len(),
{
    if queue.len() > 0 {
        lemma_base7_bound(queue.drop_first());
        assert(queue[0] < 7);
    }
}

/// The same for any bytes.
proof fn lemma_base7_wide(queue: Seq<u8>)
    ensures
        6 * base7(queue) <= 255 * (pow7(queue.len()) - 1),
    decreases queue.len(),
{
    if queue.len() > 0 {
        lemma_base7_wide(queue.drop_first());
    }
}

/// Where the parts have room, the word is the key.
pub proof fn lemma_key_word(hold: u8, bag: u8, queue: Seq<u8>)
    requires
        bag < 128,
        queue.len() == 6,
        forall|i: int| 0 <= i < 6 ==> queue[i] < 7,
    ensures
        key_word(hold, bag, queue) == state_key(hold, bag, queue),
{
    lemma_pow7();
    lemma_base7_bound(queue);
    let q = base7(queue) as u32;
    assert((((hold as u32) << 24) | ((bag as u32) << 17)) | q == (hold as u32) * 16777216 + (
    bag as u32) * 131072 + q) by (bit_vector)
        requires
            bag < 128,
            q < 131072,
    ;
}

/// One more piece behind the queue.
proof fn lemma_base7_push(queue: Seq<u8>, p: u8)
    ensures
        base7(queue.push(p)) == base7(queue) + p * pow7(queue.len()),
    decreases queue.len(),
{
    reveal_with_fuel(base7, 3);
    let t = queue.push(p);
    if queue.len() == 0 {
        assert(t.drop_first() =~= Seq::<u8>::empty());
        assert(p * pow7(0) == p) by (nonlinear_arith)
            requires
                pow7(0) == 1,
        ;
    } else {
        assert(t.drop_first() =~= queue.drop_first().push(p));
        lemma_base7_push(queue.drop_first(), p);
        let w = pow7((queue.len() - 1) as nat);
        assert(pow7(queue.len()) == 7 * w);
        assert(7 * (p * w) == p * (7 * w)) by (nonlinear_arith);
    }
}

/// A key of a boundary state fits a word, and is the word that is looked up.
pub proof fn lemma_state_key(hold: u8, bag: u8, queue: Seq<u8>)
    requires
        chain_state(hold, bag, queue),
    ensures
        0 <= state_key(hold, bag, queue) < 0x1_0000_0000,
        key_word(hold, bag, queue) == state_key(hold, bag, queue),
{
    let k = piece::pieces_of(bag).len() - 1;
    piece::lemma_pieces_some(bag);
    assert forall|i: int| 0 <= i < queue.len() implies queue[i] < 7 by {
        if i < k {
            assert(queue.take(k)[i] < 7);
        } else {
            assert(queue.skip(k)[i - k] < 7);
        }
    }
    lemma_pow7();
    lemma_base7_bound(queue);
    lemma_key_word(hold, bag, queue);
}

/// The key of a boundary state.
pub fn boundary_key(hold: Piece, queue6: [Piece; 6], bag_mask: u8) -> (key: u32)
    ensures
        key == key_word(hold, bag_mask, queue6@),
        bag_mask < 128 && (forall|i: int| 0 <= i < 6 ==> queue6@[i] < 7) ==> key == state_key(
            hold,
            bag_mask,
            queue6@,
        ),
{
    let mut q: u32 = 0;
    let mut mul: u32 = 1;
    let mut i: usize = 0;
    while i < 6
        invariant
            i <= 6,
            q == base7(queue6@.take(i as int)),
            mul == pow7(i as nat),
        decreases 6 - i,
    {
        proof {
            lemma_pow7();
            let head = queue6@.take(i as int);
            lemma_base7_push(head, queue6@[i as int]);
            lemma_base7_wide(head);
            assert(queue6@.take(i + 1) =~= head.push(queue6@[i as int]));
            assert(pow7((i + 1) as nat) == 7 * mul);
            let d = queue6@[i as int];
            assert(d * mul <= 255 * mul) by (nonlinear_arith)
                requires
                    d <= 255,
                    mul >= 0,
            ;
            assert(i == 0 || i == 1 || i == 2 || i == 3 || i == 4 || i == 5);
        }
        q = q + queue6[i] as u32 * mul;
        mul = mul * 7;
        i = i + 1;
    }
    assert(queue6@.take(6) =~= queue6@);
    proof {
        if bag_mask < 128 && (forall|k: int| 0 <= k < 6 ==> queue6@[k] < 7) {
            lemma_key_word(hold, bag_mask, queue6@);
        }
    }
    ((hold as u32) << 24) | ((bag_mask as u32) << 17) | q
}

/* ---- all keys ---- */

/// Different pieces in a row.
pub open spec fn arrangement(s: Seq<u8>) -> bool {
    &&& forall|i: int| 0 <= i < s.len() ==> s[i] < 7
    &&& s.no_duplicates()
}

/// A boundary state that the bags can bring about: the pieces before the end of the bag that the
/// queue starts in are different, and those after it are what that bag has dealt.
pub open spec fn chain_state(hold: u8, bag: u8, queue: Seq<u8>) -> bool {
    let k = piece::pieces_of(bag).len() - 1;
    &&& hold < 7
    &&& piece::bag(bag)
    &&& queue.len() == 6
    &&& arrangement(queue.take(k))
    &&& arrangement(queue.skip(k))
    &&& forall|i: int| k <= i < 6 ==> !piece::in_bag(bag, #[trigger] queue[i] as int)
}

/// A key of such a state.
pub open spec fn chain_key(key: u32) -> bool {
    exists|bag: u8| #[trigger] bag_key(bag, key)
}

/// A key of such a state with the bag given.
pub open spec fn bag_key(bag: u8, key: u32) -> bool {
    exists|hold: u8, queue: Seq<u8>| #[trigger]
        chain_state(hold, bag, queue) && key == state_key(hold, bag, queue)
}

/// Each key is above the one before it.
pub open spec fn ascending(keys: Seq<u32>) -> bool {
    forall|i: int, j: int| 0 <= i < j < keys.len() ==> keys[i] < keys[j]
}

/// `len` different pieces of the mask that begin with `cur`.
pub open spec fn arranged(s: Seq<u8>, mask: u8, len: nat, cur: Seq<u8>) -> bool {
    &&& s.len() == len
    &&& cur.len() <= len
    &&& s.take(cur.len() as int) == cur
    &&& arrangement(s)
    &&& forall|i: int| 0 <= i < s.len() ==> piece::in_bag(mask, #[trigger] s[i] as int)
}

pub open spec fn lists(out: Seq<Vec<u8>>, s: Seq<u8>) -> bool {
    exists|i: int| 0 <= i < out.len() && #[trigger] out[i]@ == s
}

fn holds(cur: &Vec<u8>, p: u8) -> (r: bool)
    ensures
        r == cur@.contains(p),
{
    let mut i: usize = 0;
    while i < cur.len()
        invariant
            i <= cur@.len(),
            forall|k: int| 0 <= k < i ==> cur@[k] != p,
        decreases cur@.len() - i,
    {
        if cur[i] == p {
            return true;
        }
        i = i + 1;
    }
    false
}

fn copy_of(cur: &Vec<u8>) -> (r: Vec<u8>)
    ensures
        r@ == cur@,
{
    let mut out: Vec<u8> = Vec::new();
    let mut i: usize = 0;
    while i < cur.len()
        invariant
            i <= cur@.len(),
            out@ == cur@.take(i as int),
        decreases cur@.len() - i,
    {
        out.push(cur[i]);
        i = i + 1;
    }
    assert(cur@.take(cur@.len() as int) =~= cur@);
    out
}

/// List all arrangements of `len` pieces of the mask that begin with `cur`.
fn gen_arrangements(mask: u8, len: usize, cur: &mut Vec<u8>, out: &mut Vec<Vec<u8>>)
    requires
        old(cur)@.len() <= len,
        arrangement(old(cur)@),
        forall|i: int| 0 <= i < old(cur)@.len() ==> piece::in_bag(mask, #[trigger] old(cur)@[i] as int),
    ensures
        final(cur)@ == old(cur)@,
        forall|s: Seq<u8>| #[trigger]
            lists(final(out)@, s) <==> lists(old(out)@, s) || arranged(
                s,
                mask,
                len as nat,
                old(cur)@,
            ),
    decreases len - old(cur)@.len(),
{
    let ghost head = cur@;
    let ghost before = out@;
    if cur.len() == len {
        let row = copy_of(cur);
        out.push(row);
        proof {
            assert forall|s: Seq<u8>| #[trigger] lists(out@, s) <==> lists(before, s) || arranged(
                s,
                mask,
                len as nat,
                head,
            ) by {
                if arranged(s, mask, len as nat, head) {
                    assert(s =~= s.take(head.len() as int));
                    assert(out@[before.len() as int]@ == s);
                }
                if lists(before, s) {
                    let i = choose|i: int| 0 <= i < before.len() && #[trigger] before[i]@ == s;
                    assert(out@[i]@ == s);
                }
                if lists(out@, s) {
                    let i = choose|i: int| 0 <= i < out@.len() && #[trigger] out@[i]@ == s;
                    if i < before.len() {
                        assert(before[i]@ == s);
                    } else {
                        assert(s =~= s.take(head.len() as int));
                    }
                }
            }
        }
        return;
    }
    let mut p: u8 = 0;
    while p < 7
        invariant
            p <= 7,
            cur@ == head,
            head == old(cur)@,
            head.len() < len,
            arrangement(head),
            forall|i: int| 0 <= i < head.len() ==> piece::in_bag(mask, #[trigger] head[i] as int),
            forall|s: Seq<u8>| #[trigger]
                lists(out@, s) <==> lists(before, s) || (arranged(s, mask, len as nat, head)
                    && s[head.len() as int] < p),
        decreases 7 - p,
    {
        let ghost mid = out@;
        if has(mask, p) && !holds(cur, p) {
            cur.push(p);
            let ghost longer = head.push(p);
            proof {
                assert forall|i: int| 0 <= i < longer.len() implies piece::in_bag(
                    mask,
                    #[trigger] longer[i] as int,
                ) by {
                    if i < head.len() {
                        assert(longer[i] == head[i]);
                    }
                }
                assert(arrangement(longer));
            }
            gen_arrangements(mask, len, cur, out);
            cur.pop();
            assert(cur@ =~= head);
            proof {
                assert forall|s: Seq<u8>| #[trigger] lists(out@, s) <==> lists(before, s) || (
                arranged(s, mask, len as nat, head) && s[head.len() as int] < p + 1) by {
                    assert(lists(mid, s) || !lists(mid, s));
                    if s.len() == len {
                        assert(s.take(longer.len() as int) =~= s.take(head.len() as int).push(
                            s[head.len() as int],
                        ));
                        if s.take(longer.len() as int) == longer {
                            assert(s.take(longer.len() as int)[head.len() as int] == p);
                            assert(s.take(head.len() as int) =~= longer.take(head.len() as int));
                            assert(longer.take(head.len() as int) =~= head);
                        }
                    }
                }
            }
        } else {
            proof {
                assert forall|s: Seq<u8>| arranged(s, mask, len as nat, head) implies s[head.len() as int]
                    != p by {
                    if s[head.len() as int] == p {
                        assert(piece::in_bag(mask, s[head.len() as int] as int));
                        let k = choose|k: int| 0 <= k < head.len() && head[k] == p;
                        assert(s.take(head.len() as int)[k] == s[k]);
                        assert(s[k] == s[head.len() as int]);
                    }
                }
                assert forall|s: Seq<u8>| #[trigger] lists(out@, s) <==> lists(before, s) || (
                arranged(s, mask, len as nat, head) && s[head.len() as int] < p + 1) by {
                    assert(lists(mid, s) || !lists(mid, s));
                }
            }
        }
        p = p + 1;
    }
    proof {
        assert forall|s: Seq<u8>| #[trigger] lists(out@, s) <==> lists(before, s) || arranged(
            s,
            mask,
            len as nat,
            head,
        ) by {
            if arranged(s, mask, len as nat, head) {
                assert(s[head.len() as int] < 7);
            }
        }
    }
}

/// Two ascending lists as one.
fn merge(a: &Vec<u32>, b: &Vec<u32>) -> (r: Vec<u32>)
    requires
        ascending(a@),
        ascending(b@),
    ensures
        ascending(r@),
        forall|k: u32| #[trigger] r@.contains(k) <==> a@.contains(k) || b@.contains(k),
{
    let mut out: Vec<u32> = Vec::new();
    let mut i: usize = 0;
    let mut j: usize = 0;
    while i < a.len() || j < b.len()
        invariant
            i <= a@.len(),
            j <= b@.len(),
            ascending(a@),
            ascending(b@),
            ascending(out@),
            forall|x: int, y: int| 0 <= x < out@.len() && i <= y < a@.len() ==> out@[x] < a@[y],
            forall|x: int, y: int| 0 <= x < out@.len() && j <= y < b@.len() ==> out@[x] < b@[y],
            forall|x: int| 0 <= x < i ==> out@.contains(#[trigger] a@[x]),
            forall|x: int| 0 <= x < j ==> out@.contains(#[trigger] b@[x]),
            forall|x: int|
                0 <= x < out@.len() ==> a@.contains(#[trigger] out@[x]) || b@.contains(out@[x]),
        decreases a@.len() - i + b@.len() - j,
    {
        let ghost was = out@;
        if j >= b.len() || (i < a.len() && a[i] < b[j]) {
            let v: u32 = a[i];
            out.push(v);
            proof {
                assert(a@[i as int] == v);
                assert(out@[was.len() as int] == v);
            }
            i = i + 1;
        } else if i >= a.len() || b[j] < a[i] {
            let v: u32 = b[j];
            out.push(v);
            proof {
                assert(b@[j as int] == v);
                assert(out@[was.len() as int] == v);
            }
            j = j + 1;
        } else {
            let v: u32 = a[i];
            out.push(v);
            proof {
                assert(a@[i as int] == v);
                assert(out@[was.len() as int] == v);
            }
            i = i + 1;
            j = j + 1;
        }
        proof {
            assert forall|x: int| 0 <= x < i implies out@.contains(#[trigger] a@[x]) by {
                if was.contains(a@[x]) {
                    let k = choose|k: int| 0 <= k < was.len() && was[k] == a@[x];
                    assert(out@[k] == a@[x]);
                }
            }
            assert forall|x: int| 0 <= x < j implies out@.contains(#[trigger] b@[x]) by {
                if was.contains(b@[x]) {
                    let k = choose|k: int| 0 <= k < was.len() && was[k] == b@[x];
                    assert(out@[k] == b@[x]);
                }
            }
            assert forall|x: int| 0 <= x < out@.len() implies a@.contains(#[trigger] out@[x])
                || b@.contains(out@[x]) by {
                if x < was.len() {
                    assert(out@[x] == was[x]);
                }
            }
        }
    }
    proof {
        assert forall|k: u32| #[trigger] out@.contains(k) <==> a@.contains(k) || b@.contains(
            k,
        ) by {
            if out@.contains(k) {
                let x = choose|x: int| 0 <= x < out@.len() && out@[x] == k;
                assert(a@.contains(out@[x]) || b@.contains(out@[x]));
            }
        }
    }
    out
}

/// The keys from `lo` to `hi`, each once, ascending.
fn sorted_part(keys: &Vec<u32>, lo: usize, hi: usize) -> (r: Vec<u32>)
    requires
        lo <= hi <= keys@.len(),
    ensures
        ascending(r@),
        forall|k: u32| #[trigger]
            r@.contains(k) <==> exists|i: int| lo <= i < hi && #[trigger] keys@[i] == k,
    decreases hi - lo,
{
    if hi - lo < 2 {
        let mut out: Vec<u32> = Vec::new();
        if lo < hi {
            out.push(keys[lo]);
            assert(out@[0] == keys@[lo as int]);
        }
        return out;
    }
    let mid: usize = lo + (hi - lo) / 2;
    let a = sorted_part(keys, lo, mid);
    let b = sorted_part(keys, mid, hi);
    let r = merge(&a, &b);
    proof {
        assert forall|k: u32| #[trigger] r@.contains(k) <==> exists|i: int|
            lo <= i < hi && #[trigger] keys@[i] == k by {
            if exists|i: int| lo <= i < hi && #[trigger] keys@[i] == k {
                let i = choose|i: int| lo <= i < hi && #[trigger] keys@[i] == k;
                assert(i < mid ==> a@.contains(k));
                assert(i >= mid ==> b@.contains(k));
            }
        }
    }
    r
}

/// Two parts of a queue.
spec fn joined(pre: Seq<Vec<u8>>, suf: Seq<Vec<u8>>, a: int, b: int) -> Seq<u8> {
    pre[a]@ + suf[b]@
}

/// A key with one of the first queues.
spec fn made(
    bag: u8,
    pre: Seq<Vec<u8>>,
    suf: Seq<Vec<u8>>,
    i: int,
    j: int,
    key: u32,
) -> bool {
    exists|hold: u8, a: int, b: int|
        hold < 7 && 0 <= a < pre.len() && 0 <= b < suf.len() && (a < i || (a == i && b < j)) && key
            == #[trigger] state_key(hold, bag, joined(pre, suf, a, b))
}

/// Add the keys of one queue, with every hold.
fn push_holds(bag: u8, queue: [u8; 6], keys: &mut Vec<u32>)
    requires
        forall|i: int| 0 <= i < 6 ==> queue@[i] < 7,
        bag < 128,
    ensures
        forall|k: u32| #[trigger]
            final(keys)@.contains(k) <==> old(keys)@.contains(k) || exists|hold: u8|
                hold < 7 && k == #[trigger] state_key(hold, bag, queue@),
{
    let ghost before = keys@;
    let mut hold: u8 = 0;
    while hold < 7
        invariant
            hold <= 7,
            forall|i: int| 0 <= i < 6 ==> queue@[i] < 7,
            bag < 128,
            forall|k: u32| #[trigger]
                keys@.contains(k) <==> before.contains(k) || exists|h: u8|
                    h < hold && k == #[trigger] state_key(h, bag, queue@),
        decreases 7 - hold,
    {
        let ghost was = keys@;
        let key: u32 = boundary_key(hold, queue, bag);
        keys.push(key);
        proof {
            assert forall|k: u32| #[trigger] keys@.contains(k) <==> before.contains(k) || exists|
                h: u8,
            |
                h < hold + 1 && k == #[trigger] state_key(h, bag, queue@) by {
                if was.contains(k) {
                    let x = choose|x: int| 0 <= x < was.len() && was[x] == k;
                    assert(keys@[x] == k);
                }
                if k == key {
                    assert(keys@[was.len() as int] == k);
                    assert(k == state_key(hold, bag, queue@));
                }
                if keys@.contains(k) && k != key {
                    let x = choose|x: int| 0 <= x < keys@.len() && keys@[x] == k;
                    assert(was[x] == k);
                    assert(was.contains(k));
                }
            }
        }
        hold = hold + 1;
    }
}

/// Two rows as one queue.
fn join(a: &Vec<u8>, b: &Vec<u8>) -> (q: [u8; 6])
    requires
        a@.len() + b@.len() == 6,
    ensures
        q@ == a@ + b@,
{
    let mut q: [u8; 6] = [0u8; 6];
    let mut i: usize = 0;
    while i < a.len()
        invariant
            i <= a@.len(),
            a@.len() <= 6,
            forall|k: int| 0 <= k < i ==> q@[k] == a@[k],
        decreases a@.len() - i,
    {
        q[i] = a[i];
        i = i + 1;
    }
    let mut j: usize = 0;
    while j < b.len()
        invariant
            j <= b@.len(),
            a@.len() + b@.len() == 6,
            forall|k: int| 0 <= k < a@.len() ==> q@[k] == a@[k],
            forall|k: int| 0 <= k < j ==> q@[a@.len() + k] == b@[k],
        decreases b@.len() - j,
    {
        q[a.len() + j] = b[j];
        j = j + 1;
    }
    assert(q@ =~= a@ + b@);
    q
}

proof fn lemma_complement(bag: u8, p: int)
    requires
        bag < 128,
        0 <= p < 7,
    ensures
        piece::in_bag(127 ^ bag, p) == !piece::in_bag(bag, p),
{
    reveal(piece::in_bag);
    let k: u8 = p as u8;
    assert(((127u8 ^ bag) & (1u8 << k) != 0) == !(bag & (1u8 << k) != 0)) by (bit_vector)
        requires
            bag < 128,
            k < 7,
    ;
}

/// Add the keys of all states with the bag given.
fn push_bag(bag: u8, keys: &mut Vec<u32>)
    requires
        piece::bag(bag),
    ensures
        forall|k: u32| #[trigger]
            final(keys)@.contains(k) <==> old(keys)@.contains(k) || bag_key(bag, k),
{
    let ghost before = keys@;
    let k: usize = pieces(bag).len();
    proof {
        piece::lemma_pieces_some(bag);
        piece::lemma_after_has(127, 0, 1);
    }
    let mut none: Vec<u8> = Vec::new();
    let mut pre: Vec<Vec<u8>> = Vec::new();
    gen_arrangements(127, k - 1, &mut none, &mut pre);
    let mut suf: Vec<Vec<u8>> = Vec::new();
    gen_arrangements(127 ^ bag, 7 - k, &mut none, &mut suf);
    proof {
        assert forall|a: int| 0 <= a < pre@.len() implies arrangement(#[trigger] pre@[a]@)
            && pre@[a]@.len() == k - 1 by {
            assert(lists(pre@, pre@[a]@));
        }
        assert forall|b: int| 0 <= b < suf@.len() implies arranged(
            #[trigger] suf@[b]@,
            127 ^ bag,
            (7 - k) as nat,
            Seq::empty(),
        ) by {
            assert(lists(suf@, suf@[b]@));
        }
    }
    let mut i: usize = 0;
    while i < pre.len()
        invariant
            i <= pre@.len(),
            1 <= k <= 7,
            piece::bag(bag),
            forall|a: int|
                0 <= a < pre@.len() ==> arrangement(#[trigger] pre@[a]@) && pre@[a]@.len() == k - 1,
            forall|b: int|
                0 <= b < suf@.len() ==> arranged(
                    #[trigger] suf@[b]@,
                    127 ^ bag,
                    (7 - k) as nat,
                    Seq::empty(),
                ),
            forall|key: u32| #[trigger]
                keys@.contains(key) <==> before.contains(key) || made(
                    bag,
                    pre@,
                    suf@,
                    i as int,
                    0,
                    key,
                ),
        decreases pre@.len() - i,
    {
        let mut j: usize = 0;
        while j < suf.len()
            invariant
                i < pre@.len(),
                j <= suf@.len(),
                1 <= k <= 7,
                piece::bag(bag),
                forall|a: int|
                    0 <= a < pre@.len() ==> arrangement(#[trigger] pre@[a]@) && pre@[a]@.len() == k
                        - 1,
                forall|b: int|
                    0 <= b < suf@.len() ==> arranged(
                        #[trigger] suf@[b]@,
                        127 ^ bag,
                        (7 - k) as nat,
                        Seq::empty(),
                    ),
                forall|key: u32| #[trigger]
                    keys@.contains(key) <==> before.contains(key) || made(
                        bag,
                        pre@,
                        suf@,
                        i as int,
                        j as int,
                        key,
                    ),
            decreases suf@.len() - j,
        {
            let ghost was = keys@;
            let queue = join(&pre[i], &suf[j]);
            proof {
                assert(arrangement(pre@[i as int]@));
                assert(arrangement(suf@[j as int]@));
                assert(queue@ == joined(pre@, suf@, i as int, j as int));
            }
            push_holds(bag, queue, keys);
            proof {
                assert forall|key: u32| #[trigger] keys@.contains(key) <==> before.contains(key)
                    || made(bag, pre@, suf@, i as int, j + 1, key) by {
                    assert(was.contains(key) || !was.contains(key));
                }
            }
            j = j + 1;
        }
        proof {
            assert forall|key: u32| #[trigger] keys@.contains(key) <==> before.contains(key)
                || made(bag, pre@, suf@, i + 1, 0, key) by {}
        }
        i = i + 1;
    }
    proof {
        assert forall|key: u32| #[trigger] keys@.contains(key) <==> before.contains(key)
            || bag_key(bag, key) by {
            if made(bag, pre@, suf@, pre@.len() as int, 0, key) {
                let (hold, a, b) = choose|hold: u8, a: int, b: int|
                    hold < 7 && 0 <= a < pre@.len() && 0 <= b < suf@.len() && (a < pre@.len() || (a
                        == pre@.len() && b < 0)) && key == #[trigger] state_key(
                        hold,
                        bag,
                        joined(pre@, suf@, a, b),
                    );
                let queue = joined(pre@, suf@, a, b);
                let m = k - 1;
                assert(arrangement(pre@[a]@) && arrangement(suf@[b]@));
                assert(queue.take(m) =~= pre@[a]@);
                assert(queue.skip(m) =~= suf@[b]@);
                assert forall|x: int| m <= x < 6 implies !piece::in_bag(
                    bag,
                    #[trigger] queue[x] as int,
                ) by {
                    assert(queue[x] == suf@[b]@[x - m]);
                    assert(piece::in_bag(127 ^ bag, suf@[b]@[x - m] as int));
                    lemma_complement(bag, queue[x] as int);
                }
                assert(chain_state(hold, bag, queue));
            }
            if bag_key(bag, key) {
                let (hold, queue) = choose|hold: u8, queue: Seq<u8>| #[trigger]
                    chain_state(hold, bag, queue) && key == state_key(hold, bag, queue);
                let m = k - 1;
                let (x, y) = (queue.take(m), queue.skip(m));
                assert forall|t: int| 0 <= t < x.len() implies piece::in_bag(
                    127,
                    #[trigger] x[t] as int,
                ) by {
                    piece::lemma_after_has(127, 0, x[t] as int);
                }
                assert(x.take(0) =~= Seq::<u8>::empty());
                assert(arranged(x, 127, m as nat, Seq::empty()));
                assert(lists(pre@, x));
                assert forall|t: int| 0 <= t < y.len() implies piece::in_bag(
                    127 ^ bag,
                    #[trigger] y[t] as int,
                ) by {
                    assert(y[t] == queue[t + m]);
                    lemma_complement(bag, y[t] as int);
                }
                assert(y.take(0) =~= Seq::<u8>::empty());
                assert(arranged(y, 127 ^ bag, (7 - k) as nat, Seq::empty()));
                assert(lists(suf@, y));
                let a = choose|a: int| 0 <= a < pre@.len() && #[trigger] pre@[a]@ == x;
                let b = choose|b: int| 0 <= b < suf@.len() && #[trigger] suf@[b]@ == y;
                assert(joined(pre@, suf@, a, b) =~= queue);
                assert(key == state_key(hold, bag, joined(pre@, suf@, a, b)));
            }
        }
    }
}

/// All keys of boundary states that the bags can bring about, ascending.
pub fn enumerate_sorted_keys() -> (r: Vec<u32>)
    ensures
        ascending(r@),
        forall|k: u32| #[trigger] r@.contains(k) <==> chain_key(k),
{
    let mut keys: Vec<u32> = Vec::new();
    let mut bag: u8 = 1;
    while bag < 128
        invariant
            1 <= bag <= 128,
            forall|k: u32| #[trigger]
                keys@.contains(k) <==> exists|b: u8| b < bag && #[trigger] bag_key(b, k),
        decreases 128 - bag,
    {
        let ghost was = keys@;
        push_bag(bag, &mut keys);
        proof {
            assert forall|k: u32| #[trigger] keys@.contains(k) <==> exists|b: u8|
                b < bag + 1 && #[trigger] bag_key(b, k) by {
                assert(was.contains(k) || !was.contains(k));
            }
        }
        bag = bag + 1;
    }
    let n: usize = keys.len();
    let r = sorted_part(&keys, 0, n);
    proof {
        assert forall|k: u32| #[trigger] r@.contains(k) <==> chain_key(k) by {
            if keys@.contains(k) {
                let i = choose|i: int| 0 <= i < keys@.len() && keys@[i] == k;
                assert(keys@[i] == k);
            }
            if r@.contains(k) {
                let i = choose|i: int| 0 <= i < n && #[trigger] keys@[i] == k;
                assert(keys@.contains(k));
            }
            if chain_key(k) {
                let b = choose|b: u8| #[trigger] bag_key(b, k);
                assert(b < 128);
            }
        }
    }
    r
}

/// The keys of boundary states below `n`, ascending.
pub open spec fn keys_below(n: nat) -> Seq<u32>
    decreases n,
{
    if n == 0 {
        seq![]
    } else if chain_key((n - 1) as u32) {
        keys_below((n - 1) as nat).push((n - 1) as u32)
    } else {
        keys_below((n - 1) as nat)
    }
}

/// The list of all keys.
pub open spec fn key_list() -> Seq<u32> {
    keys_below(0x1_0000_0000)
}

/// The list of all keys is ascending and holds every key.
pub proof fn law_key_list()
    ensures
        ascending(key_list()),
        forall|k: u32| #[trigger] key_list().contains(k) <==> chain_key(k),
{
    lemma_keys_below(0x1_0000_0000);
}

proof fn lemma_keys_below(n: nat)
    requires
        n <= 0x1_0000_0000,
    ensures
        ascending(keys_below(n)),
        forall|i: int| 0 <= i < keys_below(n).len() ==> #[trigger] keys_below(n)[i] < n,
        forall|k: u32| #[trigger] keys_below(n).contains(k) <==> k < n && chain_key(k),
    decreases n,
{
    if n > 0 {
        let m = (n - 1) as nat;
        lemma_keys_below(m);
        let was = keys_below(m);
        let now = keys_below(n);
        assert forall|k: u32| #[trigger] now.contains(k) <==> k < n && chain_key(k) by {
            if was.contains(k) {
                let i = choose|i: int| 0 <= i < was.len() && was[i] == k;
                assert(now[i] == k);
            }
            if now.contains(k) {
                let i = choose|i: int| 0 <= i < now.len() && now[i] == k;
                if i < was.len() {
                    assert(was[i] == k);
                    assert(was.contains(k));
                }
            }
            if k == m && chain_key(k) {
                assert(now.last() == k);
            }
            assert(was.contains(k) <==> k < m && chain_key(k));
        }
    }
}

/// An ascending list is known by what it holds.
proof fn lemma_ascending_unique(a: Seq<u32>, b: Seq<u32>)
    requires
        ascending(a),
        ascending(b),
        forall|k: u32| #[trigger] a.contains(k) <==> b.contains(k),
    ensures
        a == b,
    decreases a.len(),
{
    if a.len() == 0 {
        if b.len() > 0 {
            assert(b.contains(b[0]));
            assert(a.contains(b[0]));
        }
        assert(a =~= b);
    } else {
        assert(a.contains(a.last()));
        assert(b.contains(a.last()));
        assert(b.contains(b.last()));
        assert(a.contains(b.last()));
        let i = choose|i: int| 0 <= i < b.len() && b[i] == a.last();
        let j = choose|j: int| 0 <= j < a.len() && a[j] == b.last();
        assert(b[i] <= b.last());
        assert(a[j] <= a.last());
        let (x, y) = (a.drop_last(), b.drop_last());
        assert forall|k: u32| #[trigger] x.contains(k) <==> y.contains(k) by {
            if x.contains(k) {
                let t = choose|t: int| 0 <= t < x.len() && x[t] == k;
                assert(a[t] == k);
                assert(a.contains(k));
                assert(b.contains(k));
                let u = choose|u: int| 0 <= u < b.len() && b[u] == k;
                assert(y[u] == k);
            }
            if y.contains(k) {
                let t = choose|t: int| 0 <= t < y.len() && y[t] == k;
                assert(b[t] == k);
                assert(b.contains(k));
                assert(a.contains(k));
                let u = choose|u: int| 0 <= u < a.len() && a[u] == k;
                assert(x[u] == k);
            }
        }
        lemma_ascending_unique(x, y);
        assert(a =~= x.push(a.last()));
        assert(b =~= y.push(b.last()));
    }
}

/* ---- the table ---- */

/// `L0U16V1` and a zero: keyed counts.
pub const COUNT_MAGIC: [u8; 8] = [0x4C, 0x30, 0x55, 0x31, 0x36, 0x56, 0x31, 0];

/// `L0F32V1` and a zero: keyed values.
pub const VALUE_MAGIC: [u8; 8] = [0x4C, 0x30, 0x46, 0x33, 0x32, 0x56, 0x31, 0];

/// `L0Q12V1` and a zero: steps of twelve bits for all keys in order.
pub const STEP_MAGIC: [u8; 8] = [0x4C, 0x30, 0x51, 0x31, 0x32, 0x56, 0x31, 0];

/// Why a blob is no value table.
#[derive(Clone, Copy, Debug, PartialEq, Eq, Structural)]
pub enum TableError {
    /// The blob ends inside its header.
    TooShort,
    /// Keyed counts: the blob has another length than its records take.
    CountSize { bytes: u64, records: u64 },
    /// Keyed values: the blob has another length than its records take.
    ValueSize { bytes: u64, records: u64 },
    /// Steps: the blob has another length than its steps take.
    StepSize { bytes: u64, values: u64 },
    /// Steps: there are more keys than steps, or fewer.
    KeyCount { values: u64, keys: u64 },
    /// The blob begins with none of the known magics.
    UnknownMagic,
}

/// What the error says.
pub open spec fn table_error_text(e: TableError) -> Seq<char> {
    match e {
        TableError::TooShort => "value table too short"@,
        TableError::CountSize { bytes, records } => "u16 value table size mismatch: "@
            + text::decimal(bytes as nat) + " bytes for "@ + text::decimal(records as nat)
            + " records"@,
        TableError::ValueSize { bytes, records } => "f32 value table size mismatch: "@
            + text::decimal(bytes as nat) + " bytes for "@ + text::decimal(records as nat)
            + " records"@,
        TableError::StepSize { bytes, values } => "q12 size mismatch: "@ + text::decimal(
            bytes as nat,
        ) + " bytes for "@ + text::decimal(values as nat) + " values"@,
        TableError::KeyCount { values, keys } => "q12 count "@ + text::decimal(values as nat)
            + " != enumerated key count "@ + text::decimal(keys as nat),
        TableError::UnknownMagic => "unknown value table magic"@,
    }
}

impl TableError {
    pub fn message(&self) -> (s: String)
        ensures
            s@ == table_error_text(*self),
    {
        let mut s: String = String::new();
        match *self {
            TableError::TooShort => {
                s.append("value table too short");
            },
            TableError::CountSize { bytes, records } => {
                s.append("u16 value table size mismatch: ");
                push_decimal(&mut s, bytes);
                s.append(" bytes for ");
                push_decimal(&mut s, records);
                s.append(" records");
            },
            TableError::ValueSize { bytes, records } => {
                s.append("f32 value table size mismatch: ");
                push_decimal(&mut s, bytes);
                s.append(" bytes for ");
                push_decimal(&mut s, records);
                s.append(" records");
            },
            TableError::StepSize { bytes, values } => {
                s.append("q12 size mismatch: ");
                push_decimal(&mut s, bytes);
                s.append(" bytes for ");
                push_decimal(&mut s, values);
                s.append(" values");
            },
            TableError::KeyCount { values, keys } => {
                s.append("q12 count ");
                push_decimal(&mut s, values);
                s.append(" != enumerated key count ");
                push_decimal(&mut s, keys);
            },
            TableError::UnknownMagic => {
                s.append("unknown value table magic");
            },
        }
        assert(s@ =~= table_error_text(*self));
        s
    }
}

/// Record `i` of keyed counts.
pub open spec fn count_row(b: Seq<u8>, i: int) -> (u32, Contribution) {
    (
        bytes::little(b, 16 + 6 * i, 4) as u32,
        Contribution::Count(bytes::little(b, 20 + 6 * i, 2) as u16),
    )
}

/// Record `i` of keyed values.
pub open spec fn value_row(b: Seq<u8>, i: int) -> (u32, Contribution) {
    (
        bytes::little(b, 16 + 8 * i, 4) as u32,
        Contribution::Value(bytes::little(b, 20 + 8 * i, 4) as u32),
    )
}

/// Step `i`: two steps of twelve bits share three bytes.
pub open spec fn step_at(b: Seq<u8>, i: int) -> int {
    let at = 24 + i / 2 * 3;
    if i % 2 == 0 {
        b[at] + (b[at + 1] % 16) * 256
    } else {
        b[at + 1] / 16 + b[at + 2] * 16
    }
}

pub open spec fn step_row(b: Seq<u8>, i: int) -> (u32, Contribution) {
    (
        key_list()[i],
        Contribution::Step {
            low: bytes::little(b, 8, 4) as u32,
            high: bytes::little(b, 12, 4) as u32,
            step: step_at(b, i) as u16,
        },
    )
}

/// What a blob holds.
pub open spec fn parsed(b: Seq<u8>) -> Result<Seq<(u32, Contribution)>, TableError> {
    let count = bytes::little(b, 8, 8);
    let steps = bytes::little(b, 16, 8);
    if b.len() < 16 {
        Err(TableError::TooShort)
    } else if bytes::begins(b, COUNT_MAGIC) {
        if b.len() != 16 + count * 6 {
            Err(TableError::CountSize { bytes: b.len() as u64, records: count as u64 })
        } else {
            Ok(Seq::new(count, |i: int| count_row(b, i)))
        }
    } else if bytes::begins(b, VALUE_MAGIC) {
        if b.len() != 16 + count * 8 {
            Err(TableError::ValueSize { bytes: b.len() as u64, records: count as u64 })
        } else {
            Ok(Seq::new(count, |i: int| value_row(b, i)))
        }
    } else if bytes::begins(b, STEP_MAGIC) {
        if b.len() < 24 {
            Err(TableError::TooShort)
        } else if b.len() != 24 + (steps + 1) / 2 * 3 {
            Err(TableError::StepSize { bytes: b.len() as u64, values: steps as u64 })
        } else if steps != key_list().len() {
            Err(TableError::KeyCount { values: steps as u64, keys: key_list().len() as u64 })
        } else {
            Ok(Seq::new(steps, |i: int| step_row(b, i)))
        }
    } else {
        Err(TableError::UnknownMagic)
    }
}

/// Where a binary search for the key from `lo` to `hi` ends.
pub open spec fn seek(rows: Seq<(u32, Contribution)>, key: u32, lo: int, hi: int) -> Option<int>
    decreases hi - lo,
{
    if lo >= hi {
        None
    } else {
        let mid = lo + (hi - lo) / 2;
        if rows[mid].0 == key {
            Some(mid)
        } else if rows[mid].0 < key {
            seek(rows, key, mid + 1, hi)
        } else {
            seek(rows, key, lo, mid)
        }
    }
}

/// What the search finds.
pub open spec fn found(rows: Seq<(u32, Contribution)>, key: u32) -> Option<Contribution> {
    match seek(rows, key, 0, rows.len() as int) {
        Some(i) => Some(rows[i].1),
        None => None,
    }
}

/// Each key is above the one before it.
pub open spec fn in_order(rows: Seq<(u32, Contribution)>) -> bool {
    forall|i: int, j: int| 0 <= i < j < rows.len() ==> rows[i].0 < rows[j].0
}

proof fn lemma_seek(rows: Seq<(u32, Contribution)>, key: u32, lo: int, hi: int)
    requires
        0 <= lo <= hi <= rows.len(),
    ensures
        seek(rows, key, lo, hi) matches Some(i) ==> lo <= i < hi && rows[i].0 == key,
        in_order(rows) && seek(rows, key, lo, hi) is None ==> forall|i: int|
            lo <= i < hi ==> rows[i].0 != key,
    decreases hi - lo,
{
    if lo < hi {
        let mid = lo + (hi - lo) / 2;
        lemma_seek(rows, key, mid + 1, hi);
        lemma_seek(rows, key, lo, mid);
    }
}

/// A key that is found is in the table, and in a table in order a key of the table is found.
pub proof fn law_found(rows: Seq<(u32, Contribution)>, key: u32)
    ensures
        found(rows, key) matches Some(c) ==> rows.contains((key, c)),
        in_order(rows) ==> (found(rows, key) is Some <==> exists|i: int|
            0 <= i < rows.len() && #[trigger] rows[i].0 == key),
{
    lemma_seek(rows, key, 0, rows.len() as int);
    if let Some(i) = seek(rows, key, 0, rows.len() as int) {
        assert(rows[i] == (key, rows[i].1));
    }
}

/// A table of steps is in order, so every state that the bags can bring about is found in it.
pub proof fn law_steps_complete(b: Seq<u8>, key: u32)
    requires
        bytes::begins(b, STEP_MAGIC),
        parsed(b) is Ok,
    ensures
        in_order(parsed(b)->Ok_0),
        found(parsed(b)->Ok_0, key) is Some <==> chain_key(key),
{
    law_key_list();
    let rows = parsed(b)->Ok_0;
    law_found(rows, key);
    assert(key_list().contains(key) <==> chain_key(key));
    if found(rows, key) is Some {
        let i = choose|i: int| 0 <= i < rows.len() && #[trigger] rows[i].0 == key;
        assert(key_list()[i] == key);
    }
    if key_list().contains(key) {
        let i = choose|i: int| 0 <= i < key_list().len() && key_list()[i] == key;
        assert(rows[i].0 == key);
    }
}

/// What boundary states are worth.
pub struct ValueTable {
    rows: Vec<(u32, Contribution)>,
}

impl View for ValueTable {
    type V = Seq<(u32, Contribution)>;

    closed spec fn view(&self) -> Seq<(u32, Contribution)> {
        self.rows@
    }
}

impl ValueTable {
    pub fn from_bytes(bytes: &[u8]) -> (r: Result<ValueTable, TableError>)
        ensures
            parsed(bytes@) matches Ok(rows) ==> r is Ok && r->Ok_0@ == rows,
            parsed(bytes@) matches Err(e) ==> r is Err && r->Err_0 == e,
    {
        if bytes.len() < 16 {
            return Err(TableError::TooShort);
        }
        proof {
            bytes::lemma_pow256();
        }
        let len: u64 = bytes.len() as u64;
        if has_magic(bytes, &COUNT_MAGIC) {
            let count: u64 = read_little(bytes, 8, 8);
            if len as u128 != 16 + count as u128 * 6 {
                return Err(TableError::CountSize { bytes: len, records: count });
            }
            let rows = Self::read_counts(bytes, count as usize);
            Ok(ValueTable { rows })
        } else if has_magic(bytes, &VALUE_MAGIC) {
            let count: u64 = read_little(bytes, 8, 8);
            if len as u128 != 16 + count as u128 * 8 {
                return Err(TableError::ValueSize { bytes: len, records: count });
            }
            let rows = Self::read_values(bytes, count as usize);
            Ok(ValueTable { rows })
        } else if has_magic(bytes, &STEP_MAGIC) {
            if bytes.len() < 24 {
                return Err(TableError::TooShort);
            }
            let count: u64 = read_little(bytes, 16, 8);
            if len as u128 != 24 + (count as u128 + 1) / 2 * 3 {
                return Err(TableError::StepSize { bytes: len, values: count });
            }
            let keys = enumerate_sorted_keys();
            proof {
                law_key_list();
                lemma_ascending_unique(keys@, key_list());
            }
            if keys.len() as u64 != count {
                return Err(TableError::KeyCount { values: count, keys: keys.len() as u64 });
            }
            let rows = Self::read_steps(bytes, &keys);
            Ok(ValueTable { rows })
        } else {
            Err(TableError::UnknownMagic)
        }
    }

    fn read_counts(b: &[u8], count: usize) -> (rows: Vec<(u32, Contribution)>)
        requires
            b@.len() == 16 + count * 6,
        ensures
            rows@ == Seq::new(count as nat, |i: int| count_row(b@, i)),
    {
        let mut rows: Vec<(u32, Contribution)> = Vec::new();
        let mut i: usize = 0;
        let len: usize = b.len();
        while i < count
            invariant
                i <= count,
                b@.len() == len,
                b@.len() == 16 + count * 6,
                rows@ =~= Seq::new(i as nat, |k: int| count_row(b@, k)),
            decreases count - i,
        {
            let at: usize = 16 + 6 * i;
            proof {
                bytes::lemma_pow256();
                bytes::lemma_little_bound(b@, at as int, 4);
                bytes::lemma_little_bound(b@, at + 4, 2);
            }
            let key: u32 = read_little(b, at, 4) as u32;
            let raw: u16 = read_little(b, at + 4, 2) as u16;
            rows.push((key, Contribution::Count(raw)));
            i = i + 1;
        }
        rows
    }

    fn read_values(b: &[u8], count: usize) -> (rows: Vec<(u32, Contribution)>)
        requires
            b@.len() == 16 + count * 8,
        ensures
            rows@ == Seq::new(count as nat, |i: int| value_row(b@, i)),
    {
        let mut rows: Vec<(u32, Contribution)> = Vec::new();
        let mut i: usize = 0;
        let len: usize = b.len();
        while i < count
            invariant
                i <= count,
                b@.len() == len,
                b@.len() == 16 + count * 8,
                rows@ =~= Seq::new(i as nat, |k: int| value_row(b@, k)),
            decreases count - i,
        {
            let at: usize = 16 + 8 * i;
            proof {
                bytes::lemma_pow256();
                bytes::lemma_little_bound(b@, at as int, 4);
                bytes::lemma_little_bound(b@, at + 4, 4);
            }
            let key: u32 = read_little(b, at, 4) as u32;
            let raw: u32 = read_little(b, at + 4, 4) as u32;
            rows.push((key, Contribution::Value(raw)));
            i = i + 1;
        }
        rows
    }

    fn read_steps(b: &[u8], keys: &Vec<u32>) -> (rows: Vec<(u32, Contribution)>)
        requires
            b@.len() == 24 + (keys@.len() + 1) / 2 * 3,
            keys@ == key_list(),
        ensures
            rows@ == Seq::new(keys@.len(), |i: int| step_row(b@, i)),
    {
        proof {
            bytes::lemma_pow256();
            bytes::lemma_little_bound(b@, 8, 4);
            bytes::lemma_little_bound(b@, 12, 4);
        }
        let mut rows: Vec<(u32, Contribution)> = Vec::new();
        let mut i: usize = 0;
        if keys.len() == 0 {
            return rows;
        }
        let low: u32 = read_little(b, 8, 4) as u32;
        let high: u32 = read_little(b, 12, 4) as u32;
        let len: usize = b.len();
        while i < keys.len()
            invariant
                i <= keys@.len(),
                b@.len() == len,
                b@.len() == 24 + (keys@.len() + 1) / 2 * 3,
                keys@ == key_list(),
                low == bytes::little(b@, 8, 4) as u32,
                high == bytes::little(b@, 12, 4) as u32,
                rows@ =~= Seq::new(i as nat, |k: int| step_row(b@, k)),
            decreases keys@.len() - i,
        {
            let at: usize = 24 + i / 2 * 3;
            let step: u16 = if i % 2 == 0 {
                b[at] as u16 + (b[at + 1] % 16) as u16 * 256
            } else {
                (b[at + 1] / 16) as u16 + b[at + 2] as u16 * 16
            };
            rows.push((keys[i], Contribution::Step { low, high, step }));
            i = i + 1;
        }
        rows
    }

    pub fn get(&self, key: u32) -> (r: Option<Contribution>)
        ensures
            r == found(self@, key),
    {
        let mut lo: usize = 0;
        let mut hi: usize = self.rows.len();
        while lo < hi
            invariant
                0 <= lo <= hi <= self.rows@.len(),
                seek(self.rows@, key, 0, self.rows@.len() as int) == seek(
                    self.rows@,
                    key,
                    lo as int,
                    hi as int,
                ),
            decreases hi - lo,
        {
            let mid: usize = lo + (hi - lo) / 2;
            if self.rows[mid].0 == key {
                return Some(self.rows[mid].1);
            } else if self.rows[mid].0 < key {
                lo = mid + 1;
            } else {
                hi = mid;
            }
        }
        None
    }

    pub fn len(&self) -> (n: usize)
        ensures
            n == self@.len(),
    {
        self.rows.len()
    }
}

/* ---- what a reset is worth ---- */

/// The rows of a table; nothing where every perfect clear is worth the same.
pub type Book = Option<Seq<(u32, Contribution)>>;

/// What it is worth to reset into a state. A state that the table lacks is worth nothing.
pub open spec fn reset_worth(
    book: Book,
    calc: spec_fn(Op) -> u64,
    hold: u8,
    queue: Seq<u8>,
    bag: u8,
) -> u64 {
    match book {
        None => ONE,
        Some(rows) => match found(rows, key_word(hold, bag, queue)) {
            Some(c) => calc(Op::Worth(c)),
            None => 0,
        },
    }
}

/// One for a state that the table lacks.
pub open spec fn reset_missing(book: Book, hold: u8, queue: Seq<u8>, bag: u8) -> nat {
    match book {
        None => 0,
        Some(rows) => match found(rows, key_word(hold, bag, queue)) {
            Some(_) => 0,
            None => 1,
        },
    }
}

/// The sum, the number and the missing of the reset states after `queue` and all that the bag can
/// reveal up to six pieces.
pub open spec fn sum4(
    book: Book,
    calc: spec_fn(Op) -> u64,
    hold: u8,
    mask: u8,
    queue: Seq<u8>,
) -> (u64, nat, nat)
    decreases 6 - queue.len(), 8nat,
{
    if queue.len() >= 6 {
        (reset_worth(book, calc, hold, queue, mask), 1, reset_missing(book, hold, queue, mask))
    } else {
        sum4_below(book, calc, hold, mask, queue, 7)
    }
}

/// Those of them with a next piece below `n`, smaller pieces first.
pub open spec fn sum4_below(
    book: Book,
    calc: spec_fn(Op) -> u64,
    hold: u8,
    mask: u8,
    queue: Seq<u8>,
    n: nat,
) -> (u64, nat, nat)
    decreases 6 - queue.len(), n,
{
    if n == 0 || queue.len() >= 6 {
        (0, 0, 0)
    } else if piece::in_bag(mask, n - 1) {
        let p = (n - 1) as u8;
        let a = sum4_below(book, calc, hold, mask, queue, (n - 1) as nat);
        let b = sum4(book, calc, hold, piece::after(mask, p), queue.push(p));
        (calc(Op::Plus(a.0, b.0)), a.1 + b.1, a.2 + b.2)
    } else {
        sum4_below(book, calc, hold, mask, queue, (n - 1) as nat)
    }
}

/// The mean of a sum.
pub open spec fn mean(calc: spec_fn(Op) -> u64, sum: u64, count: nat) -> u64 {
    if count == 0 {
        0
    } else {
        calc(Op::Over(sum, count as u64))
    }
}

/// What four lines are worth: the mean over all queues that the bag can reveal.
pub open spec fn worth4(book: Book, calc: spec_fn(Op) -> u64, hold: u8, mask: u8) -> u64 {
    if book is None {
        ONE
    } else {
        let t = sum4(book, calc, hold, mask, Seq::empty());
        mean(calc, t.0, t.1)
    }
}

/// How many of those states the table lacks.
pub open spec fn missing4(book: Book, calc: spec_fn(Op) -> u64, hold: u8, mask: u8) -> nat {
    sum4(book, calc, hold, mask, Seq::empty()).2
}

/// The sum, the number and the missing of the reset states after `queue` and one more piece
/// below `n`.
pub open spec fn sum2_below(
    book: Book,
    calc: spec_fn(Op) -> u64,
    hold: u8,
    mask: u8,
    queue: Seq<u8>,
    n: nat,
) -> (u64, nat, nat)
    decreases n,
{
    if n == 0 {
        (0, 0, 0)
    } else if piece::in_bag(mask, n - 1) {
        let p = (n - 1) as u8;
        let a = sum2_below(book, calc, hold, mask, queue, (n - 1) as nat);
        let next = piece::after(mask, p);
        (
            calc(Op::Plus(a.0, reset_worth(book, calc, hold, queue.push(p), next))),
            a.1 + 1,
            a.2 + reset_missing(book, hold, queue.push(p), next),
        )
    } else {
        sum2_below(book, calc, hold, mask, queue, (n - 1) as nat)
    }
}

/// What two lines are worth: the mean over the one piece of the queue that is not known.
pub open spec fn worth2(
    book: Book,
    calc: spec_fn(Op) -> u64,
    hold: u8,
    q5: u8,
    h: Seq<u8>,
    mask: u8,
) -> u64 {
    if book is None {
        ONE
    } else {
        let t = sum2_below(book, calc, hold, mask, seq![q5] + h, 7);
        mean(calc, t.0, t.1)
    }
}

/// How many of those states the table lacks.
pub open spec fn missing2(
    book: Book,
    calc: spec_fn(Op) -> u64,
    hold: u8,
    q5: u8,
    h: Seq<u8>,
    mask: u8,
) -> nat {
    if book is None {
        0
    } else {
        sum2_below(book, calc, hold, mask, seq![q5] + h, 7).2
    }
}

/// A counter that stays at its end.
pub open spec fn tallied(a: u64, n: nat) -> u64 {
    if a + n > u64::MAX {
        u64::MAX
    } else {
        (a + n) as u64
    }
}

pub open spec fn memo_word(hold: u8, mask: u8) -> u64 {
    (hold * 256 + mask) as u64
}

/// What completed loops are worth, by the states that they reset into.
pub struct ResetEval<'a, F: Fn(Op) -> u64> {
    pub table: Option<&'a ValueTable>,
    pub calc: F,
    pub memo_w4: Table<u64>,
    pub missing_keys: u64,
}

impl<'a, F: Fn(Op) -> u64> ResetEval<'a, F> {
    pub open spec fn book(&self) -> Book {
        match self.table {
            Some(t) => Some(t@),
            None => None,
        }
    }

    pub open spec fn arith(&self) -> spec_fn(Op) -> u64 {
        score::arith(self.calc)
    }

    /// What has been worked out already is right.
    pub closed spec fn wf(&self) -> bool {
        &&& score::answers(self.calc)
        &&& self.memo_w4.wf()
        &&& forall|hold: u8, mask: u8|
            self.memo_w4@.dom().contains(#[trigger] memo_word(hold, mask))
                ==> self.memo_w4@[memo_word(hold, mask)] == worth4(
                self.book(),
                self.arith(),
                hold,
                mask,
            )
    }

    /// The worth of four lines has been worked out for this hold and this bag.
    pub closed spec fn knows(&self, hold: u8, mask: u8) -> bool {
        self.memo_w4@.dom().contains(memo_word(hold, mask))
    }

    pub proof fn lemma_wf(&self)
        requires
            self.wf(),
        ensures
            score::answers(self.calc),
    {
    }

    pub fn new(table: Option<&'a ValueTable>, calc: F) -> (r: Self)
        requires
            score::answers(calc),
        ensures
            r.wf(),
            r.table == table,
            r.calc == calc,
            r.missing_keys == 0,
            forall|hold: u8, mask: u8| !r.knows(hold, mask),
    {
        ResetEval { table, calc, memo_w4: Table::new(), missing_keys: 0 }
    }

    fn reset_value(&mut self, hold: Piece, queue6: [Piece; 6], bag_mask: u8) -> (r: u64)
        requires
            old(self).wf(),
        ensures
            final(self).wf(),
            final(self).table == old(self).table,
            final(self).calc == old(self).calc,
            forall|h: u8, m: u8| final(self).knows(h, m) == old(self).knows(h, m),
            r == reset_worth(old(self).book(), old(self).arith(), hold, queue6@, bag_mask),
            final(self).missing_keys == tallied(
                old(self).missing_keys,
                reset_missing(old(self).book(), hold, queue6@, bag_mask),
            ),
    {
        match self.table {
            None => ONE,
            Some(table) => {
                let key: u32 = boundary_key(hold, queue6, bag_mask);
                match table.get(key) {
                    Some(v) => ask(&self.calc, Op::Worth(v)),
                    None => {
                        self.missing_keys = self.missing_keys.saturating_add(1);
                        0
                    },
                }
            },
        }
    }

    /// What a completed four-line loop is worth.
    pub fn w4(&mut self, hold: Piece, mask4: u8) -> (r: u64)
        requires
            old(self).wf(),
        ensures
            final(self).wf(),
            final(self).table == old(self).table,
            final(self).calc == old(self).calc,
            r == worth4(old(self).book(), old(self).arith(), hold, mask4),
            final(self).missing_keys == if old(self).table is None || old(self).knows(hold, mask4) {
                old(self).missing_keys
            } else {
                tallied(
                    old(self).missing_keys,
                    missing4(old(self).book(), old(self).arith(), hold, mask4),
                )
            },
            forall|h: u8, m: u8| #[trigger]
                final(self).knows(h, m) <==> old(self).knows(h, m) || (old(self).table is Some && h
                    == hold && m == mask4),
    {
        if self.table.is_none() {
            return ONE;
        }
        let word: u64 = hold as u64 * 256 + mask4 as u64;
        assert(word == memo_word(hold, mask4));
        if let Some(v) = self.memo_w4.get(word) {
            return *v;
        }
        let mut queue: [u8; 6] = [0u8; 6];
        assert(queue@.take(0) =~= Seq::<u8>::empty());
        proof {
            lemma_sum4_count(self.book(), self.arith(), hold, mask4, Seq::empty());
            lemma_pow7();
        }
        let (sum, count): (u64, u64) = self.w4_rec(hold, mask4, 0, &mut queue);
        let v: u64 = if count == 0 {
            0
        } else {
            ask(&self.calc, Op::Over(sum, count))
        };
        let ghost mid = *self;
        self.memo_w4.insert(word, v);
        proof {
            assert forall|h: u8, m: u8|
                self.memo_w4@.dom().contains(#[trigger] memo_word(h, m)) implies self.memo_w4@[
                memo_word(h, m)] == worth4(self.book(), self.arith(), h, m) by {
                if memo_word(h, m) == word {
                    assert(h == hold && m == mask4);
                }
            }
            assert forall|h: u8, m: u8| #[trigger]
                self.knows(h, m) <==> old(self).knows(h, m) || (h == hold && m == mask4) by {
                assert(mid.knows(h, m) == old(self).knows(h, m));
                if memo_word(h, m) == word {
                    assert(h == hold && m == mask4);
                }
            }
        }
        v
    }

    fn w4_rec(&mut self, hold: Piece, mask: u8, depth: usize, queue: &mut [u8; 6]) -> (r: (u64, u64))
        requires
            old(self).wf(),
            depth <= 6,
        ensures
            final(self).wf(),
            final(self).table == old(self).table,
            final(self).calc == old(self).calc,
            forall|h: u8, m: u8| final(self).knows(h, m) == old(self).knows(h, m),
            final(queue)@.take(depth as int) == old(queue)@.take(depth as int),
            ({
                let t = sum4(
                    old(self).book(),
                    old(self).arith(),
                    hold,
                    mask,
                    old(queue)@.take(depth as int),
                );
                &&& r.0 == t.0
                &&& r.1 == t.1
                &&& final(self).missing_keys == tallied(old(self).missing_keys, t.2)
            }),
        decreases 6 - depth,
    {
        let ghost head = queue@.take(depth as int);
        if depth == 6 {
            assert(queue@.take(6) =~= queue@);
            let q: [u8; 6] = *queue;
            return (self.reset_value(hold, q, mask), 1);
        }
        let mut sum: u64 = 0;
        let mut count: u64 = 0;
        let mut p: u8 = 0;
        while p < 7
            invariant
                p <= 7,
                depth < 6,
                self.wf(),
                self.table == old(self).table,
                self.calc == old(self).calc,
                forall|h: u8, m: u8| self.knows(h, m) == old(self).knows(h, m),
                queue@.take(depth as int) == head,
                head == old(queue)@.take(depth as int),
                ({
                    let t = sum4_below(
                        old(self).book(),
                        old(self).arith(),
                        hold,
                        mask,
                        head,
                        p as nat,
                    );
                    &&& sum == t.0
                    &&& count == t.1
                    &&& self.missing_keys == tallied(old(self).missing_keys, t.2)
                }),
            decreases 7 - p,
        {
            if has(mask, p) {
                proof {
                    lemma_sum4_below_count(self.book(), self.arith(), hold, mask, head, (p + 1) as nat);
                    lemma_pow7();
                    assert(depth == 0 || depth == 1 || depth == 2 || depth == 3 || depth == 4
                        || depth == 5);
                    let w = pow7((5 - head.len()) as nat);
                    assert((p + 1) * w <= 7 * 16807) by (nonlinear_arith)
                        requires
                            p + 1 <= 7,
                            w <= 16807,
                    ;
                }
                queue[depth] = p;
                assert(queue@.take(depth + 1) =~= head.push(p));
                proof {
                    assert(mask != 0) by {
                        piece::lemma_after_has(0, 0, p as int);
                    }
                }
                let (s, c): (u64, u64) = self.w4_rec(hold, after_reveal(mask, p), depth + 1, queue);
                assert(queue@.take(depth as int) =~= queue@.take(depth + 1).take(depth as int));
                assert(head.push(p).take(depth as int) =~= head);
                sum = ask(&self.calc, Op::Plus(sum, s));
                assert(count + c == sum4_below(
                    old(self).book(),
                    old(self).arith(),
                    hold,
                    mask,
                    head,
                    (p + 1) as nat,
                ).1);
                count = count + c;
            }
            p = p + 1;
        }
        (sum, count)
    }

    /// What a completed two-line loop is worth.
    pub fn w2(&mut self, hold: Piece, q5: Piece, h: [Piece; 4], mask4: u8) -> (r: u64)
        requires
            old(self).wf(),
        ensures
            final(self).wf(),
            final(self).table == old(self).table,
            final(self).calc == old(self).calc,
            forall|h: u8, m: u8| final(self).knows(h, m) == old(self).knows(h, m),
            r == worth2(old(self).book(), old(self).arith(), hold, q5, h@, mask4),
            final(self).missing_keys == tallied(
                old(self).missing_keys,
                missing2(old(self).book(), old(self).arith(), hold, q5, h@, mask4),
            ),
    {
        if self.table.is_none() {
            return ONE;
        }
        let ghost head = seq![q5] + h@;
        let mut sum: u64 = 0;
        let mut count: u64 = 0;
        let mut p: u8 = 0;
        while p < 7
            invariant
                p <= 7,
                head == seq![q5] + h@,
                self.wf(),
                self.table == old(self).table,
                self.calc == old(self).calc,
                forall|h: u8, m: u8| self.knows(h, m) == old(self).knows(h, m),
                count <= p,
                ({
                    let t = sum2_below(
                        old(self).book(),
                        old(self).arith(),
                        hold,
                        mask4,
                        head,
                        p as nat,
                    );
                    &&& sum == t.0
                    &&& count == t.1
                    &&& self.missing_keys == tallied(old(self).missing_keys, t.2)
                }),
            decreases 7 - p,
        {
            if has(mask4, p) {
                let queue: [u8; 6] = [q5, h[0], h[1], h[2], h[3], p];
                assert(queue@ =~= head.push(p));
                proof {
                    assert(mask4 != 0) by {
                        piece::lemma_after_has(0, 0, p as int);
                    }
                }
                let v: u64 = self.reset_value(hold, queue, after_reveal(mask4, p));
                sum = ask(&self.calc, Op::Plus(sum, v));
                count = count + 1;
            }
            p = p + 1;
        }
        if count == 0 {
            0
        } else {
            ask(&self.calc, Op::Over(sum, count))
        }
    }
}

/// There are at most seven continuations at each piece.
proof fn lemma_sum4_count(
    book: Book,
    calc: spec_fn(Op) -> u64,
    hold: u8,
    mask: u8,
    queue: Seq<u8>,
)
    requires
        queue.len() <= 6,
    ensures
        sum4(book, calc, hold, mask, queue).1 <= pow7((6 - queue.len()) as nat),
    decreases 6 - queue.len(), 8nat,
{
    if queue.len() < 6 {
        lemma_sum4_below_count(book, calc, hold, mask, queue, 7);
    }
}

proof fn lemma_sum4_below_count(
    book: Book,
    calc: spec_fn(Op) -> u64,
    hold: u8,
    mask: u8,
    queue: Seq<u8>,
    n: nat,
)
    requires
        queue.len() < 6,
        n <= 7,
    ensures
        sum4_below(book, calc, hold, mask, queue, n).1 <= n * pow7((5 - queue.len()) as nat),
    decreases 6 - queue.len(), n,
{
    if n > 0 {
        let w = pow7((5 - queue.len()) as nat);
        lemma_sum4_below_count(book, calc, hold, mask, queue, (n - 1) as nat);
        lemma_sum4_count(
            book,
            calc,
            hold,
            piece::after(mask, (n - 1) as u8),
            queue.push((n - 1) as u8),
        );
        assert(n * w == (n - 1) * w + w) by (nonlinear_arith)
            requires
                n > 0,
        ;
    }
}

/* ---- means over the reveals ---- */

/// The sums of what comes after each piece that the bag can reveal next, smaller pieces first.
spec fn parts4(
    book: Book,
    calc: spec_fn(Op) -> u64,
    hold: u8,
    mask: u8,
    queue: Seq<u8>,
    n: nat,
) -> Seq<u64> {
    let pieces = piece::pieces_below(mask, n);
    Seq::new(
        pieces.len(),
        |i: int| queue_sum(book, calc, hold, piece::after(mask, pieces[i]), queue.push(pieces[i])),
    )
}

/// The sum over all queues of six that the bag can still reveal after `queue`.
pub open spec fn queue_sum(
    book: Book,
    calc: spec_fn(Op) -> u64,
    hold: u8,
    mask: u8,
    queue: Seq<u8>,
) -> u64 {
    sum4(book, calc, hold, mask, queue).0
}

proof fn lemma_parts4(
    book: Book,
    calc: spec_fn(Op) -> u64,
    hold: u8,
    mask: u8,
    queue: Seq<u8>,
    n: nat,
)
    requires
        queue.len() < 6,
        n <= 7,
    ensures
        sum4_below(book, calc, hold, mask, queue, n).0 == score::total(
            calc,
            parts4(book, calc, hold, mask, queue, n),
        ),
        sum4_below(book, calc, hold, mask, queue, n).1 == hidden::branches(
            mask,
            (6 - queue.len()) as nat,
            n,
        ).len(),
    decreases 6 - queue.len(), n,
{
    if n > 0 {
        let m = (n - 1) as nat;
        lemma_parts4(book, calc, hold, mask, queue, m);
        if piece::in_bag(mask, m as int) {
            let p = m as u8;
            let now = parts4(book, calc, hold, mask, queue, n);
            assert(now.drop_last() =~= parts4(book, calc, hold, mask, queue, m));
            assert(now.last() == queue_sum(book, calc, hold, piece::after(mask, p), queue.push(p)));
            let next = piece::after(mask, p);
            let len = (5 - queue.len()) as nat;
            if queue.len() < 5 {
                lemma_parts4(book, calc, hold, next, queue.push(p), 7);
            }
            assert(sum4(book, calc, hold, next, queue.push(p)).1 == hidden::reveals(next, len).len());
        } else {
            assert(parts4(book, calc, hold, mask, queue, n) =~= parts4(
                book,
                calc,
                hold,
                mask,
                queue,
                m,
            ));
        }
    }
}

/// What four lines are worth is a mean over every sequence of six reveals that the bag allows. The
/// sum has one reset state for each of them: with six pieces in the queue it is the worth of that
/// state, and before that the sum over the pieces that the bag can reveal next.
pub proof fn law_four_lines_are_a_mean(
    book: Book,
    calc: spec_fn(Op) -> u64,
    hold: u8,
    mask: u8,
    queue: Seq<u8>,
)
    requires
        queue.len() <= 6,
    ensures
        book is Some && hidden::reveals(mask, 6).len() > 0 ==> worth4(book, calc, hold, mask)
            == calc(
            Op::Over(
                queue_sum(book, calc, hold, mask, Seq::empty()),
                hidden::reveals(mask, 6).len() as u64,
            ),
        ),
        book is None ==> worth4(book, calc, hold, mask) == ONE,
        queue.len() == 6 ==> queue_sum(book, calc, hold, mask, queue) == reset_worth(
            book,
            calc,
            hold,
            queue,
            mask,
        ),
        queue.len() < 6 ==> queue_sum(book, calc, hold, mask, queue) == score::total(
            calc,
            Seq::new(
                piece::pieces_of(mask).len(),
                |i: int|
                    queue_sum(
                        book,
                        calc,
                        hold,
                        piece::after(mask, piece::pieces_of(mask)[i]),
                        queue.push(piece::pieces_of(mask)[i]),
                    ),
            ),
        ),
{
    lemma_parts4(book, calc, hold, mask, Seq::empty(), 7);
    if queue.len() < 6 {
        lemma_parts4(book, calc, hold, mask, queue, 7);
        assert(parts4(book, calc, hold, mask, queue, 7) =~= Seq::new(
            piece::pieces_of(mask).len(),
            |i: int|
                queue_sum(
                    book,
                    calc,
                    hold,
                    piece::after(mask, piece::pieces_of(mask)[i]),
                    queue.push(piece::pieces_of(mask)[i]),
                ),
        ));
    }
}

/// Sums may be taken in any grouping.
pub open spec fn groups(calc: spec_fn(Op) -> u64) -> bool {
    &&& forall|a: u64, b: u64, c: u64|
        #![trigger calc(Op::Plus(calc(Op::Plus(a, b)), c))]
        calc(Op::Plus(calc(Op::Plus(a, b)), c)) == calc(Op::Plus(a, calc(Op::Plus(b, c))))
    &&& forall|a: u64| #[trigger] calc(Op::Plus(a, 0)) == a
    &&& forall|a: u64| #[trigger] calc(Op::Plus(0, a)) == a
}

/// The sum of two lists.
proof fn lemma_total_joins(calc: spec_fn(Op) -> u64, a: Seq<u64>, b: Seq<u64>)
    requires
        groups(calc),
    ensures
        score::total(calc, a + b) == calc(Op::Plus(score::total(calc, a), score::total(calc, b))),
    decreases b.len(),
{
    if b.len() == 0 {
        assert(a + b =~= a);
    } else {
        lemma_total_joins(calc, a, b.drop_last());
        assert((a + b).drop_last() =~= a + b.drop_last());
        assert((a + b).last() == b.last());
        let (x, y, z) = (score::total(calc, a), score::total(calc, b.drop_last()), b.last());
        assert(calc(Op::Plus(calc(Op::Plus(x, y)), z)) == calc(Op::Plus(x, calc(Op::Plus(y, z)))));
    }
}

/// What each of the listed reveals after `queue` resets into is worth.
pub open spec fn resets(
    book: Book,
    calc: spec_fn(Op) -> u64,
    hold: u8,
    mask: u8,
    queue: Seq<u8>,
    list: Seq<Seq<u8>>,
) -> Seq<u64> {
    Seq::new(
        list.len(),
        |i: int| reset_worth(book, calc, hold, queue + list[i], hidden::bag_after(mask, list[i])),
    )
}

proof fn lemma_resets_below(
    book: Book,
    calc: spec_fn(Op) -> u64,
    hold: u8,
    mask: u8,
    queue: Seq<u8>,
    n: nat,
)
    requires
        groups(calc),
        queue.len() < 6,
        n <= 7,
    ensures
        sum4_below(book, calc, hold, mask, queue, n).0 == score::total(
            calc,
            resets(
                book,
                calc,
                hold,
                mask,
                queue,
                hidden::branches(mask, (6 - queue.len()) as nat, n),
            ),
        ),
    decreases 6 - queue.len(), n,
{
    let len = (6 - queue.len()) as nat;
    if n > 0 {
        let m = (n - 1) as nat;
        lemma_resets_below(book, calc, hold, mask, queue, m);
        if piece::in_bag(mask, m as int) {
            let p = m as u8;
            let next = piece::after(mask, p);
            let tails = hidden::reveals(next, (len - 1) as nat);
            let more = queue.push(p);
            let was = resets(book, calc, hold, mask, queue, hidden::branches(mask, len, m));
            let new = resets(book, calc, hold, next, more, tails);
            lemma_resets(book, calc, hold, next, more);
            let list = hidden::prefixed(p, tails);
            assert forall|i: int| 0 <= i < tails.len() implies #[trigger] new[i] == reset_worth(
                book,
                calc,
                hold,
                queue + list[i],
                hidden::bag_after(mask, list[i]),
            ) by {
                assert(list[i] == seq![p] + tails[i]);
                assert(list[i].drop_first() =~= tails[i]);
                assert(more + tails[i] =~= queue + list[i]);
            }
            assert(resets(book, calc, hold, mask, queue, hidden::branches(mask, len, n)) =~= was
                + new);
            lemma_total_joins(calc, was, new);
        }
    }
}

proof fn lemma_resets(
    book: Book,
    calc: spec_fn(Op) -> u64,
    hold: u8,
    mask: u8,
    queue: Seq<u8>,
)
    requires
        groups(calc),
        queue.len() <= 6,
    ensures
        sum4(book, calc, hold, mask, queue).0 == score::total(
            calc,
            resets(
                book,
                calc,
                hold,
                mask,
                queue,
                hidden::reveals(mask, (6 - queue.len()) as nat),
            ),
        ),
    decreases 6 - queue.len(), 8nat,
{
    if queue.len() == 6 {
        let list = hidden::reveals(mask, 0);
        let all = resets(book, calc, hold, mask, queue, list);
        assert(queue + Seq::<u8>::empty() =~= queue);
        assert(list[0] =~= Seq::<u8>::empty());
        assert(all =~= seq![reset_worth(book, calc, hold, queue, mask)]);
        assert(all.drop_last() =~= Seq::<u64>::empty());
        assert(score::total(calc, all.drop_last()) == 0);
        assert(calc(Op::Plus(0, all.last())) == all.last());
    } else {
        lemma_resets_below(book, calc, hold, mask, queue, 7);
    }
}

/// Where sums may be taken in any grouping, what four lines are worth is the mean of the reset
/// states of all sequences of six reveals.
pub proof fn law_four_lines_are_the_mean_of_all_resets(
    book: Book,
    calc: spec_fn(Op) -> u64,
    hold: u8,
    mask: u8,
)
    requires
        groups(calc),
        book is Some,
    ensures
        worth4(book, calc, hold, mask) == score::average(
            calc,
            Seq::new(
                hidden::reveals(mask, 6).len(),
                |i: int|
                    reset_worth(
                        book,
                        calc,
                        hold,
                        hidden::reveals(mask, 6)[i],
                        hidden::bag_after(mask, hidden::reveals(mask, 6)[i]),
                    ),
            ),
        ),
{
    let none = Seq::<u8>::empty();
    let list = hidden::reveals(mask, 6);
    lemma_resets(book, calc, hold, mask, none);
    lemma_parts4(book, calc, hold, mask, none, 7);
    assert forall|i: int| 0 <= i < list.len() implies none + #[trigger] list[i] == list[i] by {
        assert(none + list[i] =~= list[i]);
    }
    assert(resets(book, calc, hold, mask, none, list) =~= Seq::new(
        list.len(),
        |i: int| reset_worth(book, calc, hold, list[i], hidden::bag_after(mask, list[i])),
    ));
}

proof fn lemma_parts2(
    book: Book,
    calc: spec_fn(Op) -> u64,
    hold: u8,
    mask: u8,
    queue: Seq<u8>,
    n: nat,
)
    requires
        n <= 7,
    ensures
        ({
            let pieces = piece::pieces_below(mask, n);
            let list = Seq::new(
                pieces.len(),
                |i: int|
                    reset_worth(book, calc, hold, queue.push(pieces[i]), piece::after(mask, pieces[i])),
            );
            let t = sum2_below(book, calc, hold, mask, queue, n);
            t.0 == score::total(calc, list) && t.1 == list.len()
        }),
    decreases n,
{
    let pieces = piece::pieces_below(mask, n);
    let list = Seq::new(
        pieces.len(),
        |i: int|
            reset_worth(book, calc, hold, queue.push(pieces[i]), piece::after(mask, pieces[i])),
    );
    if n > 0 {
        let m = (n - 1) as nat;
        let less = piece::pieces_below(mask, m);
        let was = Seq::new(
            less.len(),
            |i: int|
                reset_worth(book, calc, hold, queue.push(less[i]), piece::after(mask, less[i])),
        );
        lemma_parts2(book, calc, hold, mask, queue, m);
        if piece::in_bag(mask, m as int) {
            assert(list.drop_last() =~= was);
        } else {
            assert(list =~= was);
        }
    }
}

/// What two lines are worth is the mean, over the pieces that the bag can reveal next, of the reset
/// states with the last preview, the four reveals and that piece in the queue.
pub proof fn law_two_lines_are_a_mean(
    book: Book,
    calc: spec_fn(Op) -> u64,
    hold: u8,
    q5: u8,
    h: Seq<u8>,
    mask: u8,
)
    ensures
        book is None ==> worth2(book, calc, hold, q5, h, mask) == ONE,
        book is Some ==> worth2(book, calc, hold, q5, h, mask) == score::average(
            calc,
            Seq::new(
                piece::pieces_of(mask).len(),
                |i: int|
                    reset_worth(
                        book,
                        calc,
                        hold,
                        (seq![q5] + h).push(piece::pieces_of(mask)[i]),
                        piece::after(mask, piece::pieces_of(mask)[i]),
                    ),
            ),
        ),
{
    let queue = seq![q5] + h;
    let pieces = piece::pieces_of(mask);
    lemma_parts2(book, calc, hold, mask, queue, 7);
    assert(Seq::new(
        pieces.len(),
        |i: int|
            reset_worth(book, calc, hold, queue.push(pieces[i]), piece::after(mask, pieces[i])),
    ) =~= Seq::new(
        piece::pieces_of(mask).len(),
        |i: int|
            reset_worth(
                book,
                calc,
                hold,
                (seq![q5] + h).push(piece::pieces_of(mask)[i]),
                piece::after(mask, piece::pieces_of(mask)[i]),
            ),
    ));
}

/// A reset state that the table has a row for is worth one perfect clear and what that row says; one
/// that it has none for is worth nothing and is missing.
pub proof fn law_reset_state_is_worth_its_row(
    rows: Seq<(u32, Contribution)>,
    calc: spec_fn(Op) -> u64,
    hold: u8,
    queue: Seq<u8>,
    bag: u8,
)
    requires
        in_order(rows),
        bag < 128,
        queue.len() == 6,
        forall|i: int| 0 <= i < 6 ==> queue[i] < 7,
    ensures
        forall|i: int|
            0 <= i < rows.len() && (#[trigger] rows[i]).0 == state_key(hold, bag, queue)
                ==> reset_worth(Some(rows), calc, hold, queue, bag) == calc(Op::Worth(rows[i].1))
                && reset_missing(Some(rows), hold, queue, bag) == 0,
        (forall|i: int|
            0 <= i < rows.len() ==> (#[trigger] rows[i]).0 != state_key(hold, bag, queue))
            ==> reset_worth(Some(rows), calc, hold, queue, bag) == 0 && reset_missing(
            Some(rows),
            hold,
            queue,
            bag,
        ) == 1,
{
    let key = key_word(hold, bag, queue);
    lemma_key_word(hold, bag, queue);
    law_found(rows, key);
    if let Some(c) = found(rows, key) {
        let j = choose|j: int| 0 <= j < rows.len() && rows[j] == (key, c);
        assert forall|i: int| 0 <= i < rows.len() && (#[trigger] rows[i]).0 == key implies i == j by {
            assert(rows[j].0 == key);
        }
    }
}

/* ---- reading tables back ---- */

proof fn lemma_magics(b: Seq<u8>)
    ensures
        bytes::begins(b, VALUE_MAGIC) ==> !bytes::begins(b, COUNT_MAGIC),
        bytes::begins(b, STEP_MAGIC) ==> !bytes::begins(b, COUNT_MAGIC) && !bytes::begins(
            b,
            VALUE_MAGIC,
        ),
{
    assert(COUNT_MAGIC@[2] != VALUE_MAGIC@[2]);
    assert(COUNT_MAGIC@[2] != STEP_MAGIC@[2]);
    assert(VALUE_MAGIC@[2] != STEP_MAGIC@[2]);
}

/// The blob holds these counts: after the magic how many there are, then for each its key and the
/// count, all lowest byte first.
pub open spec fn holds_counts(b: Seq<u8>, rows: Seq<(u32, u16)>) -> bool {
    &&& bytes::begins(b, COUNT_MAGIC)
    &&& b.len() == 16 + 6 * rows.len()
    &&& b.subrange(8, 16) == bytes::bytes_of(rows.len(), 8)
    &&& forall|i: int|
        0 <= i < rows.len() ==> b.subrange(16 + 6 * i, 20 + 6 * i) == bytes::bytes_of(
            (#[trigger] rows[i]).0 as nat,
            4,
        ) && b.subrange(20 + 6 * i, 22 + 6 * i) == bytes::bytes_of(rows[i].1 as nat, 2)
}

/// Keyed counts are read back.
pub proof fn law_counts_read_back(b: Seq<u8>, rows: Seq<(u32, u16)>)
    requires
        holds_counts(b, rows),
        rows.len() <= u64::MAX,
    ensures
        parsed(b) == Ok::<Seq<(u32, Contribution)>, TableError>(
            Seq::new(rows.len(), |i: int| (rows[i].0, Contribution::Count(rows[i].1))),
        ),
{
    bytes::lemma_pow256();
    bytes::law_number_reads_back(b, 8, 8, rows.len());
    assert forall|i: int| 0 <= i < rows.len() implies #[trigger] count_row(b, i) == (
        rows[i].0,
        Contribution::Count(rows[i].1),
    ) by {
        bytes::law_number_reads_back(b, 16 + 6 * i, 4, rows[i].0 as nat);
        bytes::law_number_reads_back(b, 20 + 6 * i, 2, rows[i].1 as nat);
    }
    assert(Seq::new(rows.len(), |i: int| count_row(b, i)) =~= Seq::new(
        rows.len(),
        |i: int| (rows[i].0, Contribution::Count(rows[i].1)),
    ));
}

/// The blob holds these values, laid out like counts but of four bytes.
pub open spec fn holds_values(b: Seq<u8>, rows: Seq<(u32, u32)>) -> bool {
    &&& bytes::begins(b, VALUE_MAGIC)
    &&& b.len() == 16 + 8 * rows.len()
    &&& b.subrange(8, 16) == bytes::bytes_of(rows.len(), 8)
    &&& forall|i: int|
        0 <= i < rows.len() ==> b.subrange(16 + 8 * i, 20 + 8 * i) == bytes::bytes_of(
            (#[trigger] rows[i]).0 as nat,
            4,
        ) && b.subrange(20 + 8 * i, 24 + 8 * i) == bytes::bytes_of(rows[i].1 as nat, 4)
}

/// Keyed values are read back.
pub proof fn law_values_read_back(b: Seq<u8>, rows: Seq<(u32, u32)>)
    requires
        holds_values(b, rows),
        rows.len() <= u64::MAX,
    ensures
        parsed(b) == Ok::<Seq<(u32, Contribution)>, TableError>(
            Seq::new(rows.len(), |i: int| (rows[i].0, Contribution::Value(rows[i].1))),
        ),
{
    lemma_magics(b);
    bytes::lemma_pow256();
    bytes::law_number_reads_back(b, 8, 8, rows.len());
    assert forall|i: int| 0 <= i < rows.len() implies #[trigger] value_row(b, i) == (
        rows[i].0,
        Contribution::Value(rows[i].1),
    ) by {
        bytes::law_number_reads_back(b, 16 + 8 * i, 4, rows[i].0 as nat);
        bytes::law_number_reads_back(b, 20 + 8 * i, 4, rows[i].1 as nat);
    }
    assert(Seq::new(rows.len(), |i: int| value_row(b, i)) =~= Seq::new(
        rows.len(),
        |i: int| (rows[i].0, Contribution::Value(rows[i].1)),
    ));
}

/// Byte `t` of the three that hold the steps `a` and `c`, twelve bits each.
pub open spec fn step_byte(a: int, c: int, t: int) -> int {
    if t == 0 {
        a % 256
    } else if t == 1 {
        a / 256 + 16 * (c % 16)
    } else {
        c / 16
    }
}

/// The blob holds these steps between the two words, for all keys in order.
pub open spec fn holds_steps(b: Seq<u8>, low: u32, high: u32, steps: Seq<u16>) -> bool {
    &&& bytes::begins(b, STEP_MAGIC)
    &&& b.len() == 24 + (steps.len() + 1) / 2 * 3
    &&& steps.len() == key_list().len()
    &&& b.subrange(8, 12) == bytes::bytes_of(low as nat, 4)
    &&& b.subrange(12, 16) == bytes::bytes_of(high as nat, 4)
    &&& b.subrange(16, 24) == bytes::bytes_of(steps.len(), 8)
    &&& forall|i: int| 0 <= i < steps.len() ==> (#[trigger] steps[i]) < 4096
    &&& forall|j: int, t: int|
        0 <= j && 2 * j < steps.len() && 0 <= t < 3 ==> #[trigger] b[24 + 3 * j + t] == step_byte(
            steps[2 * j] as int,
            if 2 * j + 1 < steps.len() {
                steps[2 * j + 1] as int
            } else {
                0
            },
            t,
        )
}

/// Steps are read back, each for its key.
pub proof fn law_steps_read_back(b: Seq<u8>, low: u32, high: u32, steps: Seq<u16>)
    requires
        holds_steps(b, low, high, steps),
        steps.len() <= u64::MAX,
    ensures
        parsed(b) == Ok::<Seq<(u32, Contribution)>, TableError>(
            Seq::new(
                steps.len(),
                |i: int| (key_list()[i], Contribution::Step { low, high, step: steps[i] }),
            ),
        ),
{
    lemma_magics(b);
    bytes::lemma_pow256();
    bytes::law_number_reads_back(b, 16, 8, steps.len());
    bytes::law_number_reads_back(b, 8, 4, low as nat);
    bytes::law_number_reads_back(b, 12, 4, high as nat);
    assert forall|i: int| 0 <= i < steps.len() implies #[trigger] step_row(b, i) == (
        key_list()[i],
        Contribution::Step { low, high, step: steps[i] },
    ) by {
        let j = i / 2;
        assert(steps[2 * j] < 4096);
        let c: int = if 2 * j + 1 < steps.len() {
            steps[2 * j + 1] as int
        } else {
            0
        };
        assert(0 <= c < 4096);
        assert(b[24 + 3 * j + 0] == step_byte(steps[2 * j] as int, c, 0));
        assert(b[24 + 3 * j + 1] == step_byte(steps[2 * j] as int, c, 1));
        assert(b[24 + 3 * j + 2] == step_byte(steps[2 * j] as int, c, 2));
    }
    assert(Seq::new(steps.len(), |i: int| step_row(b, i)) =~= Seq::new(
        steps.len(),
        |i: int| (key_list()[i], Contribution::Step { low, high, step: steps[i] }),
    ));
}

/* ---- what a table lacks ---- */

/// How many are true.
pub open spec fn how_many(list: Seq<bool>) -> nat
    decreases list.len(),
{
    if list.len() == 0 {
        0
    } else {
        how_many(list.drop_last()) + if list.last() {
            1nat
        } else {
            0
        }
    }
}

proof fn lemma_how_many_joins(a: Seq<bool>, b: Seq<bool>)
    ensures
        how_many(a + b) == how_many(a) + how_many(b),
    decreases b.len(),
{
    if b.len() == 0 {
        assert(a + b =~= a);
    } else {
        lemma_how_many_joins(a, b.drop_last());
        assert((a + b).drop_last() =~= a + b.drop_last());
        assert((a + b).last() == b.last());
    }
}

/// The table has no row for the state.
pub open spec fn lacks(rows: Seq<(u32, Contribution)>, hold: u8, queue: Seq<u8>, bag: u8) -> bool {
    found(rows, key_word(hold, bag, queue)) is None
}

/// For each of the listed reveals after `queue`, whether the table lacks the state.
pub open spec fn gaps(
    rows: Seq<(u32, Contribution)>,
    hold: u8,
    mask: u8,
    queue: Seq<u8>,
    list: Seq<Seq<u8>>,
) -> Seq<bool> {
    Seq::new(
        list.len(),
        |i: int| lacks(rows, hold, queue + list[i], hidden::bag_after(mask, list[i])),
    )
}

proof fn lemma_gaps_below(
    rows: Seq<(u32, Contribution)>,
    calc: spec_fn(Op) -> u64,
    hold: u8,
    mask: u8,
    queue: Seq<u8>,
    n: nat,
)
    requires
        queue.len() < 6,
        n <= 7,
    ensures
        sum4_below(Some(rows), calc, hold, mask, queue, n).2 == how_many(
            gaps(rows, hold, mask, queue, hidden::branches(mask, (6 - queue.len()) as nat, n)),
        ),
    decreases 6 - queue.len(), n,
{
    let len = (6 - queue.len()) as nat;
    if n > 0 {
        let m = (n - 1) as nat;
        lemma_gaps_below(rows, calc, hold, mask, queue, m);
        if piece::in_bag(mask, m as int) {
            let p = m as u8;
            let next = piece::after(mask, p);
            let tails = hidden::reveals(next, (len - 1) as nat);
            let more = queue.push(p);
            let was = gaps(rows, hold, mask, queue, hidden::branches(mask, len, m));
            let new = gaps(rows, hold, next, more, tails);
            lemma_gaps(rows, calc, hold, next, more);
            let list = hidden::prefixed(p, tails);
            assert forall|i: int| 0 <= i < tails.len() implies #[trigger] new[i] == lacks(
                rows,
                hold,
                queue + list[i],
                hidden::bag_after(mask, list[i]),
            ) by {
                assert(list[i] == seq![p] + tails[i]);
                assert(list[i].drop_first() =~= tails[i]);
                assert(more + tails[i] =~= queue + list[i]);
            }
            assert(gaps(rows, hold, mask, queue, hidden::branches(mask, len, n)) =~= was + new);
            lemma_how_many_joins(was, new);
        }
    }
}

proof fn lemma_gaps(
    rows: Seq<(u32, Contribution)>,
    calc: spec_fn(Op) -> u64,
    hold: u8,
    mask: u8,
    queue: Seq<u8>,
)
    requires
        queue.len() <= 6,
    ensures
        sum4(Some(rows), calc, hold, mask, queue).2 == how_many(
            gaps(rows, hold, mask, queue, hidden::reveals(mask, (6 - queue.len()) as nat)),
        ),
    decreases 6 - queue.len(), 8nat,
{
    if queue.len() == 6 {
        let list = hidden::reveals(mask, 0);
        let all = gaps(rows, hold, mask, queue, list);
        assert(queue + Seq::<u8>::empty() =~= queue);
        assert(list[0] =~= Seq::<u8>::empty());
        assert(all =~= seq![lacks(rows, hold, queue, mask)]);
        assert(all.drop_last() =~= Seq::<bool>::empty());
        assert(how_many(all.drop_last()) == 0);
    } else {
        lemma_gaps_below(rows, calc, hold, mask, queue, 7);
    }
}

/// What four lines lack is counted over all sequences of six reveals, one for each whose reset state
/// the table has no row for.
pub proof fn law_missing_states_are_counted(
    rows: Seq<(u32, Contribution)>,
    calc: spec_fn(Op) -> u64,
    hold: u8,
    mask: u8,
)
    ensures
        missing4(Some(rows), calc, hold, mask) == how_many(
            Seq::new(
                hidden::reveals(mask, 6).len(),
                |i: int|
                    lacks(
                        rows,
                        hold,
                        hidden::reveals(mask, 6)[i],
                        hidden::bag_after(mask, hidden::reveals(mask, 6)[i]),
                    ),
            ),
        ),
{
    let none = Seq::<u8>::empty();
    let list = hidden::reveals(mask, 6);
    lemma_gaps(rows, calc, hold, mask, none);
    assert forall|i: int| 0 <= i < list.len() implies none + #[trigger] list[i] == list[i] by {
        assert(none + list[i] =~= list[i]);
    }
    assert(gaps(rows, hold, mask, none, list) =~= Seq::new(
        list.len(),
        |i: int| lacks(rows, hold, list[i], hidden::bag_after(mask, list[i])),
    ));
}

} // verus!
