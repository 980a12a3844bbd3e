//! The positions of a loop as a layered graph: built placement by placement, then pruned to the
//! positions from which the loop can still be won.

use vstd::prelude::*;
use crate::game;
use crate::game::{Game, NodeKey};
use crate::graph::{MAX_HASH, TWO_LINE_HASH};
use crate::piece;
use crate::piece::{after_reveal, has, Piece};
use crate::table::Table;

verus! {

/// Where the search gets the fields that a placement leads to.
pub trait EdgeSource {
    spec fn wf(&self) -> bool;

    /// The fields that a placement of the piece on the field leads to.
    spec fn kids(&self, field: u64, piece: u8) -> Seq<u64>;

    /// No placement leaves the box.
    proof fn kids_fit(&self, field: u64, piece: u8)
        requires
            self.wf(),
            field <= MAX_HASH,
            piece < 7,
        ensures
            forall|i: int|
                0 <= i < self.kids(field, piece).len() ==> #[trigger] self.kids(field, piece)[i]
                    <= MAX_HASH,
    ;

    /// Append those fields.
    fn fetch(&mut self, field: u64, piece: Piece, out: &mut Vec<u64>)
        requires
            old(self).wf(),
            field <= MAX_HASH,
            piece < 7,
        ensures
            final(self).wf(),
            forall|f: u64, p: u8| #[trigger] final(self).kids(f, p) == old(self).kids(f, p),
            final(out)@ == old(out)@ + old(self).kids(field, piece),
    ;
}

/// The function answers for every field and piece, always in the same way, with fields of the box.
pub open spec fn gives_fields<F: Fn(u64, u8) -> Vec<u64>>(f: F) -> bool {
    &&& forall|h: u64, p: u8| h <= MAX_HASH && p < 7 ==> #[trigger] f.requires((h, p))
    &&& forall|h: u64, p: u8, a: Vec<u64>, b: Vec<u64>| #[trigger]
        f.ensures((h, p), a) && #[trigger] f.ensures((h, p), b) ==> a@ =~= b@
    &&& forall|h: u64, p: u8, r: Vec<u64>, i: int|
        h <= MAX_HASH && p < 7 && #[trigger] f.ensures((h, p), r) && 0 <= i < r@.len()
            ==> #[trigger] r@[i] <= MAX_HASH
}

/// The fields that the function gives; none where it can never answer.
pub open spec fn given_fields<F: Fn(u64, u8) -> Vec<u64>>(f: F, field: u64, piece: u8) -> Seq<u64> {
    if exists|r: Vec<u64>| f.ensures((field, piece), r) {
        (choose|r: Vec<u64>| f.ensures((field, piece), r))@
    } else {
        seq![]
    }
}

/// A function from a field and a piece to the fields that a placement leads to.
pub struct FnEdges<F: Fn(u64, u8) -> Vec<u64>> {
    pub f: F,
}

impl<F: Fn(u64, u8) -> Vec<u64>> FnEdges<F> {
    pub fn new(f: F) -> (r: Self)
        requires
            gives_fields(f),
        ensures
            r.f == f,
            r.wf(),
            forall|h: u64, p: u8| #[trigger] r.kids(h, p) == given_fields(f, h, p),
    {
        FnEdges { f }
    }
}

impl<F: Fn(u64, u8) -> Vec<u64>> EdgeSource for FnEdges<F> {
    open spec fn wf(&self) -> bool {
        gives_fields(self.f)
    }

    open spec fn kids(&self, field: u64, piece: u8) -> Seq<u64> {
        given_fields(self.f, field, piece)
    }

    proof fn kids_fit(&self, field: u64, piece: u8) {
    }

    fn fetch(&mut self, field: u64, piece: Piece, out: &mut Vec<u64>) {
        let list: Vec<u64> = (self.f)(field, piece);
        append(out, &list);
    }
}

/// Append a list to another.
pub(crate) fn append(out: &mut Vec<u64>, list: &Vec<u64>)
    ensures
        final(out)@ == old(out)@ + list@,
{
    let ghost before = out@;
    let mut i: usize = 0;
    while i < list.len()
        invariant
            i <= list@.len(),
            out@ == before + list@.take(i as int),
        decreases list@.len() - i,
    {
        out.push(list[i]);
        i = i + 1;
        assert(out@ =~= before + list@.take(i as int));
    }
    assert(list@.take(list@.len() as int) =~= list@);
}

/// A position and the places of those that it leads to.
pub struct Node {
    pub key: NodeKey,
    pub edges: Vec<usize>,
}

/// Positions in layers: those with `d` placements made stand from `starts[d]` up to
/// `starts[d + 1]`.
pub struct Dag {
    pub nodes: Vec<Node>,
    pub starts: Vec<usize>,
}

/// The positions that the edges lead to.
pub open spec fn edge_keys(nodes: Seq<Node>, edges: Seq<usize>) -> Seq<NodeKey> {
    Seq::new(edges.len(), |j: int| nodes[edges[j] as int].key)
}

/// The word of a position.
pub open spec fn node_word(k: NodeKey) -> int {
    k.field + k.depth * 0x100_0000_0000 + k.hold * 0x1000_0000_0000 + k.mask * 0x8000_0000_0000
}

pub proof fn lemma_node_word(g: Game, a: NodeKey, b: NodeKey)
    requires
        g.fits(a),
        g.fits(b),
        node_word(a) == node_word(b),
    ensures
        a == b,
{
}

fn pack_key(k: &NodeKey) -> (w: u64)
    requires
        k.field <= MAX_HASH,
        k.depth <= 10,
        k.hold < 7,
        k.mask < 128,
    ensures
        w == node_word(*k),
{
    let (f, d, h, m): (u64, u64, u64, u64) = (
        k.field,
        k.depth as u64,
        k.hold as u64,
        k.mask as u64,
    );
    assert(f | (d << 40) | (h << 44) | (m << 47) == f + d * 0x100_0000_0000 + h * 0x1000_0000_0000
        + m * 0x8000_0000_0000) by (bit_vector)
        requires
            f <= 0xFF_FFFF_FFFF,
            d <= 10,
            h < 7,
            m < 128,
    ;
    f | (d << 40) | (h << 44) | (m << 47)
}

/// The index tells where each position stands.
#[verifier::opaque]
pub open spec fn index_ok(g: Game, nodes: Seq<Node>, index: Table<usize>) -> bool {
    &&& index.wf()
    &&& forall|i: int|
        0 <= i < nodes.len() ==> g.fits((#[trigger] nodes[i]).key) && index@.dom().contains(
            node_word(nodes[i].key) as u64,
        ) && index@[node_word(nodes[i].key) as u64] == i
    &&& forall|w: u64| #[trigger]
        index@.dom().contains(w) ==> index@[w] < nodes.len() && w == node_word(
            nodes[index@[w] as int].key,
        )
}

/// The positions of the nodes differ.
pub open spec fn distinct(nodes: Seq<Node>) -> bool {
    forall|i: int, j: int| 0 <= i < j < nodes.len() ==> nodes[i].key != nodes[j].key
}

/// The later nodes add to the earlier ones.
pub open spec fn extends(a: Seq<Node>, b: Seq<Node>) -> bool {
    &&& a.len() <= b.len()
    &&& forall|i: int| 0 <= i < a.len() ==> b[i] == #[trigger] a[i]
}

fn get_or_add_node(
    nodes: &mut Vec<Node>,
    index: &mut Table<usize>,
    key: NodeKey,
    Ghost(g): Ghost<Game>,
) -> (id: usize)
    requires
        g.fits(key),
        index_ok(g, old(nodes)@, *old(index)),
    ensures
        index_ok(g, final(nodes)@, *final(index)),
        extends(old(nodes)@, final(nodes)@),
        id < final(nodes)@.len(),
        final(nodes)@[id as int].key == key,
        final(nodes)@.len() <= old(nodes)@.len() + 1,
        forall|i: int|
            old(nodes)@.len() <= i < final(nodes)@.len() ==> (#[trigger] final(nodes)@[i]).key
                == key && final(nodes)@[i].edges@.len() == 0,
{
    proof {
        reveal(index_ok);
    }
    let w: u64 = pack_key(&key);
    if let Some(id) = index.get(w) {
        let id: usize = *id;
        proof {
            lemma_node_word(g, nodes@[id as int].key, key);
        }
        return id;
    }
    let id: usize = nodes.len();
    nodes.push(Node { key, edges: Vec::new() });
    index.insert(w, id);
    proof {
        assert forall|i: int| 0 <= i < nodes@.len() implies g.fits((#[trigger] nodes@[i]).key)
            && index@.dom().contains(node_word(nodes@[i].key) as u64)
            && index@[node_word(nodes@[i].key) as u64] == i by {
            if i < id {
                assert(old(nodes)@[i] == nodes@[i]);
                assert(old(index)@.dom().contains(node_word(old(nodes)@[i].key) as u64));
            }
        }
        assert forall|v: u64| #[trigger] index@.dom().contains(v) implies index@[v] < nodes@.len()
            && v == node_word(nodes@[index@[v] as int].key) by {
            if v != w {
                assert(old(index)@.dom().contains(v));
            }
        }
    }
    id
}

/// The source agrees with the game.
pub open spec fn agrees<E: EdgeSource>(g: Game, edges: E) -> bool {
    &&& edges.wf()
    &&& forall|f: u64, p: u8| #[trigger] edges.kids(f, p) == (g.kids)(f, p)
}

fn push_placed(list: &Vec<u64>, depth: u8, hold: Piece, mask: u8, out: &mut Vec<NodeKey>)
    ensures
        final(out)@ == old(out)@ + game::placed(list@, depth, hold, mask),
{
    let ghost before = out@;
    let ghost all = game::placed(list@, depth, hold, mask);
    let mut i: usize = 0;
    while i < list.len()
        invariant
            i <= list@.len(),
            all == game::placed(list@, depth, hold, mask),
            out@ == before + all.take(i as int),
        decreases list@.len() - i,
    {
        out.push(NodeKey { depth, field: list[i], hold, mask });
        i = i + 1;
        assert(out@ =~= before + all.take(i as int));
    }
    assert(all.take(all.len() as int) =~= all);
}

/// The positions that one placement leads to.
fn node_child_keys<E: EdgeSource>(
    edges: &mut E,
    key: NodeKey,
    visible: &[Piece; 6],
    Ghost(g): Ghost<Game>,
) -> (out: Vec<NodeKey>)
    requires
        g.ok(),
        g.fits(key),
        key.depth < 10,
        visible@ == g.visible,
        agrees(g, *old(edges)),
    ensures
        agrees(g, *final(edges)),
        out@ == game::child_keys(g, key),
{
    let mut out: Vec<NodeKey> = Vec::new();
    if key.depth == 5 && key.field == TWO_LINE_HASH {
        return out;
    }
    let next: u8 = key.depth + 1;
    if key.depth < 6 {
        let active: Piece = visible[key.depth as usize];
        let mut kids: Vec<u64> = Vec::new();
        assert(active == g.visible[key.depth as int]);
        edges.fetch(key.field, active, &mut kids);
        assert(kids@ =~= (g.kids)(key.field, active));
        push_placed(&kids, next, key.hold, key.mask, &mut out);
        if active != key.hold {
            let mut hold_kids: Vec<u64> = Vec::new();
            edges.fetch(key.field, key.hold, &mut hold_kids);
            assert(hold_kids@ =~= (g.kids)(key.field, key.hold));
            push_placed(&hold_kids, next, active, key.mask, &mut out);
        }
        assert(out@ =~= game::moves(g, key, active, key.mask));
    } else {
        let mut hold_kids: Vec<u64> = Vec::new();
        edges.fetch(key.field, key.hold, &mut hold_kids);
        assert(hold_kids@ =~= (g.kids)(key.field, key.hold));
        let mut p: u8 = 0;
        while p < 7
            invariant
                p <= 7,
                g.ok(),
                g.fits(key),
                6 <= key.depth < 10,
                next == key.depth + 1,
                agrees(g, *edges),
                hold_kids@ == (g.kids)(key.field, key.hold),
                out@ == game::reveal_moves(g, key, p as nat),
            decreases 7 - p,
        {
            if has(key.mask, p) {
                let child_mask: u8 = after_reveal(key.mask, p);
                let mut kids: Vec<u64> = Vec::new();
                let ghost before = out@;
                edges.fetch(key.field, p, &mut kids);
                assert(kids@ =~= (g.kids)(key.field, p));
                push_placed(&kids, next, key.hold, child_mask, &mut out);
                if p != key.hold {
                    push_placed(&hold_kids, next, p, child_mask, &mut out);
                }
                assert(out@ =~= before + game::moves(g, key, p, child_mask));
            }
            p = p + 1;
        }
    }
    out
}

/// Enter the positions that node `id` leads to.
fn expand_node<E: EdgeSource>(
    nodes: &mut Vec<Node>,
    index: &mut Table<usize>,
    edges: &mut E,
    visible: &[Piece; 6],
    id: usize,
    Ghost(g): Ghost<Game>,
)
    requires
        g.ok(),
        visible@ == g.visible,
        id < old(nodes)@.len(),
        old(nodes)@[id as int].key.depth < 10,
        index_ok(g, old(nodes)@, *old(index)),
        agrees(g, *old(edges)),
    ensures
        agrees(g, *final(edges)),
        index_ok(g, final(nodes)@, *final(index)),
        old(nodes)@.len() <= final(nodes)@.len(),
        forall|i: int|
            0 <= i < old(nodes)@.len() ==> (#[trigger] final(nodes)@[i]).key == old(nodes)@[i].key,
        forall|i: int|
            0 <= i < old(nodes)@.len() && i != id ==> #[trigger] final(nodes)@[i]
                == old(nodes)@[i],
        forall|i: int|
            old(nodes)@.len() <= i < final(nodes)@.len() ==> game::child_keys(
                g,
                old(nodes)@[id as int].key,
            ).contains((#[trigger] final(nodes)@[i]).key) && final(nodes)@[i].edges@.len() == 0,
        ({
            let es = final(nodes)@[id as int].edges@;
            &&& forall|j: int| 0 <= j < es.len() ==> #[trigger] es[j] < final(nodes)@.len()
            &&& edge_keys(final(nodes)@, es) == game::child_keys(g, old(nodes)@[id as int].key)
        }),
{
    proof {
        reveal(index_ok);
    }
    let key: NodeKey = nodes[id].key;
    let ghost before = nodes@;
    let list = node_child_keys(edges, key, visible, Ghost(g));
    let mut es: Vec<usize> = Vec::new();
    let mut j: usize = 0;
    while j < list.len()
        invariant
            j <= list@.len(),
            g.ok(),
            g.fits(key),
            list@ == game::child_keys(g, key),
            index_ok(g, nodes@, *index),
            extends(before, nodes@),
            id < before.len(),
            before[id as int].key == key,
            es@.len() == j,
            forall|t: int|
                0 <= t < j ==> #[trigger] es@[t] < nodes@.len() && nodes@[es@[t] as int].key
                    == list@[t],
            forall|i: int|
                before.len() <= i < nodes@.len() ==> list@.contains((#[trigger] nodes@[i]).key)
                    && nodes@[i].edges@.len() == 0,
        decreases list@.len() - j,
    {
        proof {
            game::lemma_child(g, key, j as int);
        }
        let ghost mid = nodes@;
        let c: usize = get_or_add_node(nodes, index, list[j], Ghost(g));
        es.push(c);
        proof {
            assert forall|t: int| 0 <= t < j + 1 implies #[trigger] es@[t] < nodes@.len()
                && nodes@[es@[t] as int].key == list@[t] by {
                if t < j {
                    assert(mid[es@[t] as int] == nodes@[es@[t] as int]);
                }
            }
            assert forall|i: int| before.len() <= i < nodes@.len() implies list@.contains(
                (#[trigger] nodes@[i]).key,
            ) && nodes@[i].edges@.len() == 0 by {
                if i < mid.len() {
                    assert(mid[i] == nodes@[i]);
                } else {
                    assert(list@[j as int] == nodes@[i].key);
                }
            }
            assert forall|i: int| 0 <= i < before.len() implies nodes@[i] == #[trigger] before[i] by {
                assert(mid[i] == before[i]);
            }
        }
        j = j + 1;
    }
    let ghost mid = nodes@;
    nodes.set(id, Node { key, edges: es });
    proof {
        assert(mid[id as int] == before[id as int]);
        assert forall|i: int| 0 <= i < nodes@.len() implies (#[trigger] nodes@[i]).key
            == mid[i].key by {}
        assert forall|i: int| 0 <= i < before.len() implies (#[trigger] nodes@[i]).key
            == before[i].key && (i != id ==> nodes@[i] == before[i]) by {
            assert(mid[i] == before[i]);
        }
        assert(edge_keys(nodes@, es@) =~= list@);
        assert forall|i: int|
            before.len() <= i < nodes@.len() implies game::child_keys(g, key).contains(
            (#[trigger] nodes@[i]).key,
        ) && nodes@[i].edges@.len() == 0 by {
            assert(mid[i] == nodes@[i]);
        }
        assert forall|i: int| 0 <= i < nodes@.len() implies g.fits((#[trigger] nodes@[i]).key)
            && index@.dom().contains(node_word(nodes@[i].key) as u64)
            && index@[node_word(nodes@[i].key) as u64] == i by {
            assert(g.fits(mid[i].key));
        }
        assert forall|w: u64| #[trigger] index@.dom().contains(w) implies index@[w] < nodes@.len()
            && w == node_word(nodes@[index@[w] as int].key) by {}
    }
}

/// The layers up to layer `d` stand where `starts` says.
pub open spec fn layered(nodes: Seq<Node>, starts: Seq<usize>, d: int) -> bool {
    &&& starts.len() == d + 2
    &&& starts[0] == 0
    &&& forall|e: int, f: int| 0 <= e <= f <= d + 1 ==> starts[e] <= starts[f]
    &&& starts[d + 1] <= nodes.len()
    &&& forall|i: int|
        0 <= i < starts[d + 1] ==> (#[trigger] nodes[i]).key.depth <= d && in_layer(
            starts,
            nodes[i],
            i,
        )
}

/// A node stands in the layer of its position.
pub open spec fn in_layer(starts: Seq<usize>, n: Node, i: int) -> bool {
    starts[n.key.depth as int] <= i < starts[n.key.depth + 1]
}

/// Every position that can be reached with `e` placements has a node.
pub open spec fn complete(g: Game, nodes: Seq<Node>, e: int) -> bool {
    forall|k: NodeKey| #[trigger]
        game::reached(g, e as nat, k) ==> exists|i: int|
            0 <= i < nodes.len() && (#[trigger] nodes[i]).key == k
}

/// What holds while layer `d` is expanded up to node `id`.
#[verifier::opaque]
spec fn building(
    g: Game,
    nodes: Seq<Node>,
    index: Table<usize>,
    starts: Seq<usize>,
    d: int,
    id: int,
) -> bool {
    &&& index_ok(g, nodes, index)
    &&& layered(nodes, starts, d)
    &&& starts[d] <= id <= starts[d + 1]
    &&& forall|i: int| 0 <= i < nodes.len() ==> node_reached(g, #[trigger] nodes[i])
    &&& forall|i: int|
        starts[d + 1] <= i < nodes.len() ==> (#[trigger] nodes[i]).key.depth == d + 1
    &&& forall|i: int| id <= i < nodes.len() ==> (#[trigger] nodes[i]).edges@.len() == 0
    &&& forall|i: int| 0 <= i < id ==> expanded(g, nodes, #[trigger] nodes[i], i)
    &&& forall|e: int| 0 <= e <= d ==> #[trigger] complete(g, nodes, e)
}

pub open spec fn node_reached(g: Game, n: Node) -> bool {
    game::reached(g, n.key.depth as nat, n.key)
}

/// The edges of node `i` lead on, to all positions that one placement leads to.
pub open spec fn expanded(g: Game, nodes: Seq<Node>, n: Node, i: int) -> bool {
    &&& forall|j: int| 0 <= j < n.edges@.len() ==> i < #[trigger] n.edges@[j] < nodes.len()
    &&& edge_keys(nodes, n.edges@) == game::child_keys(g, n.key)
}

proof fn lemma_built_step(
    g: Game,
    a: Seq<Node>,
    b: Seq<Node>,
    ia: Table<usize>,
    ib: Table<usize>,
    starts: Seq<usize>,
    d: int,
    id: int,
)
    requires
        g.ok(),
        building(g, a, ia, starts, d, id),
        0 <= d < 10,
        id < starts[d + 1],
        index_ok(g, b, ib),
        a.len() <= b.len(),
        forall|i: int| 0 <= i < a.len() ==> (#[trigger] b[i]).key == a[i].key,
        forall|i: int| 0 <= i < a.len() && i != id ==> #[trigger] b[i] == a[i],
        forall|i: int|
            a.len() <= i < b.len() ==> game::child_keys(g, a[id].key).contains(
                (#[trigger] b[i]).key,
            ) && b[i].edges@.len() == 0,
        ({
            let es = b[id].edges@;
            &&& forall|j: int| 0 <= j < es.len() ==> #[trigger] es[j] < b.len()
            &&& edge_keys(b, es) == game::child_keys(g, a[id].key)
        }),
    ensures
        building(g, b, ib, starts, d, id + 1),
{
    reveal(building);
    reveal(index_ok);
    let key = a[id].key;
    assert(g.fits(key));
    lemma_in_layer(a, starts, d, d, id);
    assert forall|i: int| 0 <= i < b.len() implies node_reached(g, #[trigger] b[i]) by {
        if i < a.len() {
            assert(node_reached(g, a[i]));
        } else {
            let j = choose|j: int|
                0 <= j < game::child_keys(g, key).len() && game::child_keys(g, key)[j] == b[i].key;
            game::lemma_child(g, key, j);
            assert(node_reached(g, a[id]));
            assert(game::child_keys(g, key).contains(b[i].key));
        }
    }
    assert forall|i: int| starts[d + 1] <= i < b.len() implies (#[trigger] b[i]).key.depth == d + 1 by {
        if i < a.len() {
            assert(a[i].key.depth == d + 1);
        } else {
            let j = choose|j: int|
                0 <= j < game::child_keys(g, key).len() && game::child_keys(g, key)[j] == b[i].key;
            game::lemma_child(g, key, j);
        }
    }
    assert forall|i: int| 0 <= i < starts[d + 1] implies (#[trigger] b[i]).key.depth <= d && in_layer(
        starts,
        b[i],
        i,
    ) by {
        assert(a[i].key.depth <= d && in_layer(starts, a[i], i));
    }
    assert forall|i: int| id + 1 <= i < b.len() implies (#[trigger] b[i]).edges@.len() == 0 by {
        if i < a.len() {
            assert(a[i].edges@.len() == 0);
        }
    }
    assert forall|i: int| 0 <= i < id + 1 implies expanded(g, b, #[trigger] b[i], i) by {
        if i < id {
            assert(expanded(g, a, a[i], i));
            assert(edge_keys(b, b[i].edges@) =~= edge_keys(a, a[i].edges@));
        } else {
            let es = b[id].edges@;
            assert forall|j: int| 0 <= j < es.len() implies i < #[trigger] es[j] < b.len() by {
                let c = b[es[j] as int].key;
                assert(edge_keys(b, es)[j] == c);
                game::lemma_child(g, key, j);
                if es[j] <= id {
                    lemma_depth_at(b, starts, d, es[j] as int);
                }
            }
        }
    }
    assert forall|e: int| 0 <= e <= d implies #[trigger] complete(g, b, e) by {
        assert(complete(g, a, e));
        assert forall|k: NodeKey| #[trigger] game::reached(g, e as nat, k) implies exists|i: int|
            0 <= i < b.len() && (#[trigger] b[i]).key == k by {
            let i = choose|i: int| 0 <= i < a.len() && (#[trigger] a[i]).key == k;
            assert(b[i].key == k);
        }
    }
}

/// A node before the end of layer `d` has at most `d` placements made.
proof fn lemma_depth_at(nodes: Seq<Node>, starts: Seq<usize>, d: int, i: int)
    requires
        layered(nodes, starts, d),
        d >= 0,
        0 <= i < starts[d + 1],
    ensures
        nodes[i].key.depth <= d,
{
}

/// The nodes of layer `e` have `e` placements made.
pub proof fn lemma_in_layer(nodes: Seq<Node>, starts: Seq<usize>, d: int, e: int, i: int)
    requires
        layered(nodes, starts, d),
        0 <= e <= d,
        starts[e] <= i < starts[e + 1],
    ensures
        0 <= i < nodes.len(),
        nodes[i].key.depth == e,
{
    assert(starts[e + 1] <= starts[d + 1]);
    let f = nodes[i].key.depth as int;
    assert(in_layer(starts, nodes[i], i));
    if f < e {
        assert(starts[f + 1] <= starts[e]);
    }
    if e < f {
        assert(starts[e + 1] <= starts[f]);
    }
}

/// When a layer is expanded, the next one is complete.
proof fn lemma_next_complete(
    g: Game,
    nodes: Seq<Node>,
    index: Table<usize>,
    starts: Seq<usize>,
    d: int,
)
    requires
        g.ok(),
        0 <= d < 10,
        building(g, nodes, index, starts, d, starts[d + 1] as int),
    ensures
        complete(g, nodes, d + 1),
{
    reveal(building);
    assert forall|k: NodeKey| #[trigger] game::reached(g, (d + 1) as nat, k) implies exists|i: int|
        0 <= i < nodes.len() && (#[trigger] nodes[i]).key == k by {
        let q = choose|q: NodeKey|
            game::reached(g, d as nat, q) && #[trigger] game::child_keys(g, q).contains(k);
        game::lemma_reached_fits(g, d as nat, q);
        assert(complete(g, nodes, d));
        let i = choose|i: int| 0 <= i < nodes.len() && (#[trigger] nodes[i]).key == q;
        assert(i < starts[d + 1]) by {
            if i >= starts[d + 1] {
                assert(nodes[i].key.depth == d + 1);
            }
        }
        assert(expanded(g, nodes, nodes[i], i));
        let j = choose|j: int| 0 <= j < game::child_keys(g, q).len() && game::child_keys(g, q)[j] == k;
        let c = nodes[i].edges@[j] as int;
        assert(edge_keys(nodes, nodes[i].edges@)[j] == nodes[c].key);
        assert(nodes[c].key == k);
    }
}

/// What holds when layer `d` is about to be expanded.
#[verifier::opaque]
spec fn ready(g: Game, nodes: Seq<Node>, index: Table<usize>, starts: Seq<usize>, d: int) -> bool {
    &&& index_ok(g, nodes, index)
    &&& starts.len() == d + 1
    &&& layered(nodes, starts.push(nodes.len() as usize), d)
    &&& forall|i: int| 0 <= i < nodes.len() ==> node_reached(g, #[trigger] nodes[i])
    &&& forall|i: int| starts[d] <= i < nodes.len() ==> (#[trigger] nodes[i]).edges@.len() == 0
    &&& forall|i: int| 0 <= i < starts[d] ==> expanded(g, nodes, #[trigger] nodes[i], i)
    &&& forall|e: int| 0 <= e <= d ==> #[trigger] complete(g, nodes, e)
}

proof fn lemma_ready_root(g: Game, nodes: Seq<Node>, index: Table<usize>, starts: Seq<usize>)
    requires
        index_ok(g, nodes, index),
        nodes.len() == 1,
        nodes[0].key == g.root(),
        nodes[0].edges@.len() == 0,
        starts == seq![0usize],
    ensures
        ready(g, nodes, index, starts, 0),
{
    reveal(ready);
    assert forall|k: NodeKey| #[trigger] game::reached(g, 0, k) implies exists|i: int|
        0 <= i < nodes.len() && (#[trigger] nodes[i]).key == k by {
        assert(nodes[0].key == k);
    }
    assert(complete(g, nodes, 0));
    let more = starts.push(nodes.len() as usize);
    assert(more[0] == 0 && more[1] == 1);
}

proof fn lemma_open_layer(
    g: Game,
    nodes: Seq<Node>,
    index: Table<usize>,
    starts: Seq<usize>,
    d: int,
    end: usize,
)
    requires
        ready(g, nodes, index, starts, d),
        0 <= d < 10,
        end == nodes.len(),
    ensures
        building(g, nodes, index, starts.push(end), d, starts[d] as int),
        starts.push(end)[d] == starts[d],
        starts.push(end)[d + 1] == end,
        starts[d] <= end,
{
    reveal(ready);
    reveal(building);
    let more = starts.push(end);
    assert(more[d] <= more[d + 1]);
}

/// The node that is next has `d` placements made.
proof fn lemma_next_node(
    g: Game,
    nodes: Seq<Node>,
    index: Table<usize>,
    starts: Seq<usize>,
    d: int,
    id: int,
)
    requires
        building(g, nodes, index, starts, d, id),
        0 <= d < 10,
        id < starts[d + 1],
    ensures
        index_ok(g, nodes, index),
        0 <= id < nodes.len(),
        nodes[id].key.depth == d,
{
    reveal(building);
    lemma_in_layer(nodes, starts, d, d, id);
}

proof fn lemma_close_layer(
    g: Game,
    nodes: Seq<Node>,
    index: Table<usize>,
    starts: Seq<usize>,
    d: int,
)
    requires
        g.ok(),
        0 <= d < 10,
        nodes.len() <= usize::MAX,
        building(g, nodes, index, starts, d, starts[d + 1] as int),
    ensures
        ready(g, nodes, index, starts, d + 1),
{
    lemma_next_complete(g, nodes, index, starts, d);
    reveal(ready);
    reveal(building);
    let more = starts.push(nodes.len() as usize);
    assert forall|i: int| 0 <= i < more[d + 2] implies (#[trigger] nodes[i]).key.depth <= d + 1
        && in_layer(more, nodes[i], i) by {
        if i < starts[d + 1] {
            assert(in_layer(starts, nodes[i], i));
        } else {
            assert(nodes[i].key.depth == d + 1);
        }
    }
    assert(layered(nodes, more, d + 1));
}

proof fn lemma_built(
    g: Game,
    nodes: Seq<Node>,
    index: Table<usize>,
    starts: Seq<usize>,
    dag: Dag,
)
    requires
        g.ok(),
        ready(g, nodes, index, starts, 10),
        nodes.len() > 0,
        nodes[0].key == g.root(),
        dag.nodes@ == nodes,
        dag.starts@ == starts.push(nodes.len() as usize),
        nodes.len() <= usize::MAX,
    ensures
        full_dag(g, dag),
{
    reveal(ready);
    reveal(index_ok);
    reveal(full_dag);
    let more = dag.starts@;
    assert forall|i: int| 0 <= i < nodes.len() implies expanded(g, nodes, #[trigger] nodes[i], i) by {
        if i >= starts[10] {
            lemma_in_layer(nodes, more, 10, 10, i);
            assert(edge_keys(nodes, nodes[i].edges@) =~= game::child_keys(g, nodes[i].key));
        }
    }
}

/// All positions of the game, each once, with all placements.
#[verifier::opaque]
pub open spec fn full_dag(g: Game, dag: Dag) -> bool {
    let nodes = dag.nodes@;
    &&& layered(nodes, dag.starts@, 10)
    &&& dag.starts@[11] == nodes.len()
    &&& distinct(nodes)
    &&& forall|i: int| 0 <= i < nodes.len() ==> g.fits((#[trigger] nodes[i]).key)
    &&& forall|i: int| 0 <= i < nodes.len() ==> node_reached(g, #[trigger] nodes[i])
    &&& forall|e: int| 0 <= e <= 10 ==> #[trigger] complete(g, nodes, e)
    &&& forall|i: int| 0 <= i < nodes.len() ==> expanded(g, nodes, #[trigger] nodes[i], i)
    &&& nodes.len() > 0
    &&& nodes[0].key == g.root()
}

pub(crate) fn build_dag<E: EdgeSource>(
    edges: &mut E,
    hold: Piece,
    visible: &[Piece; 6],
    initial_mask: u8,
    Ghost(g): Ghost<Game>,
) -> (dag: Dag)
    requires
        g.ok(),
        g.hold == hold,
        g.visible == visible@,
        g.mask == initial_mask,
        agrees(g, *old(edges)),
    ensures
        agrees(g, *final(edges)),
        full_dag(g, dag),
{
    let mut nodes: Vec<Node> = Vec::new();
    let mut index: Table<usize> = Table::new();
    let root = NodeKey { depth: 0, field: 0, hold, mask: initial_mask };
    proof {
        reveal(index_ok);
    }
    let _root: usize = get_or_add_node(&mut nodes, &mut index, root, Ghost(g));
    let mut starts: Vec<usize> = Vec::new();
    starts.push(0);
    let mut depth: u8 = 0;
    proof {
        lemma_ready_root(g, nodes@, index, starts@);
    }
    while depth < 10
        invariant
            depth <= 10,
            g.ok(),
            g.visible == visible@,
            agrees(g, *edges),
            starts@.len() == depth + 1,
            ready(g, nodes@, index, starts@, depth as int),
            nodes@.len() > 0,
            nodes@[0].key == g.root(),
        decreases 10 - depth,
    {
        let first: usize = starts[depth as usize];
        let end: usize = nodes.len();
        proof {
            lemma_open_layer(g, nodes@, index, starts@, depth as int, end);
        }
        starts.push(end);
        let mut id: usize = first;
        while id < end
            invariant
                depth < 10,
                g.ok(),
                g.visible == visible@,
                agrees(g, *edges),
                starts@.len() == depth + 2,
                starts@[depth + 1] == end,
                id <= end,
                building(g, nodes@, index, starts@, depth as int, id as int),
                nodes@.len() > 0,
                nodes@[0].key == g.root(),
            decreases end - id,
        {
            let ghost a = nodes@;
            let ghost ia = index;
            proof {
                lemma_next_node(g, nodes@, index, starts@, depth as int, id as int);
            }
            expand_node(&mut nodes, &mut index, edges, visible, id, Ghost(g));
            proof {
                lemma_built_step(g, a, nodes@, ia, index, starts@, depth as int, id as int);
            }
            id = id + 1;
        }
        let _size: usize = nodes.len();
        proof {
            lemma_close_layer(g, nodes@, index, starts@, depth as int);
        }
        depth = depth + 1;
    }
    let total: usize = nodes.len();
    let ghost before = starts@;
    starts.push(total);
    let dag = Dag { nodes, starts };
    proof {
        lemma_built(g, nodes@, index, before, dag);
    }
    dag
}

/// The edges of node `i` lead on, to all positions that one placement leads to and from which the
/// loop can still be won.
pub open spec fn expanded_live(g: Game, nodes: Seq<Node>, n: Node, i: int) -> bool {
    &&& forall|j: int| 0 <= j < n.edges@.len() ==> i < #[trigger] n.edges@[j] < nodes.len()
    &&& edge_keys(nodes, n.edges@) == game::live_children(g, n.key)
}

/// All positions of the game from which it can still be won, each once.
#[verifier::opaque]
pub open spec fn live_dag(g: Game, dag: Dag) -> bool {
    let nodes = dag.nodes@;
    &&& layered(nodes, dag.starts@, 10)
    &&& dag.starts@[11] == nodes.len()
    &&& distinct(nodes)
    &&& forall|i: int| 0 <= i < nodes.len() ==> g.fits((#[trigger] nodes[i]).key)
    &&& forall|i: int|
        0 <= i < nodes.len() ==> node_reached(g, #[trigger] nodes[i]) && game::alive(
            g,
            nodes[i].key,
        )
    &&& forall|e: int| 0 <= e <= 10 ==> #[trigger] complete_live(g, nodes, e)
    &&& forall|i: int| 0 <= i < nodes.len() ==> expanded_live(g, nodes, #[trigger] nodes[i], i)
    &&& game::alive(g, g.root()) ==> nodes.len() > 0 && nodes[0].key == g.root()
}

/// Every position that can be reached with `e` placements and still be won has a node.
pub open spec fn complete_live(g: Game, nodes: Seq<Node>, e: int) -> bool {
    forall|k: NodeKey| #[trigger]
        game::reached(g, e as nat, k) && game::alive(g, k) ==> exists|i: int|
            0 <= i < nodes.len() && (#[trigger] nodes[i]).key == k
}

proof fn lemma_full_node(g: Game, dag: Dag, i: int)
    requires
        full_dag(g, dag),
        0 <= i < dag.nodes@.len(),
    ensures
        g.fits(dag.nodes@[i].key),
        node_reached(g, dag.nodes@[i]),
        expanded(g, dag.nodes@, dag.nodes@[i], i),
{
    reveal(full_dag);
}

proof fn lemma_full_layers(g: Game, dag: Dag)
    requires
        full_dag(g, dag),
    ensures
        layered(dag.nodes@, dag.starts@, 10),
        dag.starts@[11] == dag.nodes@.len(),
{
    reveal(full_dag);
}

spec fn marks(g: Game, nodes: Seq<Node>, marked: Seq<bool>, from: int) -> bool {
    &&& marked.len() == nodes.len()
    &&& forall|i: int|
        from <= i < nodes.len() ==> #[trigger] marked[i] == game::alive(g, nodes[i].key)
}

/// Whether the loop can still be won from node `id`.
fn mark_of(dag: &Dag, marked: &Vec<bool>, id: usize, Ghost(g): Ghost<Game>) -> (r: bool)
    requires
        g.ok(),
        full_dag(g, *dag),
        id < dag.nodes@.len(),
        marks(g, dag.nodes@, marked@, id + 1),
    ensures
        r == game::alive(g, dag.nodes@[id as int].key),
{
    let key: NodeKey = dag.nodes[id].key;
    let ghost nodes = dag.nodes@;
    proof {
        lemma_full_node(g, *dag, id as int);
    }
    if key.depth == 10 {
        return key.field == MAX_HASH;
    }
    if key.depth == 5 && key.field == TWO_LINE_HASH {
        return true;
    }
    let ghost list = game::child_keys(g, key);
    let ghost es = nodes[id as int].edges@;
    proof {
        assert forall|j: int| 0 <= j < es.len() implies marked@[#[trigger] es[j] as int]
            == game::survives(g, (game::left_of(key) - 1) as nat, list[j]) by {
            assert(edge_keys(nodes, es)[j] == nodes[es[j] as int].key);
            game::lemma_child(g, key, j);
        }
    }
    let mut j: usize = 0;
    while j < dag.nodes[id].edges.len()
        invariant
            id < dag.nodes@.len(),
            es == dag.nodes@[id as int].edges@,
            key == dag.nodes@[id as int].key,
            list == game::child_keys(g, key),
            key.depth < 10,
            !game::two_lines(key),
            j <= es.len(),
            es.len() == list.len(),
            forall|t: int| 0 <= t < es.len() ==> #[trigger] es[t] < marked@.len(),
            forall|t: int|
                0 <= t < es.len() ==> marked@[#[trigger] es[t] as int] == game::survives(
                    g,
                    (game::left_of(key) - 1) as nat,
                    list[t],
                ),
            forall|t: int|
                0 <= t < j ==> !game::survives(
                    g,
                    (game::left_of(key) - 1) as nat,
                    #[trigger] list[t],
                ),
        decreases es.len() - j,
    {
        let c: usize = dag.nodes[id].edges[j];
        assert(c == es[j as int]);
        if marked[c] {
            return true;
        }
        j = j + 1;
    }
    false
}

fn mark_all(dag: &Dag, Ghost(g): Ghost<Game>) -> (marked: Vec<bool>)
    requires
        g.ok(),
        full_dag(g, *dag),
    ensures
        marks(g, dag.nodes@, marked@, 0),
{
    let mut marked: Vec<bool> = vec![false; dag.nodes.len()];
    let mut id: usize = dag.nodes.len();
    while id > 0
        invariant
            g.ok(),
            full_dag(g, *dag),
            id <= dag.nodes@.len(),
            marks(g, dag.nodes@, marked@, id as int),
        decreases id,
    {
        id = id - 1;
        let m: bool = mark_of(dag, &marked, id, Ghost(g));
        marked.set(id, m);
    }
    marked
}

/// The survivors among the first `upto` nodes, in their order, without edges.
#[verifier::opaque]
spec fn renumbered(
    old_nodes: Seq<Node>,
    marked: Seq<bool>,
    nodes: Seq<Node>,
    to_new: Seq<usize>,
    upto: int,
) -> bool {
    &&& to_new.len() == upto
    &&& forall|i: int|
        0 <= i < upto && marked[i] ==> #[trigger] to_new[i] < nodes.len() && nodes[to_new[i] as int].key
            == old_nodes[i].key
    &&& forall|i: int, j: int|
        0 <= i < j < upto && marked[i] && marked[j] ==> #[trigger] to_new[i] < #[trigger] to_new[j]
    &&& forall|n: int| 0 <= n < nodes.len() ==> #[trigger] comes_from(marked, to_new, upto, n)
}

/// The positions of `a` from which the loop can still be won stand in `b` in their order: number `i`
/// of `a` is number `at[i]` of `b`.
pub open spec fn kept_in_order(g: Game, a: Seq<Node>, b: Seq<Node>, at: Seq<usize>) -> bool {
    &&& at.len() == a.len()
    &&& forall|i: int|
        0 <= i < a.len() && game::alive(g, a[i].key) ==> #[trigger] at[i] < b.len()
            && b[at[i] as int].key == a[i].key
    &&& forall|i: int, j: int|
        0 <= i < j < a.len() && game::alive(g, a[i].key) && game::alive(g, a[j].key)
            ==> #[trigger] at[i] < #[trigger] at[j]
}

/// One of the survivors is number `n`.
spec fn comes_from(marked: Seq<bool>, to_new: Seq<usize>, upto: int, n: int) -> bool {
    exists|i: int| 0 <= i < upto && marked[i] && #[trigger] to_new[i] == n
}

fn keep_survivors(dag: &Dag, marked: &Vec<bool>, Ghost(g): Ghost<Game>) -> (r: (Dag, Vec<usize>))
    requires
        full_dag(g, *dag),
        marks(g, dag.nodes@, marked@, 0),
    ensures
        renumbered(dag.nodes@, marked@, r.0.nodes@, r.1@, dag.nodes@.len() as int),
        layered(r.0.nodes@, r.0.starts@, 10),
        r.0.starts@[11] == r.0.nodes@.len(),
{
    let ghost old_nodes = dag.nodes@;
    let ghost old_starts = dag.starts@;
    let mut nodes: Vec<Node> = Vec::new();
    let mut starts: Vec<usize> = Vec::new();
    let mut to_new: Vec<usize> = Vec::new();
    starts.push(0);
    let mut d: usize = 0;
    proof {
        reveal(renumbered);
        lemma_full_layers(g, *dag);
    }
    while d <= 10
        invariant
            d <= 11,
            layered(old_nodes, old_starts, 10),
            old_starts[11] == old_nodes.len(),
            old_nodes == dag.nodes@,
            old_starts == dag.starts@,
            marks(g, old_nodes, marked@, 0),
            starts@.len() == d + 1,
            starts@[d as int] == nodes@.len(),
            starts@[0] == 0,
            forall|e: int, f: int| 0 <= e <= f <= d ==> starts@[e] <= starts@[f],
            forall|i: int|
                0 <= i < nodes@.len() ==> (#[trigger] nodes@[i]).key.depth < d && in_layer(
                    starts@,
                    nodes@[i],
                    i,
                ),
            renumbered(old_nodes, marked@, nodes@, to_new@, old_starts[d as int] as int),
        decreases 11 - d,
    {
        let first: usize = dag.starts[d];
        let end: usize = dag.starts[d + 1];
        let ghost base = nodes@.len();
        let mut id: usize = first;
        proof {
            assert(old_starts[d as int] <= old_starts[d + 1] <= old_starts[11]);
        }
        while id < end
            invariant
                d <= 10,
                layered(old_nodes, old_starts, 10),
                old_starts[11] == old_nodes.len(),
                old_nodes == dag.nodes@,
                old_starts == dag.starts@,
                marks(g, old_nodes, marked@, 0),
                first == old_starts[d as int],
                end == old_starts[d + 1],
                first <= id <= end <= old_nodes.len(),
                starts@.len() == d + 1,
                starts@[d as int] == base,
                base <= nodes@.len(),
                starts@[0] == 0,
                forall|e: int, f: int| 0 <= e <= f <= d ==> starts@[e] <= starts@[f],
                forall|i: int|
                    0 <= i < base ==> (#[trigger] nodes@[i]).key.depth < d && in_layer(
                        starts@,
                        nodes@[i],
                        i,
                    ),
                forall|i: int| base <= i < nodes@.len() ==> (#[trigger] nodes@[i]).key.depth == d,
                renumbered(old_nodes, marked@, nodes@, to_new@, id as int),
            decreases end - id,
        {
            let ghost was = nodes@;
            let ghost was_new = to_new@;
            proof {
                reveal(renumbered);
            }
            let n: usize = nodes.len();
            to_new.push(n);
            if marked[id] {
                let key: NodeKey = dag.nodes[id].key;
                nodes.push(Node { key, edges: Vec::new() });
                proof {
                    lemma_in_layer(old_nodes, old_starts, 10, d as int, id as int);
                }
            }
            proof {
                assert forall|i: int| 0 <= i < id + 1 && marked@[i] implies #[trigger] to_new@[i]
                    < nodes@.len() && nodes@[to_new@[i] as int].key == old_nodes[i].key by {
                    if i < id {
                        assert(was_new[i] == to_new@[i]);
                    }
                }
                assert forall|i: int, j: int|
                    0 <= i < j < id + 1 && marked@[i] && marked@[j] implies #[trigger] to_new@[i]
                    < #[trigger] to_new@[j] by {
                    assert(was_new[i] == to_new@[i]);
                    if j < id {
                        assert(was_new[j] == to_new@[j]);
                    }
                }
                assert forall|m: int| 0 <= m < nodes@.len() implies #[trigger] comes_from(
                    marked@,
                    to_new@,
                    id + 1,
                    m,
                ) by {
                    if m < was.len() {
                        assert(comes_from(marked@, was_new, id as int, m));
                        let i = choose|i: int| 0 <= i < id && marked@[i] && #[trigger] was_new[i] == m;
                        assert(to_new@[i] == m);
                    } else {
                        assert(to_new@[id as int] == m);
                    }
                }
            }
            id = id + 1;
        }
        let ghost was = starts@;
        let size: usize = nodes.len();
        starts.push(size);
        proof {
            assert forall|i: int| 0 <= i < nodes@.len() implies (#[trigger] nodes@[i]).key.depth
                < d + 1 && in_layer(starts@, nodes@[i], i) by {
                if i < base {
                    assert(in_layer(was, nodes@[i], i));
                } else {
                    assert(nodes@[i].key.depth == d);
                }
            }
        }
        d = d + 1;
    }
    (Dag { nodes, starts }, to_new)
}

proof fn lemma_renumbered(
    old_nodes: Seq<Node>,
    marked: Seq<bool>,
    nodes: Seq<Node>,
    to_new: Seq<usize>,
    i: int,
)
    requires
        renumbered(old_nodes, marked, nodes, to_new, old_nodes.len() as int),
        0 <= i < old_nodes.len(),
        marked[i],
    ensures
        to_new.len() == old_nodes.len(),
        to_new[i] < nodes.len(),
        nodes[to_new[i] as int].key == old_nodes[i].key,
        forall|j: int| 0 <= j < i && marked[j] ==> #[trigger] to_new[j] < to_new[i],
{
    reveal(renumbered);
}

/// The node that became number `n`.
proof fn lemma_comes_from(
    old_nodes: Seq<Node>,
    marked: Seq<bool>,
    nodes: Seq<Node>,
    to_new: Seq<usize>,
    n: int,
) -> (i: int)
    requires
        renumbered(old_nodes, marked, nodes, to_new, old_nodes.len() as int),
        0 <= n < nodes.len(),
    ensures
        0 <= i < old_nodes.len(),
        marked[i],
        to_new[i] == n,
        nodes[n].key == old_nodes[i].key,
{
    reveal(renumbered);
    assert(comes_from(marked, to_new, old_nodes.len() as int, n));
    choose|i: int| 0 <= i < old_nodes.len() && marked[i] && #[trigger] to_new[i] == n
}

/// The edges of a node that lead to survivors, renumbered.
fn keep_edges(
    edges: &Vec<usize>,
    marked: &Vec<bool>,
    to_new: &Vec<usize>,
    Ghost(g): Ghost<Game>,
    Ghost(old_nodes): Ghost<Seq<Node>>,
    Ghost(nodes): Ghost<Seq<Node>>,
    Ghost(id): Ghost<int>,
) -> (out: Vec<usize>)
    requires
        0 <= id < old_nodes.len(),
        marked@[id],
        edges@ == old_nodes[id].edges@,
        g.ok(),
        g.fits(old_nodes[id].key),
        old_nodes[id].key.depth < 10,
        expanded(g, old_nodes, old_nodes[id], id),
        marks(g, old_nodes, marked@, 0),
        renumbered(old_nodes, marked@, nodes, to_new@, old_nodes.len() as int),
    ensures
        forall|j: int| 0 <= j < out@.len() ==> to_new@[id] < #[trigger] out@[j] < nodes.len(),
        edge_keys(nodes, out@) == game::live_children(g, old_nodes[id].key),
{
    let ghost key = old_nodes[id].key;
    let ghost list = game::child_keys(g, key);
    let ghost left = (game::left_of(key) - 1) as nat;
    let mut out: Vec<usize> = Vec::new();
    let mut j: usize = 0;
    assert(list.take(0) =~= Seq::<NodeKey>::empty());
    while j < edges.len()
        invariant
            j <= edges@.len(),
            0 <= id < old_nodes.len(),
            marked@[id],
            edges@ == old_nodes[id].edges@,
            g.ok(),
            key == old_nodes[id].key,
            g.fits(key),
            key.depth < 10,
            list == game::child_keys(g, key),
            left == game::left_of(key) - 1,
            expanded(g, old_nodes, old_nodes[id], id),
            marks(g, old_nodes, marked@, 0),
            renumbered(old_nodes, marked@, nodes, to_new@, old_nodes.len() as int),
            forall|t: int| 0 <= t < out@.len() ==> to_new@[id] < #[trigger] out@[t] < nodes.len(),
            edge_keys(nodes, out@) == game::live_keys(g, left, list.take(j as int)),
        decreases edges@.len() - j,
    {
        let c: usize = edges[j];
        proof {
            assert(id < edges@[j as int] < old_nodes.len());
            assert(edge_keys(old_nodes, edges@)[j as int] == old_nodes[c as int].key);
            game::lemma_child(g, key, j as int);
            assert(list.take(j + 1).drop_last() =~= list.take(j as int));
            assert(list.take(j + 1).last() == list[j as int]);
            assert(marked@[c as int] == game::alive(g, old_nodes[c as int].key));
        }
        if marked[c] {
            let ghost was = out@;
            proof {
                lemma_renumbered(old_nodes, marked@, nodes, to_new@, c as int);
            }
            out.push(to_new[c]);
            proof {
                assert(to_new@[id] < to_new@[c as int]);
                assert(edge_keys(nodes, out@) =~= edge_keys(nodes, was).push(list[j as int]));
            }
        }
        j = j + 1;
    }
    assert(list.take(list.len() as int) =~= list);
    out
}

/// Keep the positions from which the loop can still be won.
pub(crate) fn prune_to_terminal_reachable(dag: &Dag, Ghost(g): Ghost<Game>) -> (r: Dag)
    requires
        g.ok(),
        full_dag(g, *dag),
    ensures
        live_dag(g, r),
        exists|at: Seq<usize>| #[trigger] kept_in_order(g, dag.nodes@, r.nodes@, at),
{
    let marked = mark_all(dag, Ghost(g));
    let (mut pruned, to_new) = keep_survivors(dag, &marked, Ghost(g));
    let ghost bare = pruned.nodes@;
    let ghost old_nodes = dag.nodes@;
    let mut id: usize = 0;
    while id < dag.nodes.len()
        invariant
            id <= old_nodes.len(),
            g.ok(),
            full_dag(g, *dag),
            old_nodes == dag.nodes@,
            marks(g, old_nodes, marked@, 0),
            renumbered(old_nodes, marked@, bare, to_new@, old_nodes.len() as int),
            layered(bare, pruned.starts@, 10),
            pruned.starts@[11] == bare.len(),
            pruned.nodes@.len() == bare.len(),
            forall|n: int| 0 <= n < bare.len() ==> (#[trigger] pruned.nodes@[n]).key == bare[n].key,
            forall|i: int|
                0 <= i < id && marked@[i] ==> expanded_live(
                    g,
                    bare,
                    pruned.nodes@[#[trigger] to_new@[i] as int],
                    to_new@[i] as int,
                ),
        decreases old_nodes.len() - id,
    {
        if marked[id] {
            let key: NodeKey = dag.nodes[id].key;
            proof {
                lemma_renumbered(old_nodes, marked@, bare, to_new@, id as int);
                lemma_full_node(g, *dag, id as int);
            }
            let n: usize = to_new[id];
            let edges: Vec<usize>;
            if key.depth < 10 {
                edges = keep_edges(
                    &dag.nodes[id].edges,
                    &marked,
                    &to_new,
                    Ghost(g),
                    Ghost(old_nodes),
                    Ghost(bare),
                    Ghost(id as int),
                );
            } else {
                edges = Vec::new();
                assert(edge_keys(bare, edges@) =~= game::live_children(g, key));
            }
            let ghost was = pruned.nodes@;
            pruned.nodes.set(n, Node { key, edges });
            proof {
                assert forall|i: int| 0 <= i < id + 1 && marked@[i] implies expanded_live(
                    g,
                    bare,
                    pruned.nodes@[#[trigger] to_new@[i] as int],
                    to_new@[i] as int,
                ) by {
                    if i < id {
                        assert(to_new@[i] < to_new@[id as int]);
                    }
                }
            }
        }
        id = id + 1;
    }
    proof {
        lemma_pruned(g, *dag, marked@, bare, to_new@, pruned);
        reveal(renumbered);
        assert(kept_in_order(g, dag.nodes@, pruned.nodes@, to_new@));
    }
    pruned
}

/// What is known when all edges are renumbered.
spec fn relinked(
    g: Game,
    olds: Seq<Node>,
    marked: Seq<bool>,
    bare: Seq<Node>,
    to_new: Seq<usize>,
    nodes: Seq<Node>,
) -> bool {
    &&& marks(g, olds, marked, 0)
    &&& renumbered(olds, marked, bare, to_new, olds.len() as int)
    &&& nodes.len() == bare.len()
    &&& forall|n: int| 0 <= n < bare.len() ==> (#[trigger] nodes[n]).key == bare[n].key
    &&& forall|i: int|
        0 <= i < olds.len() && marked[i] ==> expanded_live(
            g,
            bare,
            nodes[#[trigger] to_new[i] as int],
            to_new[i] as int,
        )
}

proof fn lemma_pruned_node(
    g: Game,
    dag: Dag,
    marked: Seq<bool>,
    bare: Seq<Node>,
    to_new: Seq<usize>,
    nodes: Seq<Node>,
    i: int,
)
    requires
        full_dag(g, dag),
        relinked(g, dag.nodes@, marked, bare, to_new, nodes),
        0 <= i < nodes.len(),
    ensures
        g.fits(nodes[i].key),
        node_reached(g, nodes[i]),
        game::alive(g, nodes[i].key),
        expanded_live(g, nodes, nodes[i], i),
{
    let olds = dag.nodes@;
    let o = lemma_comes_from(olds, marked, bare, to_new, i);
    lemma_full_node(g, dag, o);
    assert(marked[o] == game::alive(g, olds[o].key));
    assert(expanded_live(g, bare, nodes[to_new[o] as int], to_new[o] as int));
    assert(edge_keys(nodes, nodes[i].edges@) =~= edge_keys(bare, nodes[i].edges@));
}

proof fn lemma_pruned_distinct(
    g: Game,
    dag: Dag,
    marked: Seq<bool>,
    bare: Seq<Node>,
    to_new: Seq<usize>,
    nodes: Seq<Node>,
)
    requires
        full_dag(g, dag),
        relinked(g, dag.nodes@, marked, bare, to_new, nodes),
    ensures
        distinct(nodes),
{
    let olds = dag.nodes@;
    assert(distinct(olds)) by {
        reveal(full_dag);
    }
    assert forall|i: int, j: int| 0 <= i < j < nodes.len() implies nodes[i].key != nodes[j].key by {
        let a = lemma_comes_from(olds, marked, bare, to_new, i);
        let b = lemma_comes_from(olds, marked, bare, to_new, j);
        assert(nodes[i].key == bare[i].key);
        assert(nodes[j].key == bare[j].key);
        if a < b {
            assert(olds[a].key != olds[b].key);
        } else if b < a {
            assert(olds[b].key != olds[a].key);
        }
    }
}

proof fn lemma_pruned_complete(
    g: Game,
    dag: Dag,
    marked: Seq<bool>,
    bare: Seq<Node>,
    to_new: Seq<usize>,
    nodes: Seq<Node>,
    e: int,
)
    requires
        full_dag(g, dag),
        relinked(g, dag.nodes@, marked, bare, to_new, nodes),
        0 <= e <= 10,
    ensures
        complete_live(g, nodes, e),
{
    let olds = dag.nodes@;
    assert(complete(g, olds, e)) by {
        reveal(full_dag);
    }
    assert forall|k: NodeKey| #[trigger]
        game::reached(g, e as nat, k) && game::alive(g, k) implies exists|i: int|
        0 <= i < nodes.len() && (#[trigger] nodes[i]).key == k by {
        let o = choose|o: int| 0 <= o < olds.len() && (#[trigger] olds[o]).key == k;
        assert(marked[o] == game::alive(g, olds[o].key));
        lemma_renumbered(olds, marked, bare, to_new, o);
        assert(nodes[to_new[o] as int].key == k);
    }
}

proof fn lemma_pruned_root(
    g: Game,
    dag: Dag,
    marked: Seq<bool>,
    bare: Seq<Node>,
    to_new: Seq<usize>,
    nodes: Seq<Node>,
)
    requires
        full_dag(g, dag),
        relinked(g, dag.nodes@, marked, bare, to_new, nodes),
        game::alive(g, g.root()),
    ensures
        nodes.len() > 0,
        nodes[0].key == g.root(),
{
    let olds = dag.nodes@;
    assert(olds.len() > 0 && olds[0].key == g.root()) by {
        reveal(full_dag);
    }
    assert(marked[0] == game::alive(g, olds[0].key));
    lemma_renumbered(olds, marked, bare, to_new, 0);
    if to_new[0] > 0 {
        let o = lemma_comes_from(olds, marked, bare, to_new, 0);
        lemma_renumbered(olds, marked, bare, to_new, o);
        assert(to_new[0] < to_new[o]);
    }
    assert(nodes[0].key == bare[0].key);
}

proof fn lemma_pruned(
    g: Game,
    dag: Dag,
    marked: Seq<bool>,
    bare: Seq<Node>,
    to_new: Seq<usize>,
    pruned: Dag,
)
    requires
        full_dag(g, dag),
        relinked(g, dag.nodes@, marked, bare, to_new, pruned.nodes@),
        layered(bare, pruned.starts@, 10),
        pruned.starts@[11] == bare.len(),
    ensures
        live_dag(g, pruned),
{
    let nodes = pruned.nodes@;
    let starts = pruned.starts@;
    assert forall|i: int| 0 <= i < nodes.len() implies g.fits((#[trigger] nodes[i]).key)
        && node_reached(g, nodes[i]) && game::alive(g, nodes[i].key) && expanded_live(
        g,
        nodes,
        nodes[i],
        i,
    ) by {
        lemma_pruned_node(g, dag, marked, bare, to_new, nodes, i);
    }
    lemma_pruned_distinct(g, dag, marked, bare, to_new, nodes);
    assert forall|e: int| 0 <= e <= 10 implies #[trigger] complete_live(g, nodes, e) by {
        lemma_pruned_complete(g, dag, marked, bare, to_new, nodes, e);
    }
    assert forall|i: int| 0 <= i < starts[11] implies (#[trigger] nodes[i]).key.depth <= 10
        && in_layer(starts, nodes[i], i) by {
        assert(in_layer(starts, bare[i], i));
    }
    if game::alive(g, g.root()) {
        lemma_pruned_root(g, dag, marked, bare, to_new, nodes);
    }
    reveal(live_dag);
}

} // verus!
