//! The flattener: the largest nodes of a finished tree, in ranking order.

use vstd::prelude::*;
use vstd::utf8::encode_utf8;
use crate::node::{all_sound, views, DiskItem, NodeView};

verus! {

/// Whether the bytes `a` come before the bytes `b` in dictionary order.
pub open spec fn bytes_before(a: Seq<u8>, b: Seq<u8>) -> bool
    decreases a.len(),
{
    if b.len() == 0 {
        false
    } else if a.len() == 0 {
        true
    } else if a[0] != b[0] {
        a[0] < b[0]
    } else {
        bytes_before(a.drop_first(), b.drop_first())
    }
}

/// The bytes by which the paths of two nodes of equal size are told apart.
pub open spec fn path_bytes(node: NodeView) -> Seq<u8> {
    encode_utf8(node.path)
}

/// Whether `a` is listed before `b` on its own merits: it is larger, or as
/// large with a path that comes first.
pub open spec fn outranks(a: NodeView, b: NodeView) -> bool {
    a.size_bytes > b.size_bytes || (a.size_bytes == b.size_bytes && bytes_before(
        path_bytes(a),
        path_bytes(b),
    ))
}

/// No node is outranked by one that stands behind it.
pub open spec fn ranked(nodes: Seq<NodeView>) -> bool {
    forall|i: int, j: int| 0 <= i < j < nodes.len() ==> !outranks(nodes[j], nodes[i])
}

/// Where `node` enters a ranked sequence: before the nodes at the end that
/// it outranks, and so behind every node of its own rank.
pub open spec fn rank_position(nodes: Seq<NodeView>, node: NodeView) -> int
    decreases nodes.len(),
{
    if nodes.len() > 0 && outranks(node, nodes.last()) {
        rank_position(nodes.drop_last(), node)
    } else {
        nodes.len() as int
    }
}

/// The ranked sequence with `node` entered at its position.
pub open spec fn insert_ranked(nodes: Seq<NodeView>, node: NodeView) -> Seq<NodeView> {
    nodes.insert(rank_position(nodes, node), node)
}

/// The nodes in ranking order: larger first, among equals the earlier path
/// first, and among nodes that still tie the one that came first.
pub open spec fn ranking(nodes: Seq<NodeView>) -> Seq<NodeView>
    decreases nodes.len(),
{
    if nodes.len() == 0 {
        Seq::empty()
    } else {
        insert_ranked(ranking(nodes.drop_last()), nodes.last())
    }
}

/// The first `limit` nodes of a sequence, or all of them if there are fewer.
pub open spec fn leading(nodes: Seq<NodeView>, limit: nat) -> Seq<NodeView> {
    if limit >= nodes.len() {
        nodes
    } else {
        nodes.take(limit as int)
    }
}

/// Every node of a tree: the tree itself, then the nodes of each child in
/// turn.
pub open spec fn nodes_of(tree: NodeView) -> Seq<NodeView>
    decreases tree,
{
    seq![tree] + nodes_in(tree.children)
}

/// Every node of a sequence of trees, tree after tree.
pub open spec fn nodes_in(forest: Seq<NodeView>) -> Seq<NodeView>
    decreases forest,
{
    if forest.len() == 0 {
        Seq::empty()
    } else {
        nodes_in(forest.drop_last()) + nodes_of(forest.last())
    }
}

/// The flattened view of a tree: its `limit` first nodes in ranking order.
pub open spec fn top_nodes(tree: NodeView, limit: nat) -> Seq<NodeView> {
    leading(ranking(nodes_of(tree)), limit)
}

/// The models of borrowed nodes, in order.
pub open spec fn ref_views(items: Seq<&DiskItem>) -> Seq<NodeView> {
    Seq::new(items.len(), |i: int| items[i]@)
}

/// Of two byte strings at most one comes before the other.
pub proof fn lemma_bytes_before_asymmetric(a: Seq<u8>, b: Seq<u8>)
    ensures
        !(bytes_before(a, b) && bytes_before(b, a)),
    decreases a.len(),
{
    if a.len() > 0 && b.len() > 0 && a[0] == b[0] {
        lemma_bytes_before_asymmetric(a.drop_first(), b.drop_first());
    }
}

/// "Does not come before" carries over a middle term.
pub proof fn lemma_bytes_before_chain(a: Seq<u8>, b: Seq<u8>, c: Seq<u8>)
    requires
        !bytes_before(a, b),
        !bytes_before(b, c),
    ensures
        !bytes_before(a, c),
    decreases a.len(),
{
    if c.len() > 0 {
        assert(b.len() > 0);
        assert(a.len() > 0);
        if a[0] == c[0] {
            assert(a[0] == b[0]);
            lemma_bytes_before_chain(a.drop_first(), b.drop_first(), c.drop_first());
        }
    }
}

/// Of two nodes at most one outranks the other.
pub proof fn lemma_outranks_asymmetric(a: NodeView, b: NodeView)
    ensures
        !(outranks(a, b) && outranks(b, a)),
{
    lemma_bytes_before_asymmetric(path_bytes(a), path_bytes(b));
}

/// If `b` does not outrank `a` and `c` does not outrank `b`, then `c` does
/// not outrank `a`.
pub proof fn lemma_outranks_chain(a: NodeView, b: NodeView, c: NodeView)
    requires
        !outranks(b, a),
        !outranks(c, b),
    ensures
        !outranks(c, a),
{
    if c.size_bytes == a.size_bytes {
        lemma_bytes_before_chain(path_bytes(c), path_bytes(b), path_bytes(a));
    }
}

/// The position of a node lies in the sequence, all behind it are outranked
/// by the node, and the one before it is not.
pub proof fn lemma_rank_position(nodes: Seq<NodeView>, node: NodeView)
    ensures
        0 <= rank_position(nodes, node) <= nodes.len(),
        forall|j: int|
            rank_position(nodes, node) <= j < nodes.len() ==> outranks(node, #[trigger] nodes[j]),
        rank_position(nodes, node) > 0 ==> !outranks(
            node,
            nodes[rank_position(nodes, node) - 1],
        ),
    decreases nodes.len(),
{
    if nodes.len() > 0 && outranks(node, nodes.last()) {
        let front = nodes.drop_last();
        lemma_rank_position(front, node);
        let p = rank_position(nodes, node);
        assert forall|j: int| p <= j < nodes.len() implies outranks(node, #[trigger] nodes[j]) by {
            if j < front.len() {
                assert(front[j] == nodes[j]);
            }
        }
        if p > 0 {
            assert(front[p - 1] == nodes[p - 1]);
        }
    }
}

/// Only one position has the properties of `lemma_rank_position`.
pub proof fn lemma_rank_position_unique(nodes: Seq<NodeView>, node: NodeView, p: int)
    requires
        0 <= p <= nodes.len(),
        forall|j: int| p <= j < nodes.len() ==> outranks(node, #[trigger] nodes[j]),
        p > 0 ==> !outranks(node, nodes[p - 1]),
    ensures
        rank_position(nodes, node) == p,
    decreases nodes.len(),
{
    if nodes.len() > 0 && outranks(node, nodes.last()) {
        assert(p < nodes.len());
        let front = nodes.drop_last();
        assert forall|j: int| p <= j < front.len() implies outranks(node, #[trigger] front[j]) by {
            assert(front[j] == nodes[j]);
        }
        lemma_rank_position_unique(front, node, p);
    } else if nodes.len() > 0 {
        if p < nodes.len() {
            assert(outranks(node, nodes[nodes.len() - 1]));
        }
    }
}

/// Entering a node into a ranked sequence leaves it ranked.
pub proof fn lemma_insert_ranked(nodes: Seq<NodeView>, node: NodeView)
    requires
        ranked(nodes),
    ensures
        ranked(insert_ranked(nodes, node)),
        insert_ranked(nodes, node).len() == nodes.len() + 1,
{
    let p = rank_position(nodes, node);
    let out = insert_ranked(nodes, node);
    lemma_rank_position(nodes, node);
    assert forall|i: int, j: int| 0 <= i < j < out.len() implies !outranks(out[j], out[i]) by {
        if j < p {
            assert(out[i] == nodes[i] && out[j] == nodes[j]);
        } else if j == p {
            assert(out[i] == nodes[i]);
            if i < p - 1 {
                lemma_outranks_chain(nodes[i], nodes[p - 1], node);
            }
        } else if i < p {
            assert(out[i] == nodes[i] && out[j] == nodes[j - 1]);
        } else if i == p {
            assert(out[j] == nodes[j - 1]);
            lemma_outranks_asymmetric(node, nodes[j - 1]);
        } else {
            assert(out[i] == nodes[i - 1] && out[j] == nodes[j - 1]);
        }
    }
}

/// The ranking of a sequence is ranked, as long as the sequence, and made
/// of its nodes.
pub proof fn lemma_ranking(nodes: Seq<NodeView>)
    ensures
        ranked(ranking(nodes)),
        ranking(nodes).len() == nodes.len(),
        forall|i: int| 0 <= i < nodes.len() ==> nodes.contains(#[trigger] ranking(nodes)[i]),
    decreases nodes.len(),
{
    if nodes.len() > 0 {
        let front = nodes.drop_last();
        let inner = ranking(front);
        lemma_ranking(front);
        lemma_insert_ranked(inner, nodes.last());
        lemma_rank_position(inner, nodes.last());
        let p = rank_position(inner, nodes.last());
        let out = ranking(nodes);
        assert forall|i: int| 0 <= i < nodes.len() implies nodes.contains(#[trigger] out[i]) by {
            if i == p {
                assert(nodes[nodes.len() - 1] == out[i]);
            } else {
                let k = if i < p {
                    i
                } else {
                    i - 1
                };
                assert(out[i] == inner[k]);
                assert(front.contains(inner[k]));
                let w = choose|w: int| 0 <= w < front.len() && front[w] == inner[k];
                assert(nodes[w] == inner[k]);
            }
        }
    }
}

/// The first nodes of a ranking are found without the nodes behind them: a
/// node enters the first `limit` of a ranked sequence as it enters the whole.
pub proof fn lemma_leading_insert(nodes: Seq<NodeView>, node: NodeView, limit: nat)
    requires
        ranked(nodes),
    ensures
        leading(insert_ranked(leading(nodes, limit), node), limit) == leading(
            insert_ranked(nodes, node),
            limit,
        ),
{
    if limit < nodes.len() {
        let first = nodes.take(limit as int);
        let p = rank_position(nodes, node);
        lemma_rank_position(nodes, node);
        if p <= limit {
            assert forall|j: int| p <= j < first.len() implies outranks(node, #[trigger] first[j]) by {
                assert(first[j] == nodes[j]);
            }
            lemma_rank_position_unique(first, node, p);
            assert(first.insert(p, node).take(limit as int) =~= nodes.insert(p, node).take(
                limit as int,
            ));
        } else {
            if limit > 0 {
                if limit - 1 < p - 1 {
                    lemma_outranks_chain(nodes[limit - 1], nodes[p - 1], node);
                }
                assert(first[limit - 1] == nodes[limit - 1]);
            }
            lemma_rank_position_unique(first, node, limit as int);
            assert(first.insert(limit as int, node).take(limit as int) =~= first);
            assert(nodes.insert(p, node).take(limit as int) =~= first);
        }
    }
}

/// The first nodes of a ranked sequence are ranked.
pub proof fn lemma_leading_ranked(nodes: Seq<NodeView>, limit: nat)
    requires
        ranked(nodes),
    ensures
        ranked(leading(nodes, limit)),
        leading(nodes, limit).len() == if limit <= nodes.len() {
            limit
        } else {
            nodes.len()
        },
{
    let first = leading(nodes, limit);
    assert forall|i: int, j: int| 0 <= i < j < first.len() implies !outranks(first[j], first[i]) by {
        assert(first[i] == nodes[i] && first[j] == nodes[j]);
    }
}

/// In a sound tree every node is sound, at any depth: each directory among
/// them has the sum of its children's sizes as its size.
pub proof fn law_every_node_sound(tree: NodeView)
    requires
        tree.sound(),
    ensures
        all_sound(nodes_of(tree)),
    decreases tree,
{
    law_every_node_sound_in(tree.children);
    let below = nodes_in(tree.children);
    let all = nodes_of(tree);
    assert forall|i: int| 0 <= i < all.len() implies (#[trigger] all[i]).sound() by {
        if i > 0 {
            assert(all[i] == below[i - 1]);
        }
    }
}

/// In a sequence of sound trees every node is sound, at any depth.
pub proof fn law_every_node_sound_in(forest: Seq<NodeView>)
    requires
        all_sound(forest),
    ensures
        all_sound(nodes_in(forest)),
    decreases forest,
{
    if forest.len() > 0 {
        let front = forest.drop_last();
        assert forall|i: int| 0 <= i < front.len() implies (#[trigger] front[i]).sound() by {
            assert(front[i] == forest[i]);
        }
        law_every_node_sound_in(front);
        assert(forest[forest.len() - 1] == forest.last());
        law_every_node_sound(forest.last());
        let head = nodes_in(front);
        let tail = nodes_of(forest.last());
        let all = nodes_in(forest);
        assert forall|i: int| 0 <= i < all.len() implies (#[trigger] all[i]).sound() by {
            if i < head.len() {
                assert(all[i] == head[i]);
            } else {
                assert(all[i] == tail[i - head.len()]);
            }
        }
    }
}

/// Whether the bytes `a` come before the bytes `b` in dictionary order.
fn bytes_come_before(a: &[u8], b: &[u8]) -> (before: bool)
    ensures
        before == bytes_before(a@, b@),
{
    let mut i: usize = 0;
    proof {
        assert(a@.skip(0) =~= a@);
        assert(b@.skip(0) =~= b@);
    }
    while i < a.len() && i < b.len()
        invariant
            i <= a.len(),
            i <= b.len(),
            bytes_before(a@, b@) == bytes_before(a@.skip(i as int), b@.skip(i as int)),
        decreases a.len() - i,
    {
        if a[i] != b[i] {
            return a[i] < b[i];
        }
        proof {
            assert(a@.skip(i as int).drop_first() =~= a@.skip(i + 1));
            assert(b@.skip(i as int).drop_first() =~= b@.skip(i + 1));
        }
        i = i + 1;
    }
    i < b.len()
}

/// Whether `a` is listed before `b` on its own merits: it is larger, or as
/// large with a path that comes first byte by byte.
pub fn ranks_before(a: &DiskItem, b: &DiskItem) -> (before: bool)
    ensures
        before == outranks(a@, b@),
{
    let a_size: u64 = a.size_bytes();
    let b_size: u64 = b.size_bytes();
    if a_size != b_size {
        a_size > b_size
    } else {
        bytes_come_before(a.path().as_str().as_bytes(), b.path().as_str().as_bytes())
    }
}

/// Enters `node` into the ranked nodes kept so far and keeps the first
/// `limit` of them.
fn enter<'a>(best: &mut Vec<&'a DiskItem>, node: &'a DiskItem, limit: usize)
    requires
        ranked(ref_views(old(best)@)),
        old(best)@.len() <= limit,
    ensures
        ref_views(final(best)@) == leading(
            insert_ranked(ref_views(old(best)@), node@),
            limit as nat,
        ),
        ranked(ref_views(final(best)@)),
        final(best)@.len() <= limit,
{
    let ghost before = ref_views(best@);
    let mut p: usize = best.len();
    while p > 0 && ranks_before(node, best[p - 1])
        invariant
            p <= best.len(),
            before == ref_views(best@),
            forall|j: int| p <= j < before.len() ==> outranks(node@, #[trigger] before[j]),
        decreases p,
    {
        p = p - 1;
    }
    proof {
        if p > 0 {
            assert(before[p - 1] == best@[p - 1]@);
        }
        lemma_rank_position_unique(before, node@, p as int);
        lemma_insert_ranked(before, node@);
        lemma_leading_ranked(insert_ranked(before, node@), limit as nat);
    }
    if p < limit {
        best.insert(p, node);
        proof {
            assert(ref_views(best@) =~= before.insert(p as int, node@));
        }
        if best.len() > limit {
            best.pop();
            proof {
                assert(ref_views(best@) =~= before.insert(p as int, node@).take(limit as int));
            }
        }
    } else {
        proof {
            assert(before.insert(p as int, node@).take(limit as int) =~= before);
        }
    }
}

/// Enters every node of the tree at `node` into the ranked nodes kept so
/// far, `seen` being the nodes entered before.
fn gather<'a>(
    node: &'a DiskItem,
    limit: usize,
    best: &mut Vec<&'a DiskItem>,
    Ghost(seen): Ghost<Seq<NodeView>>,
)
    requires
        ref_views(old(best)@) == leading(ranking(seen), limit as nat),
    ensures
        ref_views(final(best)@) == leading(ranking(seen + nodes_of(node@)), limit as nat),
    decreases node@,
{
    let ghost first = seen.push(node@);
    proof {
        lemma_ranking(seen);
        lemma_leading_ranked(ranking(seen), limit as nat);
        lemma_leading_insert(ranking(seen), node@, limit as nat);
        assert(first.drop_last() =~= seen);
    }
    enter(best, node, limit);
    let children = node.children();
    let ghost forest = node@.children;
    let mut i: usize = 0;
    proof {
        assert(forest.take(0) =~= Seq::empty());
        assert(first + nodes_in(forest.take(0)) =~= first);
    }
    while i < children.len()
        invariant
            i <= children.len(),
            forest == node@.children,
            views(children@) == forest,
            first == seen.push(node@),
            ref_views(best@) == leading(
                ranking(first + nodes_in(forest.take(i as int))),
                limit as nat,
            ),
        decreases children.len() - i,
    {
        let ghost sofar = first + nodes_in(forest.take(i as int));
        let child = &children[i];
        proof {
            assert(child@ == forest[i as int]);
        }
        gather(child, limit, best, Ghost(sofar));
        proof {
            assert(forest.take(i + 1).drop_last() =~= forest.take(i as int));
            assert(forest.take(i + 1).last() == child@);
            assert(sofar + nodes_of(child@) =~= first + nodes_in(forest.take(i + 1)));
        }
        i = i + 1;
    }
    proof {
        assert(forest.take(i as int) =~= forest);
        assert(first + nodes_in(forest) =~= seen + nodes_of(node@));
    }
}

impl DiskItem {
    /// The `limit` largest nodes of the tree, at any depth, the largest
    /// first; nodes of one size by their paths, byte by byte; all of the
    /// tree's nodes when it has fewer than `limit`.
    pub fn flatten(&self, limit: usize) -> (top: Vec<&DiskItem>)
        ensures
            ref_views(top@) == top_nodes(self@, limit as nat),
            top@.len() <= limit,
            top@.len() == if limit <= nodes_of(self@).len() {
                limit as nat
            } else {
                nodes_of(self@).len()
            },
            forall|i: int, j: int|
                0 <= i < j < top@.len() ==> top@[i]@.size_bytes >= top@[j]@.size_bytes,
            forall|i: int| 0 <= i < top@.len() ==> nodes_of(self@).contains(#[trigger] top@[i]@),
            forall|i: int| 0 <= i < top@.len() ==> (#[trigger] top@[i]@).sound(),
    {
        let mut best: Vec<&DiskItem> = Vec::new();
        let ghost seen = Seq::<NodeView>::empty();
        proof {
            assert(ref_views(best@) =~= leading(ranking(seen), limit as nat));
        }
        gather(self, limit, &mut best, Ghost(seen));
        proof {
            let all = nodes_of(self@);
            let out = ref_views(best@);
            assert(seen + all =~= all);
            lemma_ranking(all);
            lemma_leading_ranked(ranking(all), limit as nat);
            assert forall|i: int, j: int| 0 <= i < j < best@.len() implies best@[i]@.size_bytes
                >= best@[j]@.size_bytes by {
                assert(out[i] == best@[i]@ && out[j] == best@[j]@);
                assert(!outranks(out[j], out[i]));
            }
            assert forall|i: int| 0 <= i < best@.len() implies all.contains(#[trigger] best@[i]@) by {
                assert(out[i] == best@[i]@);
                assert(out[i] == ranking(all)[i]);
            }
            use_type_invariant(self);
            law_every_node_sound(self@);
            assert forall|i: int| 0 <= i < best@.len() implies (#[trigger] best@[i]@).sound() by {
                let k = choose|k: int| 0 <= k < all.len() && all[k] == best@[i]@;
                assert(all[k].sound());
            }
        }
        best
    }
}


} // verus!
