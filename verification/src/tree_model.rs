//! The mathematics of a fixed-depth commitment tree: what its nodes are,
//! what an authentication path proves, and how both change when a leaf is
//! appended.

use crate::primitives::merkle_parent;
use vstd::prelude::*;

verus! {

/// The leaf that stands for "no commitment here": the field element one.
pub const BLANK_LEAF: [u8; 32] = [
    1, 0, 0, 0, 0, 0, 0, 0, 0, 0, 0, 0, 0, 0, 0, 0,
    0, 0, 0, 0, 0, 0, 0, 0, 0, 0, 0, 0, 0, 0, 0, 0,
];

/// The views of a run of digests.
pub open spec fn digests(nodes: Seq<[u8; 32]>) -> Seq<Seq<u8>> {
    Seq::new(nodes.len(), |i: int| nodes[i]@)
}

/// The number of leaves a tree of the given depth holds.
pub open spec fn capacity(depth: nat) -> nat
    decreases depth,
{
    if depth == 0 {
        1
    } else {
        2 * capacity((depth - 1) as nat)
    }
}

/// The index, among the nodes `height` levels up, of the node above leaf
/// `position`.
pub open spec fn ancestor(position: nat, height: nat) -> nat
    decreases height,
{
    if height == 0 {
        position
    } else {
        ancestor(position, (height - 1) as nat) / 2
    }
}

/// The index of the node that shares a parent with node `index`.
pub open spec fn sibling(index: nat) -> nat {
    if index % 2 == 0 {
        index + 1
    } else {
        (index - 1) as nat
    }
}

/// The root of a subtree of the given height that holds no commitment.
pub open spec fn empty_root(height: nat) -> Seq<u8>
    decreases height,
{
    if height == 0 {
        BLANK_LEAF@
    } else {
        let below = empty_root((height - 1) as nat);
        merkle_parent((height - 1) as nat, below, below)
    }
}

/// The digest of node `index` at `height` in the tree over `leaves`; the
/// positions past the last leaf are blank.
pub open spec fn node(leaves: Seq<Seq<u8>>, height: nat, index: nat) -> Seq<u8>
    decreases height,
{
    if height == 0 {
        if index < leaves.len() {
            leaves[index as int]
        } else {
            BLANK_LEAF@
        }
    } else {
        merkle_parent(
            (height - 1) as nat,
            node(leaves, (height - 1) as nat, 2 * index),
            node(leaves, (height - 1) as nat, 2 * index + 1),
        )
    }
}

/// The root of the tree of the given depth over `leaves`.
pub open spec fn tree_root(leaves: Seq<Seq<u8>>, depth: nat) -> Seq<u8> {
    node(leaves, depth, 0)
}

/// The digest reached `height` levels up when `leaf` at `position` is
/// combined with the first `height` digests of `path`.
pub open spec fn climb(leaf: Seq<u8>, position: nat, path: Seq<Seq<u8>>, height: nat) -> Seq<u8>
    decreases height,
{
    if height == 0 {
        leaf
    } else {
        let level = (height - 1) as nat;
        let below = climb(leaf, position, path, level);
        if ancestor(position, level) % 2 == 0 {
            merkle_parent(level, below, path[level as int])
        } else {
            merkle_parent(level, path[level as int], below)
        }
    }
}

/// The root that an authentication path yields for a leaf.
pub open spec fn path_root(leaf: Seq<u8>, position: nat, path: Seq<Seq<u8>>) -> Seq<u8> {
    climb(leaf, position, path, path.len())
}

/// `path` holds, level by level, the sibling of the node above leaf
/// `position` in the tree over `leaves`.
pub open spec fn authenticates(leaves: Seq<Seq<u8>>, position: nat, path: Seq<Seq<u8>>) -> bool {
    &&& position < leaves.len()
    &&& forall|h: int|
        0 <= h < path.len() ==> #[trigger] path[h] == node(
            leaves,
            h as nat,
            sibling(ancestor(position, h as nat)),
        )
}

/// The nodes above the leaf that an append put at `position`, from the leaf
/// itself up to the root.
pub open spec fn records_append(
    before: Seq<Seq<u8>>,
    leaf: Seq<u8>,
    position: nat,
    nodes: Seq<Seq<u8>>,
) -> bool {
    &&& position == before.len()
    &&& forall|h: int|
        0 <= h < nodes.len() ==> #[trigger] nodes[h] == node(
            before.push(leaf),
            h as nat,
            ancestor(position, h as nat),
        )
}

/// The path for leaf `position` once the nodes that an append at
/// `appended` changed have taken their places in it.
pub open spec fn extended_path(
    position: nat,
    path: Seq<Seq<u8>>,
    appended: nat,
    nodes: Seq<Seq<u8>>,
) -> Seq<Seq<u8>> {
    Seq::new(
        path.len(),
        |h: int|
            if h < nodes.len() && sibling(ancestor(position, h as nat)) == ancestor(
                appended,
                h as nat,
            ) {
                nodes[h]
            } else {
                path[h]
            },
    )
}

/// Every tree has room for a leaf.
pub proof fn lemma_capacity_positive(depth: nat)
    ensures
        capacity(depth) >= 1,
    decreases depth,
{
    if depth > 0 {
        lemma_capacity_positive((depth - 1) as nat);
    }
}

/// Halving first and climbing after reaches the same node as climbing one
/// level more.
pub proof fn lemma_ancestor_of_half(position: nat, height: nat)
    ensures
        ancestor(position, height + 1) == ancestor(position / 2, height),
    decreases height,
{
    assert(ancestor(position, height + 1) == ancestor(position, height) / 2);
    if height > 0 {
        lemma_ancestor_of_half(position, (height - 1) as nat);
        assert(ancestor(position / 2, height) == ancestor(position / 2, (height - 1) as nat) / 2);
    }
}

/// Every leaf of a tree that is not over-full sits below the root.
pub proof fn lemma_ancestor_at_depth(position: nat, depth: nat)
    requires
        position < capacity(depth),
    ensures
        ancestor(position, depth) == 0,
    decreases depth,
{
    if depth > 0 {
        lemma_ancestor_of_half(position, (depth - 1) as nat);
        lemma_ancestor_at_depth(position / 2, (depth - 1) as nat);
    }
}

/// A subtree that lies wholly to the right of the last leaf is empty.
pub proof fn lemma_node_past_leaves(leaves: Seq<Seq<u8>>, height: nat, index: nat)
    requires
        leaves.len() == 0 || index > ancestor((leaves.len() - 1) as nat, height),
    ensures
        node(leaves, height, index) == empty_root(height),
    decreases height,
{
    if height > 0 {
        lemma_node_past_leaves(leaves, (height - 1) as nat, 2 * index);
        lemma_node_past_leaves(leaves, (height - 1) as nat, 2 * index + 1);
    }
}

/// An append changes only the nodes above the new leaf.
pub proof fn lemma_node_off_append_path(
    leaves: Seq<Seq<u8>>,
    leaf: Seq<u8>,
    height: nat,
    index: nat,
)
    requires
        index != ancestor(leaves.len(), height),
    ensures
        node(leaves.push(leaf), height, index) == node(leaves, height, index),
    decreases height,
{
    if height > 0 {
        lemma_node_off_append_path(leaves, leaf, (height - 1) as nat, 2 * index);
        lemma_node_off_append_path(leaves, leaf, (height - 1) as nat, 2 * index + 1);
    }
}

/// Climbing an authentication path visits the nodes above the leaf.
pub proof fn lemma_climb_visits_ancestors(
    leaves: Seq<Seq<u8>>,
    position: nat,
    path: Seq<Seq<u8>>,
    height: nat,
)
    requires
        authenticates(leaves, position, path),
        height <= path.len(),
    ensures
        climb(leaves[position as int], position, path, height) == node(
            leaves,
            height,
            ancestor(position, height),
        ),
    decreases height,
{
    if height > 0 {
        let level = (height - 1) as nat;
        lemma_climb_visits_ancestors(leaves, position, path, level);
        assert(path[level as int] == node(leaves, level, sibling(ancestor(position, level))));
    }
}

/// An authentication path as long as the tree is deep leads to the tree's
/// root.
pub proof fn lemma_path_reaches_root(leaves: Seq<Seq<u8>>, position: nat, path: Seq<Seq<u8>>)
    requires
        authenticates(leaves, position, path),
        leaves.len() <= capacity(path.len()),
    ensures
        path_root(leaves[position as int], position, path) == tree_root(leaves, path.len()),
{
    lemma_climb_visits_ancestors(leaves, position, path, path.len());
    lemma_ancestor_at_depth(position, path.len());
}

/// A path that authenticated a leaf before an append authenticates it
/// after, once extended by the nodes the append changed.
pub proof fn lemma_extension_authenticates(
    leaves: Seq<Seq<u8>>,
    leaf: Seq<u8>,
    position: nat,
    path: Seq<Seq<u8>>,
    nodes: Seq<Seq<u8>>,
)
    requires
        authenticates(leaves, position, path),
        records_append(leaves, leaf, leaves.len(), nodes),
        path.len() <= nodes.len(),
    ensures
        authenticates(
            leaves.push(leaf),
            position,
            extended_path(position, path, leaves.len(), nodes),
        ),
{
    let after = leaves.push(leaf);
    let extended = extended_path(position, path, leaves.len(), nodes);
    assert forall|h: int| 0 <= h < extended.len() implies #[trigger] extended[h] == node(
        after,
        h as nat,
        sibling(ancestor(position, h as nat)),
    ) by {
        let beside = sibling(ancestor(position, h as nat));
        if beside == ancestor(leaves.len(), h as nat) {
            assert(extended[h] == nodes[h]);
        } else {
            assert(extended[h] == path[h]);
            lemma_node_off_append_path(leaves, leaf, h as nat, beside);
        }
    }
}

/// The node hash gives one parent to two different pairs of children.
pub open spec fn collides() -> bool {
    exists|height: nat, a: Seq<u8>, b: Seq<u8>, c: Seq<u8>, d: Seq<u8>|
        #[trigger] merkle_parent(height, a, b) == #[trigger] merkle_parent(height, c, d) && (a != c
            || b != d)
}

/// Two runs of leaves that differ at a position give different digests to
/// every node above that position, unless the node hash collides.
pub proof fn lemma_difference_climbs(
    first: Seq<Seq<u8>>,
    second: Seq<Seq<u8>>,
    position: nat,
    height: nat,
)
    requires
        node(first, 0, position) != node(second, 0, position),
    ensures
        node(first, height, ancestor(position, height)) != node(
            second,
            height,
            ancestor(position, height),
        ) || collides(),
    decreases height,
{
    if height > 0 {
        let level = (height - 1) as nat;
        let above = ancestor(position, height);
        lemma_difference_climbs(first, second, position, level);
        let a = node(first, level, 2 * above);
        let b = node(first, level, 2 * above + 1);
        let c = node(second, level, 2 * above);
        let d = node(second, level, 2 * above + 1);
        if !collides() && merkle_parent(level, a, b) == merkle_parent(level, c, d) {
            assert(a == c && b == d);
            assert(ancestor(position, level) == 2 * above || ancestor(position, level) == 2 * above
                + 1);
        }
    }
}

/// The order of the leaves shows in the root: two runs of leaves that
/// differ at a position of the tree have different roots, unless the node
/// hash collides.
pub proof fn law_order_shows_in_root(
    in_order: Seq<Seq<u8>>,
    out_of_order: Seq<Seq<u8>>,
    depth: nat,
    position: nat,
)
    requires
        position < capacity(depth),
        node(in_order, 0, position) != node(out_of_order, 0, position),
    ensures
        tree_root(in_order, depth) != tree_root(out_of_order, depth) || collides(),
{
    lemma_ancestor_at_depth(position, depth);
    lemma_difference_climbs(in_order, out_of_order, position, depth);
}

/// A path built from leaves fed in another order is invalid: it does not
/// lead from its leaf to the root of the leaves in order, unless the node
/// hash collides.
pub proof fn law_out_of_order_path_fails(
    in_order: Seq<Seq<u8>>,
    out_of_order: Seq<Seq<u8>>,
    differing: nat,
    position: nat,
    path: Seq<Seq<u8>>,
)
    requires
        authenticates(out_of_order, position, path),
        out_of_order.len() <= capacity(path.len()),
        differing < capacity(path.len()),
        node(in_order, 0, differing) != node(out_of_order, 0, differing),
    ensures
        path_root(out_of_order[position as int], position, path) != tree_root(
            in_order,
            path.len(),
        ) || collides(),
{
    lemma_path_reaches_root(out_of_order, position, path);
    law_order_shows_in_root(in_order, out_of_order, path.len(), differing);
}

} // verus!
