//! The append-only commitment tree and the authentication paths of its
//! leaves, kept in step as the tree grows.

use crate::codec::{
    encoded_u64, lemma_parsed_u64, put_fixed32, put_u64, take_fixed32, take_u64, Decodable,
    Encodable,
};
use crate::error::Error;
use crate::primitives::merkle_combine;
use crate::tree_model::{
    ancestor, authenticates, capacity, climb, digests, empty_root, extended_path,
    lemma_ancestor_at_depth, lemma_node_off_append_path, lemma_node_past_leaves, node, path_root,
    records_append, sibling, tree_root, BLANK_LEAF,
};
use vstd::bytes::spec_u64_from_le_bytes;
use vstd::prelude::*;
use vstd::slice::slice_subrange;

verus! {

/// The deepest tree the node hash supports.
pub const MAX_DEPTH: usize = 63;

/// Whether two digests hold the same bytes.
pub fn same_digest(a: &[u8; 32], b: &[u8; 32]) -> (same: bool)
    ensures
        same == (a@ == b@),
{
    let mut i: usize = 0;
    while i < 32
        invariant
            i <= 32,
            forall|k: int| 0 <= k < i ==> a@[k] == b@[k],
        decreases 32 - i,
    {
        if a[i] != b[i] {
            return false;
        }
        i = i + 1;
    }
    assert(a@ =~= b@);
    true
}

/// What one append changed in the tree: the position the leaf took and the
/// nodes above it, leaf first and root last.
pub struct TreeDelta {
    pub position: u64,
    pub nodes: Vec<[u8; 32]>,
}

/// The authentication path of one leaf: its position and the sibling
/// digests from the leaf's level up to just below the root.
pub struct MerkleWitness {
    pub position: u64,
    pub siblings: Vec<[u8; 32]>,
}

impl MerkleWitness {
    /// A path is no longer than the deepest tree.
    pub open spec fn wf(&self) -> bool {
        self.siblings@.len() <= MAX_DEPTH
    }

    /// The sibling digests as byte strings.
    pub open spec fn path(&self) -> Seq<Seq<u8>> {
        digests(self.siblings@)
    }

    /// The root this path yields for `leaf`.
    pub fn root(&self, leaf: &[u8; 32]) -> (root: [u8; 32])
        requires
            self.wf(),
        ensures
            root@ == path_root(leaf@, self.position as nat, self.path()),
    {
        let mut reached: [u8; 32] = *leaf;
        let mut at: u64 = self.position;
        let mut h: usize = 0;
        while h < self.siblings.len()
            invariant
                h <= self.siblings@.len() <= MAX_DEPTH,
                at == ancestor(self.position as nat, h as nat),
                reached@ == climb(leaf@, self.position as nat, self.path(), h as nat),
            decreases self.siblings@.len() - h,
        {
            let beside: [u8; 32] = self.siblings[h];
            assert(beside@ == self.path()[h as int]);
            if at % 2 == 0 {
                reached = merkle_combine(h, &reached, &beside);
            } else {
                reached = merkle_combine(h, &beside, &reached);
            }
            at = at / 2;
            h = h + 1;
        }
        reached
    }

    /// Whether this path leads from `leaf` to `root`.
    pub fn verifies(&self, leaf: &[u8; 32], root: &[u8; 32]) -> (valid: bool)
        requires
            self.wf(),
        ensures
            valid == (path_root(leaf@, self.position as nat, self.path()) == root@),
    {
        let reached: [u8; 32] = self.root(leaf);
        same_digest(&reached, root)
    }

    /// The path for the same leaf after the append that `delta` records:
    /// each sibling the append changed is replaced, the others are kept.
    pub fn extend(&self, delta: &TreeDelta) -> (extended: MerkleWitness)
        ensures
            extended.position == self.position,
            extended.path() == extended_path(
                self.position as nat,
                self.path(),
                delta.position as nat,
                digests(delta.nodes@),
            ),
    {
        let ghost target = extended_path(
            self.position as nat,
            self.path(),
            delta.position as nat,
            digests(delta.nodes@),
        );
        let mut siblings: Vec<[u8; 32]> = Vec::new();
        let mut own: u64 = self.position;
        let mut fresh: u64 = delta.position;
        let mut h: usize = 0;
        while h < self.siblings.len()
            invariant
                h <= self.siblings@.len(),
                own == ancestor(self.position as nat, h as nat),
                fresh == ancestor(delta.position as nat, h as nat),
                siblings@.len() == h,
                target == extended_path(
                    self.position as nat,
                    self.path(),
                    delta.position as nat,
                    digests(delta.nodes@),
                ),
                forall|k: int| 0 <= k < h ==> (#[trigger] siblings@[k])@ == target[k],
            decreases self.siblings@.len() - h,
        {
            let replaced: bool = h < delta.nodes.len() && if own % 2 == 0 {
                fresh > 0 && fresh - 1 == own
            } else {
                fresh == own - 1
            };
            assert(replaced == (h < delta.nodes@.len() && sibling(own as nat) == fresh as nat));
            if replaced {
                siblings.push(delta.nodes[h]);
            } else {
                siblings.push(self.siblings[h]);
            }
            own = own / 2;
            fresh = fresh / 2;
            h = h + 1;
        }
        let extended = MerkleWitness { position: self.position, siblings };
        assert(extended.path() =~= target);
        extended
    }
}

/// An append-only commitment tree of fixed depth. It keeps only what the
/// next append needs: the nodes above the last leaf and their left
/// siblings.
pub struct MerkleTree {
    depth: usize,
    limit: u64,
    size: u64,
    left: Vec<[u8; 32]>,
    above: Vec<[u8; 32]>,
    empty: Vec<[u8; 32]>,
    leaves: Ghost<Seq<Seq<u8>>>,
}

/// The capacities of deeper trees are larger.
proof fn lemma_capacity_grows(shallow: nat, deep: nat)
    requires
        shallow <= deep,
    ensures
        capacity(shallow) <= capacity(deep),
    decreases deep,
{
    if shallow < deep {
        lemma_capacity_grows(shallow, (deep - 1) as nat);
    }
}

/// The deepest tree holds 2^63 leaves.
proof fn lemma_capacity_of_deepest()
    ensures
        capacity(MAX_DEPTH as nat) == 0x8000_0000_0000_0000,
{
    reveal_with_fuel(capacity, 64);
}

impl MerkleTree {
    /// The leaves appended so far, oldest first.
    pub closed spec fn leaves(&self) -> Seq<Seq<u8>> {
        self.leaves@
    }

    /// The depth the tree was made with.
    pub closed spec fn spec_depth(&self) -> nat {
        self.depth as nat
    }

    /// The stored nodes are those of the tree over the leaves.
    pub closed spec fn wf(&self) -> bool {
        &&& self.depth <= MAX_DEPTH
        &&& self.limit == capacity(self.depth as nat)
        &&& self.size == self.leaves@.len()
        &&& self.size <= self.limit
        &&& self.left@.len() == self.depth
        &&& self.above@.len() == self.depth + 1
        &&& self.empty@.len() == self.depth + 1
        &&& forall|h: int|
            0 <= h <= self.depth ==> (#[trigger] self.empty@[h])@ == empty_root(h as nat)
        &&& self.size > 0 ==> forall|h: int|
            0 <= h <= self.depth ==> (#[trigger] self.above@[h])@ == node(
                self.leaves@,
                h as nat,
                ancestor((self.size - 1) as nat, h as nat),
            )
        &&& self.size > 0 ==> forall|h: int|
            0 <= h < self.depth && ancestor((self.size - 1) as nat, h as nat) % 2 == 1 ==> (
            #[trigger] self.left@[h])@ == node(
                self.leaves@,
                h as nat,
                (ancestor((self.size - 1) as nat, h as nat) - 1) as nat,
            )
    }

    /// An empty tree of the given depth, or nothing where the depth is
    /// beyond what the node hash supports.
    pub fn new(depth: usize) -> (tree: Option<MerkleTree>)
        ensures
            tree is Some <==> depth <= MAX_DEPTH,
            tree matches Some(t) ==> t.wf() && t.spec_depth() == depth && t.leaves()
                == Seq::<Seq<u8>>::empty(),
    {
        if depth > MAX_DEPTH {
            return None;
        }
        let mut empty: Vec<[u8; 32]> = Vec::new();
        let mut left: Vec<[u8; 32]> = Vec::new();
        let mut above: Vec<[u8; 32]> = Vec::new();
        let mut limit: u64 = 1;
        empty.push(BLANK_LEAF);
        above.push(BLANK_LEAF);
        let mut h: usize = 0;
        while h < depth
            invariant
                h <= depth <= MAX_DEPTH,
                limit == capacity(h as nat),
                left@.len() == h,
                above@.len() == h + 1,
                empty@.len() == h + 1,
                forall|k: int| 0 <= k <= h ==> (#[trigger] empty@[k])@ == empty_root(k as nat),
            decreases depth - h,
        {
            proof {
                lemma_capacity_grows((h + 1) as nat, MAX_DEPTH as nat);
                lemma_capacity_of_deepest();
            }
            let below: [u8; 32] = empty[h];
            let next: [u8; 32] = merkle_combine(h, &below, &below);
            empty.push(next);
            left.push(BLANK_LEAF);
            above.push(BLANK_LEAF);
            limit = 2 * limit;
            h = h + 1;
        }
        Some(
            MerkleTree {
                depth,
                limit,
                size: 0,
                left,
                above,
                empty,
                leaves: Ghost(Seq::empty()),
            },
        )
    }

    /// The depth the tree was made with.
    pub fn depth(&self) -> (depth: usize)
        ensures
            depth == self.spec_depth(),
    {
        self.depth
    }

    /// The number of leaves appended so far.
    pub fn size(&self) -> (size: u64)
        requires
            self.wf(),
        ensures
            size == self.leaves().len(),
    {
        self.size
    }

    /// Whether every position of the tree holds a leaf.
    pub fn is_full(&self) -> (full: bool)
        requires
            self.wf(),
        ensures
            full == (self.leaves().len() >= capacity(self.spec_depth())),
    {
        self.size >= self.limit
    }

    /// The root of the tree over the leaves appended so far.
    pub fn root(&self) -> (root: [u8; 32])
        requires
            self.wf(),
        ensures
            root@ == tree_root(self.leaves(), self.spec_depth()),
    {
        if self.size == 0 {
            proof {
                lemma_node_past_leaves(self.leaves@, self.depth as nat, 0);
            }
            self.empty[self.depth]
        } else {
            proof {
                lemma_ancestor_at_depth((self.size - 1) as nat, self.depth as nat);
            }
            self.above[self.depth]
        }
    }

    /// Appends a leaf at the first free position and reports the nodes
    /// that changed. A full tree is left as it was.
    pub fn append(&mut self, leaf: [u8; 32]) -> (delta: Option<TreeDelta>)
        requires
            old(self).wf(),
        ensures
            final(self).wf(),
            final(self).spec_depth() == old(self).spec_depth(),
            delta is Some <==> old(self).leaves().len() < capacity(old(self).spec_depth()),
            delta is None ==> final(self).leaves() == old(self).leaves(),
            delta matches Some(d) ==> {
                &&& final(self).leaves() == old(self).leaves().push(leaf@)
                &&& d.nodes@.len() == old(self).spec_depth() + 1
                &&& records_append(
                    old(self).leaves(),
                    leaf@,
                    d.position as nat,
                    digests(d.nodes@),
                )
            },
    {
        if self.size >= self.limit {
            return None;
        }
        let ghost before = self.leaves@;
        let ghost after = before.push(leaf@);
        let n: u64 = self.size;
        let mut left: Vec<[u8; 32]> = Vec::new();
        let mut above: Vec<[u8; 32]> = Vec::new();
        let mut nodes: Vec<[u8; 32]> = Vec::new();
        let mut reached: [u8; 32] = leaf;
        let mut at: u64 = n;
        let mut last: u64 = if n > 0 {
            n - 1
        } else {
            0
        };
        let mut h: usize = 0;
        while h < self.depth
            invariant
                self.wf(),
                before == self.leaves@,
                after == before.push(leaf@),
                n == self.size,
                h <= self.depth,
                at == ancestor(n as nat, h as nat),
                n > 0 ==> last == ancestor((n - 1) as nat, h as nat),
                n > 0 ==> (last == at || last + 1 == at),
                n == 0 ==> at == 0,
                reached@ == node(after, h as nat, at as nat),
                left@.len() == h,
                above@.len() == h,
                nodes@.len() == h,
                forall|k: int|
                    0 <= k < h ==> (#[trigger] above@[k])@ == node(
                        after,
                        k as nat,
                        ancestor(n as nat, k as nat),
                    ),
                forall|k: int| 0 <= k < h ==> #[trigger] nodes@[k] == above@[k],
                forall|k: int|
                    0 <= k < h && ancestor(n as nat, k as nat) % 2 == 1 ==> (
                    #[trigger] left@[k])@ == node(
                        after,
                        k as nat,
                        (ancestor(n as nat, k as nat) - 1) as nat,
                    ),
            decreases self.depth - h,
        {
            let parent: [u8; 32];
            if at % 2 == 1 {
                let beside: [u8; 32] = if last == at {
                    self.left[h]
                } else {
                    self.above[h]
                };
                proof {
                    assert(beside@ == node(before, h as nat, (at - 1) as nat));
                    lemma_node_off_append_path(before, leaf@, h as nat, (at - 1) as nat);
                }
                left.push(beside);
                parent = merkle_combine(h, &beside, &reached);
            } else {
                let blank: [u8; 32] = self.empty[h];
                proof {
                    lemma_node_past_leaves(after, h as nat, (at + 1) as nat);
                }
                left.push(self.left[h]);
                parent = merkle_combine(h, &reached, &blank);
            }
            above.push(reached);
            nodes.push(reached);
            reached = parent;
            at = at / 2;
            last = last / 2;
            h = h + 1;
        }
        above.push(reached);
        nodes.push(reached);
        self.left = left;
        self.above = above;
        self.size = n + 1;
        self.leaves = Ghost(after);
        let delta = TreeDelta { position: n, nodes };
        assert(records_append(before, leaf@, n as nat, digests(delta.nodes@)));
        Some(delta)
    }

    /// The authentication path of the leaf appended last, or nothing for
    /// an empty tree.
    pub fn latest_witness(&self) -> (witness: Option<MerkleWitness>)
        requires
            self.wf(),
        ensures
            witness is Some <==> self.leaves().len() > 0,
            witness matches Some(w) ==> {
                &&& w.position + 1 == self.leaves().len()
                &&& w.siblings@.len() == self.spec_depth()
                &&& authenticates(self.leaves(), w.position as nat, w.path())
            },
    {
        if self.size == 0 {
            return None;
        }
        let position: u64 = self.size - 1;
        let mut siblings: Vec<[u8; 32]> = Vec::new();
        let mut at: u64 = position;
        let mut h: usize = 0;
        while h < self.depth
            invariant
                self.wf(),
                self.size > 0,
                position == self.size - 1,
                h <= self.depth,
                at == ancestor(position as nat, h as nat),
                siblings@.len() == h,
                forall|k: int|
                    0 <= k < h ==> (#[trigger] siblings@[k])@ == node(
                        self.leaves@,
                        k as nat,
                        sibling(ancestor(position as nat, k as nat)),
                    ),
            decreases self.depth - h,
        {
            if at % 2 == 1 {
                siblings.push(self.left[h]);
            } else {
                proof {
                    lemma_node_past_leaves(self.leaves@, h as nat, (at + 1) as nat);
                }
                siblings.push(self.empty[h]);
            }
            at = at / 2;
            h = h + 1;
        }
        let witness = MerkleWitness { position, siblings };
        assert(authenticates(self.leaves@, position as nat, witness.path()));
        Some(witness)
    }
}

/// What an authentication path holds, as plain values.
pub ghost struct WitnessView {
    pub position: u64,
    pub path: Seq<Seq<u8>>,
}

impl View for MerkleWitness {
    type V = WitnessView;

    open spec fn view(&self) -> WitnessView {
        WitnessView { position: self.position, path: self.path() }
    }
}

/// The digests of a path laid end to end.
pub open spec fn joined(path: Seq<Seq<u8>>) -> Seq<u8>
    decreases path.len(),
{
    if path.len() == 0 {
        Seq::empty()
    } else {
        joined(path.drop_last()) + path.last()
    }
}

/// Whether every digest of a path is 32 bytes long.
pub open spec fn all_digests(path: Seq<Seq<u8>>) -> bool {
    forall|h: int| 0 <= h < path.len() ==> (#[trigger] path[h]).len() == 32
}

/// The encoding of an authentication path: the position, the number of
/// siblings, then the siblings from the leaf's level up.
pub open spec fn encoded_witness(witness: WitnessView) -> Seq<u8> {
    encoded_u64(witness.position) + encoded_u64(witness.path.len() as u64) + joined(witness.path)
}

/// The `count` digests that follow the two integers at the front of
/// `input`.
pub open spec fn chunks(input: Seq<u8>, count: nat) -> Seq<Seq<u8>> {
    Seq::new(count, |h: int| input.subrange(16 + 32 * h, 48 + 32 * h))
}

/// The authentication path at the front of `input`: none where the two
/// integers are cut short, the path is longer than the deepest tree, or
/// fewer digests follow than announced.
pub open spec fn parsed_witness(input: Seq<u8>) -> Option<(WitnessView, nat)> {
    if input.len() < 16 {
        None
    } else {
        let position = spec_u64_from_le_bytes(input.subrange(0, 8));
        let count = spec_u64_from_le_bytes(input.subrange(8, 16));
        if count <= MAX_DEPTH && input.len() >= 16 + 32 * count {
            Some(
                (
                    WitnessView { position, path: chunks(input, count as nat) },
                    (16 + 32 * count) as nat,
                ),
            )
        } else {
            None
        }
    }
}

/// Digests laid end to end can be cut apart again.
pub proof fn lemma_joined(path: Seq<Seq<u8>>)
    requires
        all_digests(path),
    ensures
        joined(path).len() == 32 * path.len(),
        forall|h: int|
            0 <= h < path.len() ==> #[trigger] joined(path).subrange(32 * h, 32 * h + 32)
                == path[h],
    decreases path.len(),
{
    if path.len() > 0 {
        let front = path.drop_last();
        lemma_joined(front);
        assert forall|h: int| 0 <= h < path.len() implies #[trigger] joined(path).subrange(
            32 * h,
            32 * h + 32,
        ) == path[h] by {
            if h < front.len() {
                assert(joined(front).subrange(32 * h, 32 * h + 32) == front[h]);
                assert(joined(path).subrange(32 * h, 32 * h + 32) =~= joined(front).subrange(
                    32 * h,
                    32 * h + 32,
                ));
            } else {
                assert(joined(path).subrange(32 * h, 32 * h + 32) =~= path.last());
            }
        }
    }
}

/// An encoded authentication path is read back, whatever follows it.
pub proof fn lemma_parsed_witness(witness: WitnessView, rest: Seq<u8>)
    requires
        witness.path.len() <= MAX_DEPTH,
        all_digests(witness.path),
    ensures
        encoded_witness(witness).len() == 16 + 32 * witness.path.len(),
        parsed_witness(encoded_witness(witness) + rest) == Some(
            (witness, (16 + 32 * witness.path.len()) as nat),
        ),
{
    let count = witness.path.len() as u64;
    let body = joined(witness.path);
    let whole = encoded_witness(witness) + rest;
    lemma_joined(witness.path);
    lemma_parsed_u64(witness.position, encoded_u64(count) + body + rest);
    lemma_parsed_u64(count, body + rest);
    assert(whole.subrange(0, 8) =~= encoded_u64(witness.position));
    assert(whole.subrange(0, 8) =~= (encoded_u64(witness.position) + (encoded_u64(count) + body
        + rest)).take(8));
    assert(whole.subrange(8, 16) =~= encoded_u64(count));
    assert(whole.subrange(8, 16) =~= (encoded_u64(count) + (body + rest)).take(8));
    let read = chunks(whole, witness.path.len());
    assert forall|h: int| 0 <= h < witness.path.len() implies read[h] == witness.path[h] by {
        assert(whole.subrange(16 + 32 * h, 48 + 32 * h) =~= body.subrange(32 * h, 32 * h + 32));
    }
    assert(read =~= witness.path);
}

impl Encodable for MerkleWitness {
    open spec fn encoding(&self) -> Seq<u8> {
        encoded_witness(self@)
    }

    fn encode(&self, out: &mut Vec<u8>) {
        put_u64(out, self.position);
        put_u64(out, self.siblings.len() as u64);
        let ghost head = out@;
        let mut h: usize = 0;
        while h < self.siblings.len()
            invariant
                h <= self.siblings@.len(),
                out@ == head + joined(digests(self.siblings@.take(h as int))),
            decreases self.siblings@.len() - h,
        {
            put_fixed32(out, &self.siblings[h]);
            proof {
                let longer = digests(self.siblings@.take(h + 1));
                assert(longer.drop_last() =~= digests(self.siblings@.take(h as int)));
                assert(longer.last() == self.siblings@[h as int]@);
            }
            h = h + 1;
        }
        assert(self.siblings@.take(self.siblings@.len() as int) =~= self.siblings@);
        assert(out@ =~= old(out)@ + encoded_witness(self@));
    }
}

impl Decodable for MerkleWitness {
    open spec fn valid(&self) -> bool {
        self.wf()
    }

    open spec fn parsing(input: Seq<u8>) -> Option<(WitnessView, nat)> {
        parsed_witness(input)
    }

    proof fn lemma_round_trip(&self, rest: Seq<u8>) {
        lemma_parsed_witness(self@, rest);
    }

    fn decode(input: &[u8]) -> (res: Result<(MerkleWitness, usize), Error>) {
        if input.len() < 16 {
            return Err(Error::DecodeError);
        }
        let first: &[u8] = slice_subrange(input, 0, 8);
        let second: &[u8] = slice_subrange(input, 8, 16);
        proof {
            assert(first@.take(8) =~= input@.subrange(0, 8));
            assert(second@.take(8) =~= input@.subrange(8, 16));
        }
        let position: u64 = match take_u64(first) {
            Ok((position, _)) => position,
            Err(e) => {
                return Err(e);
            },
        };
        let count: u64 = match take_u64(second) {
            Ok((count, _)) => count,
            Err(e) => {
                return Err(e);
            },
        };
        if count > MAX_DEPTH as u64 {
            return Err(Error::DecodeError);
        }
        let count: usize = count as usize;
        if (input.len() - 16) / 32 < count {
            return Err(Error::DecodeError);
        }
        let mut siblings: Vec<[u8; 32]> = Vec::new();
        let mut h: usize = 0;
        while h < count
            invariant
                h <= count <= MAX_DEPTH,
                input@.len() >= 16 + 32 * count,
                siblings@.len() == h,
                forall|k: int|
                    0 <= k < h ==> (#[trigger] siblings@[k])@ == input@.subrange(
                        16 + 32 * k,
                        48 + 32 * k,
                    ),
            decreases count - h,
        {
            let chunk: &[u8] = slice_subrange(input, 16 + 32 * h, 48 + 32 * h);
            assert(chunk@.take(32) =~= input@.subrange(16 + 32 * h, 48 + 32 * h));
            match take_fixed32(chunk) {
                Ok((digest, _)) => {
                    siblings.push(digest);
                },
                Err(e) => {
                    return Err(e);
                },
            }
            h = h + 1;
        }
        let witness = MerkleWitness { position, siblings };
        assert(witness.path() =~= chunks(input@, count as nat));
        Ok((witness, 16 + 32 * count))
    }
}

} // verus!
