//! The notes the wallet owns, each with an authentication path that is
//! kept valid as the commitment tree grows.

use crate::error::Error;
use crate::keys::SpendingKey;
use crate::merkle::{MerkleTree, MerkleWitness, TreeDelta, WitnessView, MAX_DEPTH};
use crate::note::{derive_nullifier, Coin, Note, NoteView, Nullifier};
use crate::primitives::nullifier_digest;
use crate::tree_model::{
    ancestor, authenticates, capacity, digests, extended_path, lemma_capacity_positive,
    lemma_extension_authenticates, lemma_path_reaches_root, node, path_root, sibling, tree_root,
};
use vstd::prelude::*;

verus! {

/// The depth of the commitment tree unless another is asked for.
pub const DEFAULT_DEPTH: usize = 32;

/// One note the wallet can spend: the coin on the ledger, the note behind
/// it, the key that owns it, the coin's authentication path, and the
/// nullifier once the note is spent.
pub struct OwnedCoinEntry {
    pub coin: Coin,
    pub note: Note,
    pub secret: SpendingKey,
    pub witness: MerkleWitness,
    pub spent: Option<Nullifier>,
}

/// What an entry holds, as plain values.
pub ghost struct EntryView {
    pub coin: Seq<u8>,
    pub note: NoteView,
    pub secret: Seq<u8>,
    pub witness: WitnessView,
    pub spent: Option<Seq<u8>>,
}

impl View for OwnedCoinEntry {
    type V = EntryView;

    open spec fn view(&self) -> EntryView {
        EntryView {
            coin: self.coin@,
            note: self.note@,
            secret: self.secret@,
            witness: self.witness@,
            spent: match self.spent {
                Some(nullifier) => Some(nullifier@),
                None => None,
            },
        }
    }
}

impl OwnedCoinEntry {
    /// Whether the entry has been retired.
    pub open spec fn retired(&self) -> bool {
        self.spent is Some
    }

    /// The nullifier to publish when this entry is spent.
    pub fn nullifier(&self) -> (nullifier: Nullifier)
        ensures
            nullifier@ == nullifier_digest(self.secret@, self.note.serial@),
    {
        derive_nullifier(&self.secret, &self.note)
    }

    /// The same entry, retired with the given nullifier.
    pub open spec fn retired_as(&self, other: &OwnedCoinEntry, nullifier: Nullifier) -> bool {
        &&& other.coin == self.coin
        &&& other.note == self.note
        &&& other.secret == self.secret
        &&& other.witness == self.witness
        &&& other.spent == Some(nullifier)
    }

    /// The same entry with another authentication path.
    pub open spec fn with_path(&self, other: &OwnedCoinEntry) -> bool {
        &&& other.coin == self.coin
        &&& other.note == self.note
        &&& other.secret == self.secret
        &&& other.spent == self.spent
        &&& other.witness.position == self.witness.position
    }
}

/// The value of the entries from `from` on that are not retired.
pub open spec fn unspent_total(entries: Seq<OwnedCoinEntry>, from: int) -> int
    decreases entries.len() - from,
{
    if from < 0 || from >= entries.len() {
        0
    } else if entries[from].retired() {
        unspent_total(entries, from + 1)
    } else {
        entries[from].note.value + unspent_total(entries, from + 1)
    }
}

/// The number of entries from `from` on that are not retired.
pub open spec fn unspent_count(entries: Seq<OwnedCoinEntry>, from: int) -> int
    decreases entries.len() - from,
{
    if from < 0 || from >= entries.len() {
        0
    } else if entries[from].retired() {
        unspent_count(entries, from + 1)
    } else {
        1 + unspent_count(entries, from + 1)
    }
}

/// The entries picked when scanning from `from` with `gathered` already in
/// hand: every entry that is not retired, oldest first, up to and
/// including the one with which the target is reached.
pub open spec fn gather(
    entries: Seq<OwnedCoinEntry>,
    target: int,
    from: int,
    gathered: int,
) -> Seq<int>
    decreases entries.len() - from,
{
    if from < 0 || from >= entries.len() {
        Seq::empty()
    } else if entries[from].retired() {
        gather(entries, target, from + 1, gathered)
    } else if gathered + entries[from].note.value >= target {
        seq![from]
    } else {
        seq![from] + gather(entries, target, from + 1, gathered + entries[from].note.value)
    }
}

/// The value of the entries at the picked indices.
pub open spec fn picked_value(entries: Seq<OwnedCoinEntry>, picked: Seq<int>) -> int
    decreases picked.len(),
{
    if picked.len() == 0 {
        0
    } else {
        picked_value(entries, picked.drop_last()) + entries[picked.last()].note.value
    }
}

/// The entries to spend for `target`: none where nothing is left to spend
/// or what is left is worth less than the target.
pub open spec fn selection(entries: Seq<OwnedCoinEntry>, target: int) -> Option<Seq<int>> {
    if unspent_count(entries, 0) > 0 && unspent_total(entries, 0) >= target {
        Some(gather(entries, target, 0, 0))
    } else {
        None
    }
}

/// The indices as integers.
pub open spec fn indices(picked: Seq<usize>) -> Seq<int> {
    Seq::new(picked.len(), |k: int| picked[k] as int)
}

/// What `select_spendable` owes for a store with these entries.
pub open spec fn is_selection(
    entries: Seq<OwnedCoinEntry>,
    target: int,
    outcome: Result<Vec<usize>, Error>,
) -> bool {
    match selection(entries, target) {
        Some(picked) => outcome matches Ok(chosen) && indices(chosen@) == picked,
        None => outcome matches Err(e) && e == Error::InsufficientFunds,
    }
}

/// The chosen entries are a fit answer to a request for `target`: there is
/// at least one, each is tracked and not retired, none is chosen twice
/// (they come oldest first), and together they are worth the target.
pub open spec fn covers(entries: Seq<OwnedCoinEntry>, target: int, chosen: Seq<usize>) -> bool {
    &&& chosen.len() > 0
    &&& forall|k: int|
        0 <= k < chosen.len() ==> (#[trigger] chosen[k]) < entries.len()
            && !entries[chosen[k] as int].retired()
    &&& forall|j: int, k: int|
        0 <= j < k < chosen.len() ==> (#[trigger] chosen[j]) < (#[trigger] chosen[k])
    &&& picked_value(entries, indices(chosen)) >= target
}

/// Nothing is worth less than nothing, and nothing counts below zero.
pub proof fn lemma_unspent_nonnegative(entries: Seq<OwnedCoinEntry>, from: int)
    ensures
        unspent_total(entries, from) >= 0,
        unspent_count(entries, from) >= 0,
    decreases entries.len() - from,
{
    if 0 <= from < entries.len() {
        lemma_unspent_nonnegative(entries, from + 1);
    }
}

/// The wallet's notes and the commitment tree they sit in.
pub struct NoteStore {
    tree: MerkleTree,
    entries: Vec<OwnedCoinEntry>,
}

impl NoteStore {
    /// The tracked entries, oldest first.
    pub closed spec fn entries(&self) -> Seq<OwnedCoinEntry> {
        self.entries@
    }

    /// The leaves of the commitment tree, oldest first.
    pub closed spec fn leaves(&self) -> Seq<Seq<u8>> {
        self.tree.leaves()
    }

    /// The depth of the commitment tree.
    pub closed spec fn depth(&self) -> nat {
        self.tree.spec_depth()
    }

    /// Every entry's path authenticates its coin in the tree as it stands.
    pub closed spec fn wf(&self) -> bool {
        &&& self.tree.wf()
        &&& self.tree.spec_depth() <= MAX_DEPTH
        &&& self.tree.leaves().len() <= capacity(self.tree.spec_depth())
        &&& forall|i: int|
            0 <= i < self.entries@.len() ==> self.tracks(#[trigger] self.entries@[i])
    }

    /// The entry's path is as long as the tree is deep and authenticates
    /// the entry's coin among the leaves.
    pub closed spec fn tracks(&self, entry: OwnedCoinEntry) -> bool {
        &&& entry.coin@ == entry.note@.commitment()
        &&& entry.witness.siblings@.len() == self.tree.spec_depth()
        &&& authenticates(self.tree.leaves(), entry.witness.position as nat, entry.witness.path())
        &&& self.tree.leaves()[entry.witness.position as int] == entry.coin@
    }

    /// An empty store over an empty tree of the given depth, or nothing
    /// where the depth is beyond what the node hash supports.
    pub fn with_depth(depth: usize) -> (store: Option<NoteStore>)
        ensures
            store is Some <==> depth <= MAX_DEPTH,
            store matches Some(s) ==> {
                &&& s.wf()
                &&& s.depth() == depth
                &&& s.entries() == Seq::<OwnedCoinEntry>::empty()
                &&& s.leaves() == Seq::<Seq<u8>>::empty()
                &&& !s.full()
            },
    {
        proof {
            lemma_capacity_positive(depth as nat);
        }
        match MerkleTree::new(depth) {
            Some(tree) => Some(NoteStore { tree, entries: Vec::new() }),
            None => None,
        }
    }

    /// An empty store over an empty tree of the default depth.
    pub fn new() -> (store: NoteStore)
        ensures
            store.wf(),
            store.depth() == DEFAULT_DEPTH,
            store.entries() == Seq::<OwnedCoinEntry>::empty(),
            store.leaves() == Seq::<Seq<u8>>::empty(),
            !store.full(),
    {
        let made: Option<NoteStore> = NoteStore::with_depth(DEFAULT_DEPTH);
        made.unwrap()
    }

    /// The number of tracked entries.
    pub fn len(&self) -> (len: usize)
        ensures
            len == self.entries().len(),
    {
        self.entries.len()
    }

    /// The entry at `index`, or nothing past the last.
    pub fn entry(&self, index: usize) -> (entry: Option<&OwnedCoinEntry>)
        ensures
            entry is Some <==> index < self.entries().len(),
            entry matches Some(e) ==> *e == self.entries()[index as int],
    {
        if index < self.entries.len() {
            Some(&self.entries[index])
        } else {
            None
        }
    }

    /// The number of leaves the tree holds.
    pub fn tree_size(&self) -> (size: u64)
        requires
            self.wf(),
        ensures
            size == self.leaves().len(),
    {
        self.tree.size()
    }

    /// The root of the commitment tree as it stands.
    pub fn root(&self) -> (root: [u8; 32])
        requires
            self.wf(),
        ensures
            root@ == tree_root(self.leaves(), self.depth()),
    {
        self.tree.root()
    }

    /// Whether the path of the entry at `index` leads from its coin to the
    /// tree's root; for an index past the last entry, no.
    pub fn entry_verifies(&self, index: usize) -> (valid: bool)
        requires
            self.wf(),
        ensures
            valid == (index < self.entries().len()),
    {
        if index >= self.entries.len() {
            return false;
        }
        let entry: &OwnedCoinEntry = &self.entries[index];
        let root: [u8; 32] = self.tree.root();
        proof {
            assert(self.tracks(self.entries@[index as int]));
            lemma_path_reaches_root(
                self.tree.leaves(),
                entry.witness.position as nat,
                entry.witness.path(),
            );
        }
        entry.witness.verifies(&entry.coin.repr, &root)
    }

    /// The entries with their paths extended by what an append changed.
    fn extended(&self, delta: &TreeDelta) -> (extended: Vec<OwnedCoinEntry>)
        ensures
            extended@.len() == self.entries@.len(),
            forall|i: int|
                0 <= i < extended@.len() ==> {
                    &&& self.entries@[i].with_path(&#[trigger] extended@[i])
                    &&& extended@[i].witness.path() == extended_path(
                        self.entries@[i].witness.position as nat,
                        self.entries@[i].witness.path(),
                        delta.position as nat,
                        digests(delta.nodes@),
                    )
                },
    {
        let mut extended: Vec<OwnedCoinEntry> = Vec::new();
        let mut i: usize = 0;
        while i < self.entries.len()
            invariant
                i <= self.entries@.len(),
                extended@.len() == i,
                forall|k: int|
                    0 <= k < i ==> {
                        &&& self.entries@[k].with_path(&#[trigger] extended@[k])
                        &&& extended@[k].witness.path() == extended_path(
                            self.entries@[k].witness.position as nat,
                            self.entries@[k].witness.path(),
                            delta.position as nat,
                            digests(delta.nodes@),
                        )
                    },
            decreases self.entries@.len() - i,
        {
            let entry: &OwnedCoinEntry = &self.entries[i];
            extended.push(
                OwnedCoinEntry {
                    coin: entry.coin,
                    note: entry.note,
                    secret: entry.secret,
                    witness: entry.witness.extend(delta),
                    spent: entry.spent,
                },
            );
            i = i + 1;
        }
        extended
    }

    /// Takes in a leaf that the ledger admitted to the commitment tree and
    /// extends the path of every tracked entry. A full tree refuses the
    /// leaf and the store stays as it was.
    pub fn observe_append(&mut self, new_leaf: [u8; 32]) -> (res: Result<(), Error>)
        requires
            old(self).wf(),
        ensures
            final(self).wf(),
            res is Ok <==> !old(self).full(),
            res matches Err(e) ==> e == Error::TreeFull && final(self).same_as(old(self)),
            res is Ok ==> final(self).took_in(old(self), new_leaf@) && final(self).entries().len()
                == old(self).entries().len(),
    {
        let ghost before = self.tree.leaves();
        match self.tree.append(new_leaf) {
            None => Err(Error::TreeFull),
            Some(delta) => {
                let extended: Vec<OwnedCoinEntry> = self.extended(&delta);
                proof {
                    assert forall|i: int| 0 <= i < extended@.len() implies self.tracks(
                        #[trigger] extended@[i],
                    ) by {
                        let old_entry = self.entries@[i];
                        let new_entry = extended@[i];
                        assert(old(self).tracks(old_entry));
                        assert(old_entry.with_path(&new_entry));
                        lemma_extension_authenticates(
                            before,
                            new_leaf@,
                            old_entry.witness.position as nat,
                            old_entry.witness.path(),
                            digests(delta.nodes@),
                        );
                        assert(new_entry.witness.path().len() == old_entry.witness.path().len());
                        assert(new_entry.witness.siblings@.len() == self.tree.spec_depth());
                        assert(before.push(new_leaf@)[old_entry.witness.position as int]
                            == before[old_entry.witness.position as int]);
                        assert(authenticates(
                            self.tree.leaves(),
                            new_entry.witness.position as nat,
                            new_entry.witness.path(),
                        ));
                    }
                }
                self.entries = extended;
                proof {
                    self.law_witnesses_verify();
                }
                Ok(())
            },
        }
    }

    /// Records a note the wallet received: checks that `derived_coin`
    /// commits to the note, admits the coin to the tree at the first free
    /// position, extends the paths of the entries already tracked and
    /// tracks the new one. Gives the new entry's index.
    pub fn record(&mut self, note: Note, derived_coin: Coin, secret: SpendingKey) -> (res: Result<
        usize,
        Error,
    >)
        requires
            old(self).wf(),
        ensures
            final(self).wf(),
            res is Ok <==> note@.commitment() == derived_coin@ && !old(self).full(),
            res matches Ok(index) ==> index == old(self).entries().len() && final(self).recorded(
                old(self),
                note,
                derived_coin,
                secret,
            ),
            res matches Err(e) ==> final(self).same_as(old(self)) && e == (if note@.commitment()
                != derived_coin@ {
                Error::CommitmentMismatch
            } else {
                Error::TreeFull
            }),
    {
        let commitment: Coin = note.commit();
        if !commitment.same(&derived_coin) {
            return Err(Error::CommitmentMismatch);
        }
        match self.observe_append(derived_coin.repr) {
            Err(e) => Err(e),
            Ok(()) => {
                let witness: MerkleWitness = self.tree.latest_witness().unwrap();
                let index: usize = self.entries.len();
                self.entries.push(
                    OwnedCoinEntry { coin: derived_coin, note, secret, witness, spent: None },
                );
                proof {
                    assert forall|i: int| 0 <= i < self.entries@.len() implies self.tracks(
                        #[trigger] self.entries@[i],
                    ) by {
                        if i < index {
                            assert(self.entries@[i] == self.entries@.drop_last()[i]);
                        }
                    }
                    self.law_witnesses_verify();
                }
                Ok(index)
            },
        }
    }

    /// The entries to spend for `target_value`: those that are not
    /// retired, oldest first, up to the one with which the target is
    /// reached.
    pub fn select_spendable(&self, target_value: u64) -> (res: Result<Vec<usize>, Error>)
        ensures
            is_selection(self.entries(), target_value as int, res),
            res matches Ok(chosen) ==> covers(self.entries(), target_value as int, chosen@),
    {
        let ghost entries = self.entries@;
        let ghost target = target_value as int;
        let mut chosen: Vec<usize> = Vec::new();
        let mut gathered: u128 = 0;
        let mut reached: bool = false;
        let mut i: usize = 0;
        while i < self.entries.len() && !reached
            invariant
                entries == self.entries@,
                target == target_value as int,
                i <= entries.len(),
                gathered <= i * u64::MAX,
                gathered == picked_value(entries, indices(chosen@)),
                gathered + unspent_total(entries, i as int) == unspent_total(entries, 0),
                chosen@.len() + unspent_count(entries, i as int) == unspent_count(entries, 0),
                !reached ==> gather(entries, target, 0, 0) == indices(chosen@) + gather(
                    entries,
                    target,
                    i as int,
                    gathered as int,
                ),
                !reached ==> chosen@.len() == 0 || gathered < target,
                reached ==> gather(entries, target, 0, 0) == indices(chosen@),
                reached ==> chosen@.len() > 0 && gathered >= target,
                forall|k: int|
                    0 <= k < chosen@.len() ==> (#[trigger] chosen@[k]) < i
                        && !entries[chosen@[k] as int].retired(),
                forall|j: int, k: int|
                    0 <= j < k < chosen@.len() ==> (#[trigger] chosen@[j]) < (
                    #[trigger] chosen@[k]),
            decreases entries.len() - i + (if reached { 0int } else { 1int }),
        {
            let entry: &OwnedCoinEntry = &self.entries[i];
            if entry.spent.is_none() {
                let ghost earlier = indices(chosen@);
                chosen.push(i);
                proof {
                    assert(indices(chosen@).drop_last() =~= earlier);
                    assert(indices(chosen@) =~= earlier + seq![i as int]);
                    assert(i * u64::MAX + u64::MAX == (i + 1) * u64::MAX) by (nonlinear_arith);
                }
                gathered = gathered + entry.note.value as u128;
                if gathered >= target_value as u128 {
                    reached = true;
                } else {
                    assert(earlier + (seq![i as int] + gather(
                        entries,
                        target,
                        i + 1,
                        gathered as int,
                    )) =~= indices(chosen@) + gather(entries, target, i + 1, gathered as int));
                }
            } else {
                proof {
                    assert(i * u64::MAX <= (i + 1) * u64::MAX) by (nonlinear_arith);
                }
            }
            i = i + 1;
        }
        proof {
            lemma_unspent_nonnegative(entries, i as int);
        }
        if reached {
            Ok(chosen)
        } else {
            Err(Error::InsufficientFunds)
        }
    }

    /// Retires the entry at `index` with the nullifier that was broadcast
    /// for it. An index past the last entry, or an entry retired before,
    /// changes nothing.
    pub fn mark_spent(&mut self, index: usize, nullifier: Nullifier) -> (retired: bool)
        requires
            old(self).wf(),
        ensures
            final(self).wf(),
            retired == (index < old(self).entries().len()
                && !old(self).entries()[index as int].retired()),
            !retired ==> final(self).same_as(old(self)),
            retired ==> final(self).retired_at(old(self), index as int, nullifier),
    {
        if index >= self.entries.len() {
            return false;
        }
        if self.entries[index].spent.is_some() {
            return false;
        }
        let entry: OwnedCoinEntry = self.entries.remove(index);
        let marked = OwnedCoinEntry {
            coin: entry.coin,
            note: entry.note,
            secret: entry.secret,
            witness: entry.witness,
            spent: Some(nullifier),
        };
        self.entries.insert(index, marked);
        proof {
            assert forall|i: int| 0 <= i < self.entries@.len() implies self.tracks(
                #[trigger] self.entries@[i],
            ) by {
                assert(old(self).tracks(old(self).entries@[i]));
            }
        }
        true
    }

    /// The same leaves and the same entries as `before`.
    pub open spec fn same_as(&self, before: &NoteStore) -> bool {
        &&& self.depth() == before.depth()
        &&& self.leaves() == before.leaves()
        &&& self.entries() == before.entries()
    }

    /// The store that `before` becomes by taking in `leaf`: the leaf is
    /// the tree's last, and every entry is the one it was but for its
    /// path, which holds again.
    pub open spec fn took_in(&self, before: &NoteStore, leaf: Seq<u8>) -> bool {
        &&& self.depth() == before.depth()
        &&& self.leaves() == before.leaves().push(leaf)
        &&& self.entries().len() >= before.entries().len()
        &&& forall|i: int|
            0 <= i < before.entries().len() ==> before.entries()[i].with_path(
                &#[trigger] self.entries()[i],
            )
        &&& self.witnesses_hold()
    }

    /// The store that `before` becomes by recording a note: the coin is
    /// taken in as a leaf, and a new last entry holds the coin, the note
    /// and the key, not retired, at the leaf's position.
    pub open spec fn recorded(
        &self,
        before: &NoteStore,
        note: Note,
        coin: Coin,
        secret: SpendingKey,
    ) -> bool {
        let index = before.entries().len() as int;
        &&& self.took_in(before, coin@)
        &&& self.entries().len() == index + 1
        &&& self.entries()[index].coin == coin
        &&& self.entries()[index].note == note
        &&& self.entries()[index].secret == secret
        &&& self.entries()[index].spent is None
        &&& self.entries()[index].witness.position == before.leaves().len()
    }

    /// The store that `before` becomes by retiring the entry at `index`:
    /// that entry carries the nullifier, and nothing else differs.
    pub open spec fn retired_at(
        &self,
        before: &NoteStore,
        index: int,
        nullifier: Nullifier,
    ) -> bool {
        &&& self.depth() == before.depth()
        &&& self.leaves() == before.leaves()
        &&& self.entries().len() == before.entries().len()
        &&& forall|i: int|
            0 <= i < before.entries().len() && i != index ==> #[trigger] self.entries()[i]
                == before.entries()[i]
        &&& before.entries()[index].retired_as(&self.entries()[index], nullifier)
    }

    /// Whether every position of the tree holds a leaf.
    pub open spec fn full(&self) -> bool {
        self.leaves().len() >= capacity(self.depth())
    }

    /// Every tracked coin commits to its note, and its path is as long as
    /// the tree is deep, holds the siblings of the nodes above the coin's
    /// leaf, and leads from the coin to the tree's root.
    pub open spec fn witnesses_hold(&self) -> bool {
        forall|i: int|
            0 <= i < self.entries().len() ==> {
                let entry = #[trigger] self.entries()[i];
                &&& entry.coin@ == entry.note@.commitment()
                &&& entry.witness.path().len() == self.depth()
                &&& authenticates(
                    self.leaves(),
                    entry.witness.position as nat,
                    entry.witness.path(),
                )
                &&& self.leaves()[entry.witness.position as int] == entry.coin@
                &&& path_root(entry.coin@, entry.witness.position as nat, entry.witness.path())
                    == tree_root(self.leaves(), self.depth())
            }
    }

    /// However many leaves were taken in, every tracked path is as long as
    /// the tree is deep and verifies, with its coin, against the tree's
    /// root.
    pub proof fn law_witnesses_verify(&self)
        requires
            self.wf(),
        ensures
            self.witnesses_hold(),
    {
        assert forall|i: int| 0 <= i < self.entries().len() implies {
            let entry = #[trigger] self.entries()[i];
            &&& entry.coin@ == entry.note@.commitment()
            &&& entry.witness.path().len() == self.depth()
            &&& authenticates(self.leaves(), entry.witness.position as nat, entry.witness.path())
            &&& self.leaves()[entry.witness.position as int] == entry.coin@
            &&& path_root(entry.coin@, entry.witness.position as nat, entry.witness.path())
                == tree_root(self.leaves(), self.depth())
        } by {
            let entry = self.entries()[i];
            assert(self.tracks(entry));
            lemma_path_reaches_root(
                self.tree.leaves(),
                entry.witness.position as nat,
                entry.witness.path(),
            );
        }
    }
}

/// The order in which leaves were admitted shows in a path: a path that
/// authenticates the same position among two runs of leaves finds the same
/// leaf beside that position in both. Leaves fed in another order, with
/// another leaf landing beside a tracked coin, give another path.
pub proof fn law_path_fixes_neighbouring_leaf(
    first: Seq<Seq<u8>>,
    second: Seq<Seq<u8>>,
    position: nat,
    path: Seq<Seq<u8>>,
)
    requires
        authenticates(first, position, path),
        authenticates(second, position, path),
        path.len() >= 1,
    ensures
        node(first, 0, sibling(position)) == node(second, 0, sibling(position)),
{
    assert(path[0] == node(first, 0, sibling(ancestor(position, 0))));
    assert(path[0] == node(second, 0, sibling(ancestor(position, 0))));
}

/// Selection is a function of the store and the target: two outcomes for
/// the same entries and target agree.
pub proof fn law_selection_is_deterministic(
    entries: Seq<OwnedCoinEntry>,
    target: int,
    first: Result<Vec<usize>, Error>,
    second: Result<Vec<usize>, Error>,
)
    requires
        is_selection(entries, target, first),
        is_selection(entries, target, second),
    ensures
        first is Ok <==> second is Ok,
        first matches Ok(a) ==> second matches Ok(b) && a@ == b@,
        first matches Err(e) ==> second matches Err(f) && e == f,
{
    if let Ok(a) = first {
        if let Ok(b) = second {
            assert(indices(a@) == indices(b@));
            assert(indices(a@).len() == a@.len());
            assert(indices(b@).len() == b@.len());
            assert forall|k: int| 0 <= k < a@.len() implies a@[k] == b@[k] by {
                assert(indices(a@)[k] == indices(b@)[k]);
            }
            assert(a@ =~= b@);
        }
    }
}

} // verus!
