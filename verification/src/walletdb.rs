//! The wallet: its spending keys, the rows it has written, and the notes
//! it tracks.

use crate::codec::{deserialize, decoding, encoded_u64, serialize, Decodable, Encodable};
use crate::error::Error;
use crate::cashier::CashierKeyRegistry;
use crate::keys::{generate_from, PublicKey, Scalar, SpendingKey};
use crate::merkle::{encoded_witness, MerkleWitness, WitnessView};
use crate::note::{Coin, Note, NoteView, Nullifier};
use crate::notestore::{covers, is_selection, EntryView, NoteStore, OwnedCoinEntry, DEFAULT_DEPTH};
use crate::primitives::{
    generator_multiply, is_canonical_scalar, le_value, os_entropy, scalar_modulus,
};
use crate::store::{
    cashier_column, decode_all, law_keys_listed_in_call_order, listed, owner_id,
    private_column, public_column, CashierRowView,
    CoinRow, CoinRowView, KeyRowView, RowStore,
};
use vstd::prelude::*;

verus! {

/// The coin row that stands for an entry owned by the key with the given
/// id: each column is the encoding of one field.
pub open spec fn coin_row_of(entry: OwnedCoinEntry, key_id: u64) -> CoinRowView {
    CoinRowView {
        coin: entry.coin@,
        serial: entry.note.serial@,
        value: encoded_u64(entry.note.value),
        coin_blind: entry.note.coin_blind@,
        valcom_blind: entry.note.valcom_blind@,
        witness: encoded_witness(entry.witness@),
        key_id,
    }
}

/// The coin, the note and the path that the columns of a coin row stand
/// for, the note being addressed to `recipient`: none where a column is
/// not the encoding of its field.
pub open spec fn row_columns(row: CoinRowView, recipient: Seq<u8>) -> Option<
    (Seq<u8>, NoteView, WitnessView),
> {
    if decoding::<Coin>(row.coin) is Some && decoding::<Scalar>(row.serial) is Some
        && decoding::<u64>(row.value) is Some && decoding::<Scalar>(row.coin_blind) is Some
        && decoding::<Scalar>(row.valcom_blind) is Some && decoding::<MerkleWitness>(
        row.witness,
    ) is Some {
        Some(
            (
                decoding::<Coin>(row.coin).unwrap(),
                NoteView {
                    value: decoding::<u64>(row.value).unwrap(),
                    serial: decoding::<Scalar>(row.serial).unwrap(),
                    coin_blind: decoding::<Scalar>(row.coin_blind).unwrap(),
                    valcom_blind: decoding::<Scalar>(row.valcom_blind).unwrap(),
                    recipient,
                },
                decoding::<MerkleWitness>(row.witness).unwrap(),
            ),
        )
    } else {
        None
    }
}

/// The entry that a coin row stands for, owned by `secret` and addressed
/// to `recipient`: a decoding failure where a column is malformed, a
/// mismatch where the coin does not commit to the note. A row tells
/// nothing of retirement, so the entry is not retired.
pub open spec fn entry_of_row(row: CoinRowView, secret: Seq<u8>, recipient: Seq<u8>) -> Result<
    EntryView,
    Error,
> {
    match row_columns(row, recipient) {
        Some((coin, note, witness)) => if note.commitment() == coin {
            Ok(EntryView { coin, note, secret, witness, spent: None })
        } else {
            Err(Error::CommitmentMismatch)
        },
        None => Err(Error::DecodeError),
    }
}

/// The entry that the coin row at `index` stands for: a storage failure
/// where there is no such row or it names no key row, a decoding failure
/// where the key row is malformed, else what the row stands for with the
/// key row's pair as owner and recipient.
pub open spec fn stored_entry(coins: Seq<CoinRowView>, keys: Seq<KeyRowView>, index: int) -> Result<
    EntryView,
    Error,
> {
    if index < 0 || index >= coins.len() {
        Err(Error::StorageError)
    } else if coins[index].key_id < 1 || coins[index].key_id > keys.len() {
        Err(Error::StorageError)
    } else {
        let key = keys[coins[index].key_id - 1];
        if decoding::<SpendingKey>(key.key_private) is Some && decoding::<PublicKey>(
            key.key_public,
        ) is Some {
            entry_of_row(
                coins[index],
                decoding::<SpendingKey>(key.key_private).unwrap(),
                decoding::<PublicKey>(key.key_public).unwrap(),
            )
        } else {
            Err(Error::DecodeError)
        }
    }
}

/// Reads a coin row back into an entry owned by `secret` and addressed to
/// `recipient`.
pub fn entry_from_row(row: &CoinRow, secret: SpendingKey, recipient: PublicKey) -> (res: Result<
    OwnedCoinEntry,
    Error,
>)
    ensures
        match entry_of_row(row@, secret@, recipient@) {
            Ok(view) => res matches Ok(entry) && entry@ == view,
            Err(kind) => res matches Err(e) && e == kind,
        },
{
    let coin = deserialize::<Coin>(row.coin.as_slice());
    let serial = deserialize::<Scalar>(row.serial.as_slice());
    let value = deserialize::<u64>(row.value.as_slice());
    let coin_blind = deserialize::<Scalar>(row.coin_blind.as_slice());
    let valcom_blind = deserialize::<Scalar>(row.valcom_blind.as_slice());
    let witness = deserialize::<MerkleWitness>(row.witness.as_slice());
    match (coin, serial, value, coin_blind, valcom_blind, witness) {
        (Ok(coin), Ok(serial), Ok(value), Ok(coin_blind), Ok(valcom_blind), Ok(witness)) => {
            let note = Note { value, serial, coin_blind, valcom_blind, recipient };
            if note.commit().same(&coin) {
                Ok(OwnedCoinEntry { coin, note, secret, witness, spent: None })
            } else {
                Err(Error::CommitmentMismatch)
            }
        },
        _ => Err(Error::DecodeError),
    }
}

/// Reading a coin row back undoes writing it: the row written for an
/// entry stands for that entry, not retired, whatever the key id.
pub proof fn law_row_gives_entry_back(entry: OwnedCoinEntry, key_id: u64)
    requires
        entry.note.wf(),
        entry.witness.wf(),
        entry.coin@ == entry.note@.commitment(),
    ensures
        entry_of_row(coin_row_of(entry, key_id), entry.secret@, entry.note.recipient@) == Ok::<
            EntryView,
            Error,
        >(
            EntryView {
                coin: entry.coin@,
                note: entry.note@,
                secret: entry.secret@,
                witness: entry.witness@,
                spent: None,
            },
        ),
{
    crate::codec::law_round_trip(entry.coin);
    crate::codec::law_round_trip(entry.note.serial);
    crate::codec::law_round_trip(entry.note.value);
    crate::codec::law_round_trip(entry.note.coin_blind);
    crate::codec::law_round_trip(entry.note.valcom_blind);
    crate::codec::law_round_trip(entry.witness);
}

/// The wallet.
pub struct WalletDB {
    secrets: Vec<SpendingKey>,
    rows: RowStore,
    notes: NoteStore,
    written: usize,
}

impl WalletDB {
    /// The wallet's own spending keys as canonical scalars, the first
    /// being the one it was created with.
    pub closed spec fn secrets(&self) -> Seq<Seq<u8>> {
        Seq::new(self.secrets@.len(), |i: int| self.secrets@[i]@)
    }

    /// The rows written so far.
    pub closed spec fn rows(&self) -> RowStore {
        self.rows
    }

    /// The notes tracked.
    pub closed spec fn notes(&self) -> NoteStore {
        self.notes
    }

    /// The number of entries whose coin row was written.
    pub closed spec fn written(&self) -> nat {
        self.written as nat
    }

    /// The spending key the wallet was created with.
    pub closed spec fn first_key(&self) -> SpendingKey {
        self.secrets@[0]
    }

    /// The same keys and the same rows as `before`.
    pub open spec fn keeps_rows_of(&self, before: &WalletDB) -> bool {
        &&& self.secrets() == before.secrets()
        &&& self.first_key() == before.first_key()
        &&& self.rows() == before.rows()
        &&& self.written() == before.written()
    }

    /// The keys are canonical and the rows and the notes are well-formed.
    pub closed spec fn sound(&self) -> bool {
        &&& forall|i: int| 0 <= i < self.secrets@.len() ==> (#[trigger] self.secrets@[i]).wf()
        &&& self.rows.wf()
        &&& self.notes.wf()
    }

    /// The wallet has a spending key, its parts are well-formed, and no
    /// more coin rows were written than entries are tracked.
    pub open spec fn wf(&self) -> bool {
        &&& self.sound()
        &&& self.secrets().len() >= 1
        &&& self.first_key()@ == self.secrets()[0]
        &&& self.written() <= self.notes().entries().len()
    }

    /// The wallet as it is made: it has one spending key, a canonical
    /// scalar; its three relations have no rows; it tracks no notes, and
    /// its commitment tree, of the default depth, has no leaves.
    pub open spec fn fresh(&self) -> bool {
        &&& self.wf()
        &&& self.secrets().len() == 1
        &&& is_canonical_scalar(self.secrets()[0])
        &&& self.first_key()@ == self.secrets()[0]
        &&& self.rows().keys() == Seq::<KeyRowView>::empty()
        &&& self.rows().cashier() == Seq::<CashierRowView>::empty()
        &&& self.rows().coins() == Seq::<CoinRowView>::empty()
        &&& self.notes().entries() == Seq::<OwnedCoinEntry>::empty()
        &&& self.notes().leaves() == Seq::<Seq<u8>>::empty()
        &&& self.notes().depth() == DEFAULT_DEPTH
        &&& !self.notes().full()
        &&& self.written() == 0
    }

    /// A new wallet whose spending key is the one that the 64 bytes of
    /// randomness determine. Nothing is written and nothing is tracked.
    pub fn new(seed: &[u8; 64]) -> (wallet: WalletDB)
        ensures
            wallet.fresh(),
            le_value(wallet.secrets()[0]) == le_value(seed@) % scalar_modulus(),
    {
        let pair: (PublicKey, SpendingKey) = generate_from(seed);
        let mut secrets: Vec<SpendingKey> = Vec::new();
        secrets.push(pair.1);
        WalletDB { secrets, rows: RowStore::new(), notes: NoteStore::new(), written: 0 }
    }

    /// A new wallet for what the randomness source gave: nothing where it
    /// gave nothing.
    pub fn new_with(drawn: Option<[u8; 64]>) -> (wallet: Option<WalletDB>)
        ensures
            wallet is Some <==> drawn is Some,
            wallet matches Some(w) ==> w.fresh() && le_value(w.secrets()[0]) == le_value(
                drawn.unwrap()@,
            ) % scalar_modulus(),
    {
        match drawn {
            Some(seed) => Some(WalletDB::new(&seed)),
            None => None,
        }
    }

    /// A new wallet with a spending key drawn from the operating system's
    /// randomness, or nothing where that source is unavailable. The wallet
    /// holds that one key, canonical, and nothing else: no rows are
    /// written, no notes are tracked, and its tree is empty.
    pub fn create() -> (wallet: Option<WalletDB>)
        ensures
            wallet matches Some(w) ==> w.fresh(),
    {
        WalletDB::new_with(os_entropy())
    }

    /// The encodings of the key pair the wallet was created with: the
    /// public key first, the spending key second.
    pub fn own_keypair(&self) -> (pair: (Vec<u8>, Vec<u8>))
        requires
            self.wf(),
        ensures
            pair.0@.len() == 32,
            pair.1@ == self.secrets()[0],
            is_canonical_scalar(pair.1@),
            pair.0@ == generator_multiply(pair.1@),
    {
        let key: SpendingKey = self.secrets[0];
        let public: PublicKey = key.public_key();
        (serialize(&public), serialize(&key))
    }

    /// The encodings of the key pair the wallet was created with, where no
    /// row of `keys` holds its spending key yet; nothing where one does.
    /// Coins recorded for the wallet need that row.
    pub fn unwritten_own_keypair(&self) -> (pair: Option<(Vec<u8>, Vec<u8>)>)
        requires
            self.wf(),
        ensures
            pair is Some <==> owner_id(self.rows().keys(), self.secrets()[0], 0) is None,
            pair matches Some(p) ==> {
                &&& p.0@.len() == 32
                &&& p.1@ == self.secrets()[0]
                &&& p.0@ == generator_multiply(p.1@)
            },
    {
        let pair: (Vec<u8>, Vec<u8>) = self.own_keypair();
        match self.rows.find_owner(pair.1.as_slice()) {
            Some(_) => None,
            None => Some(pair),
        }
    }

    /// The encodings of the key pair that the 64 bytes of randomness
    /// determine: the public key first, the spending key second.
    pub fn key_gen_from(&self, seed: &[u8; 64]) -> (pair: (Vec<u8>, Vec<u8>))
        ensures
            pair.0@.len() == 32,
            is_canonical_scalar(pair.1@),
            le_value(pair.1@) == le_value(seed@) % scalar_modulus(),
            pair.0@ == generator_multiply(pair.1@),
    {
        let keys: (PublicKey, SpendingKey) = generate_from(seed);
        (serialize(&keys.0), serialize(&keys.1))
    }

    /// The encodings of the key pair for what the randomness source gave:
    /// nothing where it gave nothing.
    pub fn key_gen_with(&self, drawn: Option<[u8; 64]>) -> (pair: Option<(Vec<u8>, Vec<u8>)>)
        ensures
            pair is Some <==> drawn is Some,
            pair matches Some(p) ==> {
                &&& p.0@.len() == 32
                &&& is_canonical_scalar(p.1@)
                &&& le_value(p.1@) == le_value(drawn.unwrap()@) % scalar_modulus()
                &&& p.0@ == generator_multiply(p.1@)
            },
    {
        match drawn {
            Some(seed) => Some(self.key_gen_from(&seed)),
            None => None,
        }
    }

    /// The encodings of a fresh key pair, the public key first, or
    /// nothing where the randomness source is unavailable.
    pub fn key_gen(&self) -> (pair: Option<(Vec<u8>, Vec<u8>)>)
        ensures
            pair matches Some(p) ==> p.0@.len() == 32 && is_canonical_scalar(p.1@) && p.0@
                == generator_multiply(p.1@),
    {
        self.key_gen_with(os_entropy())
    }

    /// Writes a key pair as a new row of `keys`.
    pub fn put_keypair(&mut self, pubkey: Vec<u8>, privkey: Vec<u8>) -> (res: Result<(), Error>)
        requires
            old(self).wf(),
        ensures
            final(self).wf(),
            final(self).secrets() == old(self).secrets(),
            final(self).notes() == old(self).notes(),
            final(self).written() == old(self).written(),
            final(self).rows().cashier() == old(self).rows().cashier(),
            final(self).rows().coins() == old(self).rows().coins(),
            res is Ok <==> old(self).rows().keys().len() < u64::MAX,
            res matches Err(e) ==> e == Error::StorageError
                && final(self).rows().keys() == old(self).rows().keys(),
            res is Ok ==> final(self).rows().keys() == old(self).rows().keys().push(
                KeyRowView {
                    key_id: (old(self).rows().keys().len() + 1) as u64,
                    key_private: privkey@,
                    key_public: pubkey@,
                },
            ),
    {
        match self.rows.insert_key(pubkey, privkey) {
            Ok(_) => Ok(()),
            Err(e) => Err(e),
        }
    }

    /// Writes a bridge key as a new row of `cashier`.
    pub fn put_cashier_pub(&mut self, pubkey: Vec<u8>) -> (res: Result<(), Error>)
        requires
            old(self).wf(),
        ensures
            final(self).wf(),
            final(self).secrets() == old(self).secrets(),
            final(self).notes() == old(self).notes(),
            final(self).written() == old(self).written(),
            final(self).rows().keys() == old(self).rows().keys(),
            final(self).rows().coins() == old(self).rows().coins(),
            res is Ok <==> old(self).rows().cashier().len() < u64::MAX,
            res matches Err(e) ==> e == Error::StorageError && final(self).rows().cashier()
                == old(self).rows().cashier(),
            res is Ok ==> final(self).rows().cashier() == old(self).rows().cashier().push(
                CashierRowView {
                    key_id: (old(self).rows().cashier().len() + 1) as u64,
                    key_public: pubkey@,
                },
            ),
    {
        match self.rows.insert_cashier_key(pubkey) {
            Ok(_) => Ok(()),
            Err(e) => Err(e),
        }
    }

    /// Every public key written, in the order of writing. Fails where a
    /// row holds something that is not a public key.
    pub fn get_public(&self) -> (res: Result<Vec<PublicKey>, Error>)
        ensures
            match listed::<PublicKey>(public_column(self.rows().keys())) {
                Some(keys) => res matches Ok(decoded) && decoded@.len() == keys.len()
                    && forall|i: int|
                    0 <= i < keys.len() ==> (#[trigger] decoded@[i])@ == keys[i],
                None => res matches Err(e) && e == Error::DecodeError,
            },
    {
        let column: Vec<Vec<u8>> = self.rows.select_all_public_keys();
        decode_all::<PublicKey>(&column)
    }

    /// Every spending key written, in the order of writing. Fails where a
    /// row holds something that is not a canonical scalar.
    pub fn get_private(&self) -> (res: Result<Vec<SpendingKey>, Error>)
        ensures
            match listed::<SpendingKey>(private_column(self.rows().keys())) {
                Some(keys) => res matches Ok(decoded) && decoded@.len() == keys.len()
                    && forall|i: int|
                    0 <= i < keys.len() ==> (#[trigger] decoded@[i])@ == keys[i],
                None => res matches Err(e) && e == Error::DecodeError,
            },
    {
        let column: Vec<Vec<u8>> = self.rows.select_all_private_keys();
        decode_all::<SpendingKey>(&column)
    }

    /// The registry of every bridge key written, in the order of writing.
    /// Fails where a row holds something that is not a public key.
    pub fn get_cashier_public(&self) -> (res: Result<CashierKeyRegistry, Error>)
        ensures
            match listed::<PublicKey>(cashier_column(self.rows().cashier())) {
                Some(keys) => res matches Ok(registry) && registry@ == keys,
                None => res matches Err(e) && e == Error::DecodeError,
            },
    {
        let column: Vec<Vec<u8>> = self.rows.select_all_cashier_keys();
        CashierKeyRegistry::from_column(&column)
    }

    /// The encoding of a value.
    pub fn get_value_serialized<T: Encodable>(&self, data: &T) -> (bytes: Vec<u8>)
        ensures
            bytes@ == data.encoding(),
    {
        serialize(data)
    }

    /// The value that the bytes encode.
    pub fn get_value_deserialized<D: Decodable>(&self, key: Vec<u8>) -> (res: Result<D, Error>)
        ensures
            match decoding::<D>(key@) {
                Some(value) => res matches Ok(v) && v@ == value && v.valid(),
                None => res matches Err(e) && e == Error::DecodeError,
            },
    {
        deserialize::<D>(key.as_slice())
    }

    /// Records a note received for the wallet's first spending key. See
    /// `NoteStore::record`.
    pub fn record(&mut self, note: Note, derived_coin: Coin) -> (res: Result<usize, Error>)
        requires
            old(self).wf(),
        ensures
            final(self).wf(),
            final(self).keeps_rows_of(old(self)),
            res is Ok <==> note@.commitment() == derived_coin@ && !old(self).notes().full(),
            res matches Ok(index) ==> index == old(self).notes().entries().len()
                && final(self).notes().recorded(
                &old(self).notes(),
                note,
                derived_coin,
                old(self).first_key(),
            ),
            res matches Err(e) ==> final(self).notes().same_as(&old(self).notes()) && e == (
            if note@.commitment() != derived_coin@ {
                Error::CommitmentMismatch
            } else {
                Error::TreeFull
            }),
    {
        let owner: SpendingKey = self.secrets[0];
        self.notes.record(note, derived_coin, owner)
    }

    /// Takes in a leaf that the ledger admitted to the commitment tree.
    /// See `NoteStore::observe_append`.
    pub fn observe_append(&mut self, new_leaf: [u8; 32]) -> (res: Result<(), Error>)
        requires
            old(self).wf(),
        ensures
            final(self).wf(),
            final(self).keeps_rows_of(old(self)),
            res is Ok <==> !old(self).notes().full(),
            res matches Err(e) ==> e == Error::TreeFull && final(self).notes().same_as(
                &old(self).notes(),
            ),
            res is Ok ==> final(self).notes().took_in(&old(self).notes(), new_leaf@)
                && final(self).notes().entries().len() == old(self).notes().entries().len(),
    {
        self.notes.observe_append(new_leaf)
    }

    /// The entries to spend for `target_value`. See
    /// `NoteStore::select_spendable`.
    pub fn select_spendable(&self, target_value: u64) -> (res: Result<Vec<usize>, Error>)
        ensures
            is_selection(self.notes().entries(), target_value as int, res),
            res matches Ok(chosen) ==> covers(
                self.notes().entries(),
                target_value as int,
                chosen@,
            ),
    {
        self.notes.select_spendable(target_value)
    }

    /// Retires the entry at `index`. See `NoteStore::mark_spent`.
    pub fn mark_spent(&mut self, index: usize, nullifier: Nullifier) -> (retired: bool)
        requires
            old(self).wf(),
        ensures
            final(self).wf(),
            final(self).keeps_rows_of(old(self)),
            retired == (index < old(self).notes().entries().len()
                && !old(self).notes().entries()[index as int].retired()),
            !retired ==> final(self).notes().same_as(&old(self).notes()),
            retired ==> final(self).notes().retired_at(
                &old(self).notes(),
                index as int,
                nullifier,
            ),
    {
        self.notes.mark_spent(index, nullifier)
    }

    /// The tracked entry at `index`, or nothing past the last.
    pub fn own_coin(&self, index: usize) -> (entry: Option<&OwnedCoinEntry>)
        ensures
            entry is Some <==> index < self.notes().entries().len(),
            entry matches Some(e) ==> *e == self.notes().entries()[index as int],
    {
        self.notes.entry(index)
    }

    /// The number of tracked entries.
    pub fn own_coin_count(&self) -> (count: usize)
        ensures
            count == self.notes().entries().len(),
    {
        self.notes.len()
    }

    /// The row of `coins` at `index`, or nothing past the last.
    pub fn coin_row(&self, index: usize) -> (row: Option<&CoinRow>)
        ensures
            row is Some <==> index < self.rows().coins().len(),
            row matches Some(r) ==> r@ == self.rows().coins()[index as int],
    {
        self.rows.coin_row(index)
    }

    /// Whether the path of the entry at `index` leads from its coin to
    /// the root of the commitment tree.
    pub fn own_coin_verifies(&self, index: usize) -> (valid: bool)
        requires
            self.wf(),
        ensures
            valid == (index < self.notes().entries().len()),
    {
        self.notes.entry_verifies(index)
    }

    /// The root of the commitment tree as it stands.
    pub fn root(&self) -> (root: [u8; 32])
        requires
            self.wf(),
        ensures
            root@ == crate::tree_model::tree_root(self.notes().leaves(), self.notes().depth()),
    {
        self.notes.root()
    }

    /// The entry that the coin row at `index` stands for, owned by the key
    /// of the key row that the coin row names and addressed to that key.
    pub fn stored_coin(&self, index: usize) -> (res: Result<OwnedCoinEntry, Error>)
        requires
            self.wf(),
        ensures
            match stored_entry(self.rows().coins(), self.rows().keys(), index as int) {
                Ok(view) => res matches Ok(entry) && entry@ == view,
                Err(kind) => res matches Err(e) && e == kind,
            },
    {
        let row: &CoinRow = match self.rows.coin_row(index) {
            Some(row) => row,
            None => {
                return Err(Error::StorageError);
            },
        };
        let key = match self.rows.key_row(row.key_id) {
            Some(key) => key,
            None => {
                return Err(Error::StorageError);
            },
        };
        let secret: SpendingKey = match deserialize::<SpendingKey>(key.key_private.as_slice()) {
            Ok(secret) => secret,
            Err(e) => {
                return Err(e);
            },
        };
        let public: PublicKey = match deserialize::<PublicKey>(key.key_public.as_slice()) {
            Ok(public) => public,
            Err(e) => {
                return Err(e);
            },
        };
        entry_from_row(row, secret, public)
    }

    /// Writes the coin row of the oldest tracked entry that has none yet,
    /// under the id of the key row that holds the entry's spending key.
    /// Where every entry has its row, nothing is written; where no key row
    /// holds the spending key, the write is refused.
    pub fn put_own_coins(&mut self) -> (res: Result<(), Error>)
        requires
            old(self).wf(),
        ensures
            final(self).wf(),
            final(self).secrets() == old(self).secrets(),
            final(self).notes() == old(self).notes(),
            final(self).rows().keys() == old(self).rows().keys(),
            final(self).rows().cashier() == old(self).rows().cashier(),
            old(self).written() == old(self).notes().entries().len() ==> res is Ok
                && final(self).rows().coins() == old(self).rows().coins()
                && final(self).written() == old(self).written(),
            old(self).written() < old(self).notes().entries().len() ==> {
                let entry = old(self).notes().entries()[old(self).written() as int];
                match owner_id(old(self).rows().keys(), entry.secret@, 0) {
                    Some(key_id) => {
                        &&& res is Ok
                        &&& final(self).rows().coins() == old(self).rows().coins().push(
                            coin_row_of(entry, key_id),
                        )
                        &&& final(self).written() == old(self).written() + 1
                    },
                    None => {
                        &&& res matches Err(e) && e == Error::StorageError
                        &&& final(self).rows().coins() == old(self).rows().coins()
                        &&& final(self).written() == old(self).written()
                    },
                }
            },
    {
        let entry: &OwnedCoinEntry = match self.notes.entry(self.written) {
            Some(entry) => entry,
            None => {
                return Ok(());
            },
        };
        let secret: Vec<u8> = serialize(&entry.secret);
        let key_id: u64 = match self.rows.find_owner(secret.as_slice()) {
            Some(key_id) => key_id,
            None => {
                return Err(Error::StorageError);
            },
        };
        let row = CoinRow {
            coin: serialize(&entry.coin),
            serial: serialize(&entry.note.serial),
            value: serialize(&entry.note.value),
            coin_blind: serialize(&entry.note.coin_blind),
            valcom_blind: serialize(&entry.note.valcom_blind),
            witness: serialize(&entry.witness),
            key_id,
        };
        assert(row@ == coin_row_of(*entry, key_id));
        let held: usize = self.notes.len();
        match self.rows.insert_coin(row) {
            Ok(()) => {
                self.written = self.written + 1;
                Ok(())
            },
            Err(e) => Err(e),
        }
    }
}

/// Public keys are listed in the order in which their pairs were written:
/// after two pairs are written the list is what it was, then the first
/// public key, then the second.
pub proof fn law_public_keys_in_call_order(
    rows: Seq<KeyRowView>,
    first: KeyRowView,
    second: KeyRowView,
    first_public: PublicKey,
    second_public: PublicKey,
)
    requires
        listed::<PublicKey>(public_column(rows)) is Some,
        first.key_public == first_public.encoding(),
        second.key_public == second_public.encoding(),
    ensures
        listed::<PublicKey>(public_column(rows.push(first).push(second))) == Some(
            listed::<PublicKey>(public_column(rows)).unwrap().push(first_public@).push(
                second_public@,
            ),
        ),
        rows.len() == 0 ==> listed::<PublicKey>(public_column(rows.push(first).push(second)))
            == Some(seq![first_public@, second_public@]),
{
    law_keys_listed_in_call_order::<PublicKey>(public_column(rows), first_public, second_public);
    assert(public_column(rows.push(first).push(second)) =~= public_column(rows).push(
        first_public.encoding(),
    ).push(second_public.encoding()));
    if rows.len() == 0 {
        assert(listed::<PublicKey>(public_column(rows)).unwrap() =~= Seq::<Seq<u8>>::empty());
        assert(Seq::<Seq<u8>>::empty().push(first_public@).push(second_public@) =~= seq![
            first_public@,
            second_public@,
        ]);
    }
}

} // verus!
