//! The wallet's image of its three relations: keys, bridge keys and
//! coins. Rows are only ever appended; whoever keeps the durable copy
//! mirrors each appended row.

use crate::codec::{decoding, deserialize, put_bytes, Decodable};
use crate::error::Error;
use vstd::prelude::*;

verus! {

/// A row of the relation `keys`.
pub struct KeyRow {
    pub key_id: u64,
    pub key_private: Vec<u8>,
    pub key_public: Vec<u8>,
}

/// A row of the relation `cashier`.
pub struct CashierRow {
    pub key_id: u64,
    pub key_public: Vec<u8>,
}

/// A row of the relation `coins`.
pub struct CoinRow {
    pub coin: Vec<u8>,
    pub serial: Vec<u8>,
    pub value: Vec<u8>,
    pub coin_blind: Vec<u8>,
    pub valcom_blind: Vec<u8>,
    pub witness: Vec<u8>,
    pub key_id: u64,
}

/// What a row of `keys` holds.
pub ghost struct KeyRowView {
    pub key_id: u64,
    pub key_private: Seq<u8>,
    pub key_public: Seq<u8>,
}

/// What a row of `cashier` holds.
pub ghost struct CashierRowView {
    pub key_id: u64,
    pub key_public: Seq<u8>,
}

/// What a row of `coins` holds.
pub ghost struct CoinRowView {
    pub coin: Seq<u8>,
    pub serial: Seq<u8>,
    pub value: Seq<u8>,
    pub coin_blind: Seq<u8>,
    pub valcom_blind: Seq<u8>,
    pub witness: Seq<u8>,
    pub key_id: u64,
}

impl View for KeyRow {
    type V = KeyRowView;

    open spec fn view(&self) -> KeyRowView {
        KeyRowView {
            key_id: self.key_id,
            key_private: self.key_private@,
            key_public: self.key_public@,
        }
    }
}

impl View for CashierRow {
    type V = CashierRowView;

    open spec fn view(&self) -> CashierRowView {
        CashierRowView { key_id: self.key_id, key_public: self.key_public@ }
    }
}

impl View for CoinRow {
    type V = CoinRowView;

    open spec fn view(&self) -> CoinRowView {
        CoinRowView {
            coin: self.coin@,
            serial: self.serial@,
            value: self.value@,
            coin_blind: self.coin_blind@,
            valcom_blind: self.valcom_blind@,
            witness: self.witness@,
            key_id: self.key_id,
        }
    }
}

/// Whether two byte strings are the same.
pub fn same_bytes(a: &[u8], b: &[u8]) -> (same: bool)
    ensures
        same == (a@ == b@),
{
    if a.len() != b.len() {
        return false;
    }
    let mut i: usize = 0;
    while i < a.len()
        invariant
            i <= a@.len(),
            a@.len() == b@.len(),
            forall|k: int| 0 <= k < i ==> a@[k] == b@[k],
        decreases a@.len() - i,
    {
        if a[i] != b[i] {
            return false;
        }
        i = i + 1;
    }
    assert(a@ =~= b@);
    true
}

/// A copy of a byte string.
pub fn copy_bytes(bytes: &[u8]) -> (copy: Vec<u8>)
    ensures
        copy@ == bytes@,
{
    let mut copy: Vec<u8> = Vec::new();
    put_bytes(&mut copy, bytes);
    assert(copy@ =~= bytes@);
    copy
}

/// The column `key_public` of the key rows.
pub open spec fn public_column(rows: Seq<KeyRowView>) -> Seq<Seq<u8>> {
    Seq::new(rows.len(), |i: int| rows[i].key_public)
}

/// The column `key_private` of the key rows.
pub open spec fn private_column(rows: Seq<KeyRowView>) -> Seq<Seq<u8>> {
    Seq::new(rows.len(), |i: int| rows[i].key_private)
}

/// The column `key_public` of the bridge-key rows.
pub open spec fn cashier_column(rows: Seq<CashierRowView>) -> Seq<Seq<u8>> {
    Seq::new(rows.len(), |i: int| rows[i].key_public)
}

/// The id of the first key row from `from` on that holds `key_private`.
pub open spec fn owner_id(rows: Seq<KeyRowView>, key_private: Seq<u8>, from: int) -> Option<u64>
    decreases rows.len() - from,
{
    if from < 0 || from >= rows.len() {
        None
    } else if rows[from].key_private == key_private {
        Some(rows[from].key_id)
    } else {
        owner_id(rows, key_private, from + 1)
    }
}

/// The values that a column of encodings stands for: none where a cell is
/// not the encoding of a value.
pub open spec fn listed<T: Decodable>(column: Seq<Seq<u8>>) -> Option<Seq<T::V>> {
    if forall|i: int| 0 <= i < column.len() ==> decoding::<T>(#[trigger] column[i]) is Some {
        Some(Seq::new(column.len(), |i: int| decoding::<T>(column[i]).unwrap()))
    } else {
        None
    }
}

/// Decodes every cell of a column, in order.
pub fn decode_all<T: Decodable>(column: &Vec<Vec<u8>>) -> (res: Result<Vec<T>, Error>)
    ensures
        match listed::<T>(Seq::new(column@.len(), |i: int| column@[i]@)) {
            Some(values) => res matches Ok(decoded) && decoded@.len() == values.len()
                && forall|i: int|
                0 <= i < values.len() ==> (#[trigger] decoded@[i])@ == values[i],
            None => res matches Err(e) && e == Error::DecodeError,
        },
{
    let ghost cells = Seq::new(column@.len(), |i: int| column@[i]@);
    let mut decoded: Vec<T> = Vec::new();
    let mut i: usize = 0;
    while i < column.len()
        invariant
            i <= column@.len(),
            cells == Seq::new(column@.len(), |i: int| column@[i]@),
            decoded@.len() == i,
            forall|k: int| 0 <= k < i ==> decoding::<T>(#[trigger] cells[k]) is Some,
            forall|k: int|
                0 <= k < i ==> (#[trigger] decoded@[k])@ == decoding::<T>(cells[k]).unwrap(),
        decreases column@.len() - i,
    {
        assert(cells[i as int] == column@[i as int]@);
        match deserialize::<T>(column[i].as_slice()) {
            Ok(value) => {
                decoded.push(value);
            },
            Err(e) => {
                return Err(Error::DecodeError);
            },
        }
        i = i + 1;
    }
    Ok(decoded)
}

/// The three relations.
pub struct RowStore {
    keys: Vec<KeyRow>,
    cashier: Vec<CashierRow>,
    coins: Vec<CoinRow>,
}

impl RowStore {
    /// The rows of `keys`, oldest first.
    pub closed spec fn keys(&self) -> Seq<KeyRowView> {
        Seq::new(self.keys@.len(), |i: int| self.keys@[i]@)
    }

    /// The rows of `cashier`, oldest first.
    pub closed spec fn cashier(&self) -> Seq<CashierRowView> {
        Seq::new(self.cashier@.len(), |i: int| self.cashier@[i]@)
    }

    /// The rows of `coins`, oldest first.
    pub closed spec fn coins(&self) -> Seq<CoinRowView> {
        Seq::new(self.coins@.len(), |i: int| self.coins@[i]@)
    }

    /// Key ids count up from one in the order of insertion.
    pub open spec fn wf(&self) -> bool {
        &&& forall|i: int|
            0 <= i < self.keys().len() ==> (#[trigger] self.keys()[i]).key_id == i + 1
        &&& forall|i: int|
            0 <= i < self.cashier().len() ==> (#[trigger] self.cashier()[i]).key_id == i + 1
    }

    /// Three relations without rows.
    pub fn new() -> (store: RowStore)
        ensures
            store.wf(),
            store.keys() == Seq::<KeyRowView>::empty(),
            store.cashier() == Seq::<CashierRowView>::empty(),
            store.coins() == Seq::<CoinRowView>::empty(),
    {
        let store = RowStore { keys: Vec::new(), cashier: Vec::new(), coins: Vec::new() };
        assert(store.keys() =~= Seq::<KeyRowView>::empty());
        assert(store.cashier() =~= Seq::<CashierRowView>::empty());
        assert(store.coins() =~= Seq::<CoinRowView>::empty());
        store
    }

    /// The store that is there, or a new one where none is: opening what
    /// was opened before changes nothing.
    pub fn open_or_create(existing: Option<RowStore>) -> (store: RowStore)
        ensures
            existing matches Some(found) ==> store == found,
            existing is None ==> store.wf() && store.keys() == Seq::<KeyRowView>::empty()
                && store.cashier() == Seq::<CashierRowView>::empty() && store.coins()
                == Seq::<CoinRowView>::empty(),
    {
        match existing {
            Some(found) => found,
            None => RowStore::new(),
        }
    }

    /// Appends a row to `keys` and gives the id it was assigned. Fails
    /// where the ids are used up.
    pub fn insert_key(&mut self, key_public: Vec<u8>, key_private: Vec<u8>) -> (res: Result<
        u64,
        Error,
    >)
        requires
            old(self).wf(),
        ensures
            final(self).wf(),
            final(self).cashier() == old(self).cashier(),
            final(self).coins() == old(self).coins(),
            res is Ok <==> old(self).keys().len() < u64::MAX,
            res matches Err(e) ==> e == Error::StorageError
                && final(self).keys() == old(self).keys(),
            res matches Ok(key_id) ==> key_id == old(self).keys().len() + 1 && final(self).keys()
                == old(self).keys().push(
                KeyRowView { key_id, key_private: key_private@, key_public: key_public@ },
            ),
    {
        if self.keys.len() as u64 == u64::MAX {
            return Err(Error::StorageError);
        }
        let key_id: u64 = self.keys.len() as u64 + 1;
        self.keys.push(KeyRow { key_id, key_private, key_public });
        proof {
            assert(self.keys() =~= old(self).keys().push(
                KeyRowView { key_id, key_private: key_private@, key_public: key_public@ },
            ));
            assert(self.cashier() =~= old(self).cashier());
            assert(self.coins() =~= old(self).coins());
        }
        Ok(key_id)
    }

    /// Appends a row to `cashier` and gives the id it was assigned. Fails
    /// where the ids are used up.
    pub fn insert_cashier_key(&mut self, key_public: Vec<u8>) -> (res: Result<u64, Error>)
        requires
            old(self).wf(),
        ensures
            final(self).wf(),
            final(self).keys() == old(self).keys(),
            final(self).coins() == old(self).coins(),
            res is Ok <==> old(self).cashier().len() < u64::MAX,
            res matches Err(e) ==> e == Error::StorageError
                && final(self).cashier() == old(self).cashier(),
            res matches Ok(key_id) ==> key_id == old(self).cashier().len() + 1
                && final(self).cashier() == old(self).cashier().push(
                CashierRowView { key_id, key_public: key_public@ },
            ),
    {
        if self.cashier.len() as u64 == u64::MAX {
            return Err(Error::StorageError);
        }
        let key_id: u64 = self.cashier.len() as u64 + 1;
        self.cashier.push(CashierRow { key_id, key_public });
        proof {
            assert(self.cashier() =~= old(self).cashier().push(
                CashierRowView { key_id, key_public: key_public@ },
            ));
            assert(self.keys() =~= old(self).keys());
            assert(self.coins() =~= old(self).coins());
        }
        Ok(key_id)
    }

    /// Appends a row to `coins`. The row must name a key that `keys`
    /// holds; one that does not is refused.
    pub fn insert_coin(&mut self, row: CoinRow) -> (res: Result<(), Error>)
        requires
            old(self).wf(),
        ensures
            final(self).wf(),
            final(self).keys() == old(self).keys(),
            final(self).cashier() == old(self).cashier(),
            res is Ok <==> 1 <= row.key_id <= old(self).keys().len(),
            res matches Err(e) ==> e == Error::StorageError
                && final(self).coins() == old(self).coins(),
            res is Ok ==> final(self).coins() == old(self).coins().push(row@),
    {
        if row.key_id < 1 || row.key_id > self.keys.len() as u64 {
            return Err(Error::StorageError);
        }
        self.coins.push(row);
        proof {
            assert(self.coins() =~= old(self).coins().push(row@));
            assert(self.keys() =~= old(self).keys());
            assert(self.cashier() =~= old(self).cashier());
        }
        Ok(())
    }

    /// The column `key_public` of `keys`, in the order of insertion.
    pub fn select_all_public_keys(&self) -> (column: Vec<Vec<u8>>)
        ensures
            Seq::new(column@.len(), |i: int| column@[i]@) == public_column(self.keys()),
    {
        let mut column: Vec<Vec<u8>> = Vec::new();
        let mut i: usize = 0;
        while i < self.keys.len()
            invariant
                i <= self.keys@.len(),
                column@.len() == i,
                forall|k: int| 0 <= k < i ==> (#[trigger] column@[k])@ == self.keys@[k].key_public@,
            decreases self.keys@.len() - i,
        {
            column.push(copy_bytes(self.keys[i].key_public.as_slice()));
            i = i + 1;
        }
        assert(Seq::new(column@.len(), |i: int| column@[i]@) =~= public_column(self.keys()));
        column
    }

    /// The column `key_private` of `keys`, in the order of insertion.
    pub fn select_all_private_keys(&self) -> (column: Vec<Vec<u8>>)
        ensures
            Seq::new(column@.len(), |i: int| column@[i]@) == private_column(self.keys()),
    {
        let mut column: Vec<Vec<u8>> = Vec::new();
        let mut i: usize = 0;
        while i < self.keys.len()
            invariant
                i <= self.keys@.len(),
                column@.len() == i,
                forall|k: int|
                    0 <= k < i ==> (#[trigger] column@[k])@ == self.keys@[k].key_private@,
            decreases self.keys@.len() - i,
        {
            column.push(copy_bytes(self.keys[i].key_private.as_slice()));
            i = i + 1;
        }
        assert(Seq::new(column@.len(), |i: int| column@[i]@) =~= private_column(self.keys()));
        column
    }

    /// The column `key_public` of `cashier`, in the order of insertion.
    pub fn select_all_cashier_keys(&self) -> (column: Vec<Vec<u8>>)
        ensures
            Seq::new(column@.len(), |i: int| column@[i]@) == cashier_column(self.cashier()),
    {
        let mut column: Vec<Vec<u8>> = Vec::new();
        let mut i: usize = 0;
        while i < self.cashier.len()
            invariant
                i <= self.cashier@.len(),
                column@.len() == i,
                forall|k: int|
                    0 <= k < i ==> (#[trigger] column@[k])@ == self.cashier@[k].key_public@,
            decreases self.cashier@.len() - i,
        {
            column.push(copy_bytes(self.cashier[i].key_public.as_slice()));
            i = i + 1;
        }
        assert(Seq::new(column@.len(), |i: int| column@[i]@) =~= cashier_column(self.cashier()));
        column
    }

    /// The number of rows in `coins`.
    pub fn coin_count(&self) -> (count: usize)
        ensures
            count == self.coins().len(),
    {
        self.coins.len()
    }

    /// The row of `coins` at `index`, or nothing past the last.
    pub fn coin_row(&self, index: usize) -> (row: Option<&CoinRow>)
        ensures
            row is Some <==> index < self.coins().len(),
            row matches Some(r) ==> r@ == self.coins()[index as int],
    {
        if index < self.coins.len() {
            Some(&self.coins[index])
        } else {
            None
        }
    }

    /// The row of `keys` with the given id, or nothing where no row has
    /// it.
    pub fn key_row(&self, key_id: u64) -> (row: Option<&KeyRow>)
        requires
            self.wf(),
        ensures
            row is Some <==> 1 <= key_id <= self.keys().len(),
            row matches Some(r) ==> r@ == self.keys()[key_id - 1] && r.key_id == key_id,
    {
        if key_id >= 1 && key_id <= self.keys.len() as u64 {
            let row: &KeyRow = &self.keys[(key_id - 1) as usize];
            assert(row@ == self.keys()[key_id - 1]);
            Some(row)
        } else {
            None
        }
    }

    /// The id of the oldest key row that holds `key_private`.
    pub fn find_owner(&self, key_private: &[u8]) -> (found: Option<u64>)
        requires
            self.wf(),
        ensures
            found == owner_id(self.keys(), key_private@, 0),
            found matches Some(key_id) ==> 1 <= key_id <= self.keys().len(),
    {
        let mut i: usize = 0;
        while i < self.keys.len()
            invariant
                self.wf(),
                i <= self.keys@.len(),
                owner_id(self.keys(), key_private@, 0) == owner_id(
                    self.keys(),
                    key_private@,
                    i as int,
                ),
            decreases self.keys@.len() - i,
        {
            assert(self.keys()[i as int] == self.keys@[i as int]@);
            if same_bytes(self.keys[i].key_private.as_slice(), key_private) {
                return Some(self.keys[i].key_id);
            }
            i = i + 1;
        }
        None
    }
}

/// Keys are listed in the order in which they were inserted: after two
/// inserts the list is what it was, then the first key, then the second.
pub proof fn law_keys_listed_in_call_order<T: Decodable>(
    column: Seq<Seq<u8>>,
    first: T,
    second: T,
)
    requires
        listed::<T>(column) is Some,
        first.valid(),
        second.valid(),
    ensures
        listed::<T>(column.push(first.encoding()).push(second.encoding())) == Some(
            listed::<T>(column).unwrap().push(first@).push(second@),
        ),
{
    let longer = column.push(first.encoding()).push(second.encoding());
    crate::codec::law_round_trip(first);
    crate::codec::law_round_trip(second);
    assert forall|i: int| 0 <= i < longer.len() implies decoding::<T>(#[trigger] longer[i])
        is Some by {
        if i < column.len() {
            assert(longer[i] == column[i]);
        }
    }
    assert(listed::<T>(longer).unwrap() =~= listed::<T>(column).unwrap().push(first@).push(
        second@,
    ));
}

} // verus!
