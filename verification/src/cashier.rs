//! The public keys that the bridge has announced. Keys are only ever
//! added, and a key may be added twice.

use crate::error::Error;
use crate::keys::PublicKey;
use crate::store::{decode_all, listed};
use vstd::prelude::*;

verus! {

/// The append-only list of trusted bridge keys.
pub struct CashierKeyRegistry {
    keys: Vec<PublicKey>,
}

impl View for CashierKeyRegistry {
    type V = Seq<Seq<u8>>;

    /// The registered keys as point encodings, in the order in which they
    /// were registered.
    closed spec fn view(&self) -> Seq<Seq<u8>> {
        Seq::new(self.keys@.len(), |i: int| self.keys@[i]@)
    }
}

impl CashierKeyRegistry {
    /// A registry without keys.
    pub fn new() -> (registry: CashierKeyRegistry)
        ensures
            registry@ == Seq::<Seq<u8>>::empty(),
    {
        let registry = CashierKeyRegistry { keys: Vec::new() };
        assert(registry@ =~= Seq::<Seq<u8>>::empty());
        registry
    }

    /// The registry that a column of encoded keys stands for, in the
    /// column's order. Fails where a cell is not a public key.
    pub fn from_column(column: &Vec<Vec<u8>>) -> (res: Result<CashierKeyRegistry, Error>)
        ensures
            match listed::<PublicKey>(Seq::new(column@.len(), |i: int| column@[i]@)) {
                Some(keys) => res matches Ok(registry) && registry@ == keys,
                None => res matches Err(e) && e == Error::DecodeError,
            },
    {
        match decode_all::<PublicKey>(column) {
            Ok(keys) => {
                let registry = CashierKeyRegistry { keys };
                assert(registry@ =~= listed::<PublicKey>(
                    Seq::new(column@.len(), |i: int| column@[i]@),
                ).unwrap());
                Ok(registry)
            },
            Err(e) => Err(e),
        }
    }

    /// Adds a key at the end, whether or not it is there already.
    pub fn register(&mut self, pubkey: PublicKey)
        ensures
            final(self)@ == old(self)@.push(pubkey@),
    {
        self.keys.push(pubkey);
        assert(self@ =~= old(self)@.push(pubkey@));
    }

    /// The number of registered keys, repeats counted.
    pub fn len(&self) -> (len: usize)
        ensures
            len == self@.len(),
    {
        self.keys.len()
    }

    /// Every registered key, in the order of registration.
    pub fn all(&self) -> (keys: Vec<PublicKey>)
        ensures
            keys@.len() == self@.len(),
            forall|i: int| 0 <= i < keys@.len() ==> (#[trigger] keys@[i])@ == self@[i],
    {
        let mut keys: Vec<PublicKey> = Vec::new();
        let mut i: usize = 0;
        while i < self.keys.len()
            invariant
                i <= self.keys@.len(),
                keys@.len() == i,
                forall|k: int| 0 <= k < i ==> (#[trigger] keys@[k])@ == self@[k],
            decreases self.keys@.len() - i,
        {
            keys.push(self.keys[i]);
            i = i + 1;
        }
        keys
    }

    /// Whether the key was registered at least once.
    pub fn contains(&self, pubkey: &PublicKey) -> (found: bool)
        ensures
            found == self@.contains(pubkey@),
    {
        let mut i: usize = 0;
        while i < self.keys.len()
            invariant
                i <= self.keys@.len(),
                forall|k: int| 0 <= k < i ==> self@[k] != pubkey@,
            decreases self.keys@.len() - i,
        {
            if self.keys[i].same(pubkey) {
                assert(self@[i as int] == pubkey@);
                return true;
            }
            i = i + 1;
        }
        false
    }
}

} // verus!
