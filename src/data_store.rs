//! The data store: one store shared by every table.
use crate::origin_keys::{OriginKeysTable, OriginSecretKeysTable};
use crate::origins::OriginsTable;
use crate::packages::PackagesTable;
use crate::store::{MemStore, StoreModel};
use crate::views::ViewsTable;
use vstd::prelude::*;

verus! {

/// The tables, and the store they share. Each table operation takes the
/// store as an argument, so that no table owns it.
pub struct DataStore {
    pub store: MemStore,
    pub packages: PackagesTable,
    pub views: ViewsTable,
    pub origins: OriginsTable,
    pub origin_keys: OriginKeysTable,
    pub origin_secret_keys: OriginSecretKeysTable,
}

impl DataStore {
    /// A data store over an empty store.
    pub fn open() -> (r: DataStore)
        ensures
            r.store@ == StoreModel::empty(),
    {
        DataStore {
            store: MemStore::new(),
            packages: PackagesTable::new(),
            views: ViewsTable::new(),
            origins: OriginsTable::new(),
            origin_keys: OriginKeysTable::new(),
            origin_secret_keys: OriginSecretKeysTable::new(),
        }
    }

    /// Removes every key of every table.
    pub fn clear(&mut self)
        ensures
            final(self).store@ == StoreModel::empty(),
    {
        self.store.clear();
    }

    /// The number of keys at which something is stored.
    pub fn key_count(&self) -> (r: usize)
        ensures
            r == self.store@.live_keys().len(),
    {
        self.store.key_count()
    }
}

} // verus!
