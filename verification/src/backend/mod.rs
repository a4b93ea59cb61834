//! The storage engine: one table from key to value, shared by every
//! connection. Each clone of a [`Storage`] works on the same table.
use crate::cmd::{Command, CommandExecutor, CommandView};
use crate::resp::{Key, Resp, RespView};
use dashmap::DashMap;
use std::sync::Arc;
use vstd::prelude::*;

verus! {

/// `dashmap::DashMap`, a map that many holders can read and change at the
/// same time, taken as it is: nothing is known of what it holds.
#[verifier::external_type_specification]
#[verifier::external_body]
#[verifier::reject_recursive_types(K)]
#[verifier::reject_recursive_types(V)]
#[verifier::reject_recursive_types(S)]
pub struct ExDashMap<K, V, S>(DashMap<K, V, S>);

/// `DashMap::new`: a table without entries.
#[verifier::external_body]
fn table_new() -> DashMap<Key, Resp> {
    DashMap::new()
}

/// `DashMap::get`: a copy of the value that the table holds for `key` at
/// the moment of the call. Other holders of the table may change it at any
/// time, so nothing is known of what is found.
#[verifier::external_body]
fn table_get(table: &DashMap<Key, Resp>, key: &Key) -> Option<Resp> {
    table.get(key).map(|entry| entry.value().clone())
}

/// `DashMap::insert`: binds `key` to `value` in the table, in place of
/// what `key` was bound to.
#[verifier::external_body]
fn table_insert(table: &DashMap<Key, Resp>, key: Key, value: Resp) {
    table.insert(key, value);
}

/// A handle on the shared table.
pub struct Storage {
    storage: Arc<DashMap<Key, Resp>>,
}

impl Clone for Storage {
    /// Another handle on the same table.
    fn clone(&self) -> (r: Self) {
        Storage { storage: self.storage.clone() }
    }
}

impl Default for Storage {
    fn default() -> (r: Self) {
        Storage::new()
    }
}

impl CommandExecutor for Storage {
    /// Only a lookup is answered. What it finds is what the table holds at
    /// that moment, which any holder of the table may have put there.
    open spec fn answers(&self, cmd: CommandView, answer: Option<RespView>) -> bool {
        cmd is Get || answer is None
    }

    /// Runs a lookup or a binding on the table. Only a lookup is answered,
    /// with a copy of what the table holds for the key.
    fn execute(&self, cmd: Command) -> (r: Option<Resp>) {
        match cmd {
            Command::Get(get) => self.get(&get.key),
            Command::SetCmd(set) => {
                self.set(set.key, set.value);
                None
            },
            _ => None,
        }
    }
}

impl Storage {
    /// A handle on a new table without entries.
    pub fn new() -> (r: Self) {
        Storage { storage: Arc::new(table_new()) }
    }

    fn get(&self, key: &Key) -> Option<Resp> {
        table_get(&self.storage, key)
    }

    fn set(&self, key: Key, value: Resp) {
        table_insert(&self.storage, key, value);
    }
}

} // verus!
