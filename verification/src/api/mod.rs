//! The public key-value interface.
use vstd::prelude::*;

use crate::config::{BloomyConfig, DEFAULT_MEMTABLE_BYTES};
use crate::engine::lsm::LsmEngine;
use crate::storage::memtable::MemTable;
use crate::error::Error;
use crate::keys::is_ordered_scan;
use crate::types::{pairs_view, Key, KeyRange, KeyValue, Value};

verus! {

/// What a key-value store can do, whatever engine stores the data.
pub trait KeyValueStore {
    /// The well-formedness of the store.
    spec fn store_wf(&self) -> bool;

    /// The map from key to value that the store holds.
    spec fn contents(&self) -> Map<Seq<u8>, Seq<u8>>;

    /// Stores `value` under `key`; on failure nothing changes.
    fn put(&mut self, key: Key, value: Value) -> (r: Result<(), Error>)
        requires
            old(self).store_wf(),
        ensures
            final(self).store_wf(),
            r is Ok ==> final(self).contents() == old(self).contents().insert(key@, value@),
            r is Err ==> final(self).contents() == old(self).contents(),
    ;

    /// The value stored under `key`, if any.
    fn get(&self, key: &[u8]) -> (r: Result<Option<Value>, Error>)
        requires
            self.store_wf(),
        ensures
            r matches Ok(found) ==> match found {
                Some(v) => self.contents().contains_key(key@) && self.contents()[key@] == v@,
                None => !self.contents().contains_key(key@),
            },
    ;

    /// Removes the entry of `key`; on failure nothing changes.
    fn delete(&mut self, key: &[u8]) -> (r: Result<(), Error>)
        requires
            old(self).store_wf(),
        ensures
            final(self).store_wf(),
            r is Ok ==> final(self).contents() == old(self).contents().remove(key@),
            r is Err ==> final(self).contents() == old(self).contents(),
    ;

    /// The entries whose keys lie in `range`, in key order.
    fn scan(&self, range: KeyRange) -> (r: Result<Vec<KeyValue>, Error>)
        requires
            self.store_wf(),
        ensures
            r matches Ok(kvs) ==> is_ordered_scan(
                pairs_view(kvs@),
                self.contents(),
                range.start_view(),
                range.end_view(),
            ),
    ;
}

/// How to open a store: where its files live and how large its memtable
/// may grow.
#[derive(Debug, Clone, PartialEq, Eq)]
pub struct BloomyOptions {
    pub path: String,
    pub memtable_bytes: usize,
}

impl BloomyOptions {
    /// Options for a store at `path` with the default memtable size.
    pub fn new(path: String) -> (r: Self)
        ensures
            r.path == path,
            r.memtable_bytes == DEFAULT_MEMTABLE_BYTES,
    {
        BloomyOptions { path, memtable_bytes: DEFAULT_MEMTABLE_BYTES }
    }
}

impl From<BloomyConfig> for BloomyOptions {
    /// The options a configuration describes.
    fn from(config: BloomyConfig) -> (r: Self) {
        BloomyOptions { path: config.storage_path, memtable_bytes: config.memtable_bytes }
    }
}

impl vstd::std_specs::convert::FromSpecImpl<BloomyConfig> for BloomyOptions {
    open spec fn obeys_from_spec() -> bool {
        true
    }

    open spec fn from_spec(v: BloomyConfig) -> Self {
        BloomyOptions { path: v.storage_path, memtable_bytes: v.memtable_bytes }
    }
}

/// A key-value store.
pub struct Bloomy {
    engine: LsmEngine,
}

impl View for Bloomy {
    type V = Map<Seq<u8>, Seq<u8>>;

    /// The map from key to value that the store holds.
    closed spec fn view(&self) -> Map<Seq<u8>, Seq<u8>> {
        self.engine@
    }
}

impl Bloomy {
    /// The well-formedness of the store.
    pub closed spec fn wf(&self) -> bool {
        self.engine.wf()
    }

    /// A store over a memtable, such as the one recovered from the store's
    /// log when it is opened.
    pub fn from_memtable(m: MemTable) -> (r: Self)
        requires
            m.wf(),
        ensures
            r.wf(),
            r@ == m@,
    {
        Bloomy { engine: LsmEngine::from_memtable(m) }
    }

    /// Stores `value` under `key`.
    pub fn put(&mut self, key: Key, value: Value) -> (r: Result<(), Error>)
        requires
            old(self).wf(),
        ensures
            final(self).wf(),
            r is Ok,
            final(self)@ == old(self)@.insert(key@, value@),
    {
        self.engine.put(key, value)
    }

    /// The value stored under `key`, if any.
    pub fn get(&self, key: &[u8]) -> (r: Result<Option<Value>, Error>)
        requires
            self.wf(),
        ensures
            r matches Ok(found) && match found {
                Some(v) => self@.contains_key(key@) && self@[key@] == v@,
                None => !self@.contains_key(key@),
            },
    {
        self.engine.get(key)
    }

    /// Removes the entry of `key`.
    pub fn delete(&mut self, key: &[u8]) -> (r: Result<(), Error>)
        requires
            old(self).wf(),
        ensures
            final(self).wf(),
            r is Ok,
            final(self)@ == old(self)@.remove(key@),
    {
        self.engine.delete(key)
    }

    /// The entries whose keys lie in `range`, in key order.
    pub fn scan(&self, range: KeyRange) -> (r: Result<Vec<KeyValue>, Error>)
        requires
            self.wf(),
        ensures
            r matches Ok(kvs) && is_ordered_scan(
                pairs_view(kvs@),
                self@,
                range.start_view(),
                range.end_view(),
            ),
    {
        self.engine.scan(range)
    }

    /// Closes the store.
    pub fn close(self) -> (r: Result<(), Error>)
        ensures
            r is Ok,
    {
        Ok(())
    }
}

} // verus!
