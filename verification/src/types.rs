//! Keys, values, key ranges and key/value pairs of the public API.
use vstd::prelude::*;

use crate::keys::in_key_range;

verus! {

/// A stored key: an owned byte string.
pub type Key = Vec<u8>;

/// A stored value: an owned byte string.
pub type Value = Vec<u8>;

/// A range of keys for scans: `start` is inclusive and `end` exclusive;
/// an absent bound leaves that side open.
#[derive(Debug, Clone, Default, PartialEq, Eq)]
pub struct KeyRange {
    pub start: Option<Key>,
    pub end: Option<Key>,
}

/// A key together with its value.
#[derive(Debug, Clone, PartialEq, Eq)]
pub struct KeyValue {
    pub key: Key,
    pub value: Value,
}

/// An optional key, by its bytes.
pub open spec fn opt_key_view(k: Option<Key>) -> Option<Seq<u8>> {
    match k {
        Some(v) => Some(v@),
        None => None,
    }
}

/// A sequence of key/value pairs, by their bytes.
pub open spec fn pairs_view(kvs: Seq<KeyValue>) -> Seq<(Seq<u8>, Seq<u8>)> {
    kvs.map_values(|kv: KeyValue| (kv.key@, kv.value@))
}

/// Copies a byte string.
pub fn copy_bytes(b: &Vec<u8>) -> (r: Vec<u8>)
    ensures
        r@ == b@,
{
    let r = b.clone();
    assert(r@ =~= b@);
    r
}

impl KeyRange {
    /// The lower bound, by its bytes.
    pub open spec fn start_view(&self) -> Option<Seq<u8>> {
        opt_key_view(self.start)
    }

    /// The upper bound, by its bytes.
    pub open spec fn end_view(&self) -> Option<Seq<u8>> {
        opt_key_view(self.end)
    }

    /// Whether the range holds `k`.
    pub open spec fn holds(&self, k: Seq<u8>) -> bool {
        in_key_range(self.start_view(), self.end_view(), k)
    }

    /// The range of all keys.
    pub fn all() -> (r: Self)
        ensures
            r.start is None,
            r.end is None,
    {
        KeyRange { start: None, end: None }
    }

    /// The keys from `start` on.
    pub fn from(start: Key) -> (r: Self)
        ensures
            r.start == Some(start),
            r.end is None,
    {
        KeyRange { start: Some(start), end: None }
    }

    /// The keys from `start` (inclusive) up to `end` (exclusive).
    pub fn between(start: Key, end: Key) -> (r: Self)
        ensures
            r.start == Some(start),
            r.end == Some(end),
    {
        KeyRange { start: Some(start), end: Some(end) }
    }
}

} // verus!
