//! The in-memory key-value store.
use vstd::prelude::*;
use vstd::hash_map::StringHashMap;

verus! {

/// A store of string values under string keys.
pub struct KVStore {
    data: StringHashMap<String>,
}

impl View for KVStore {
    type V = Map<Seq<char>, String>;

    closed spec fn view(&self) -> Map<Seq<char>, String> {
        self.data@
    }
}

/// What a store holding `m` answers for `key`.
pub open spec fn lookup(m: Map<Seq<char>, String>, key: Seq<char>) -> Option<String> {
    if m.contains_key(key) {
        Some(m[key])
    } else {
        None
    }
}

/// Reading and writing a key-value store.
pub trait StorageInterface {
    type K;

    type V;

    fn get(&self, key: &Self::K) -> Option<Self::V>;

    fn put(&mut self, key: &Self::K, value: &Self::V);

    fn delete(&mut self, key: &Self::K);
}

impl Default for KVStore {
    fn default() -> (store: Self)
        ensures
            store@ == Map::<Seq<char>, String>::empty(),
    {
        KVStore { data: StringHashMap::new() }
    }
}

impl StorageInterface for KVStore {
    type K = String;

    type V = String;

    /// The value stored under `key`, if any.
    fn get(&self, key: &String) -> (r: Option<String>)
        ensures
            r == lookup(self@, key@),
    {
        match self.data.get(key.as_str()) {
            Some(v) => Some(v.clone()),
            None => None,
        }
    }

    /// Stores `value` under `key`, replacing what was there.
    fn put(&mut self, key: &String, value: &String)
        ensures
            final(self)@ == old(self)@.insert(key@, *value),
    {
        self.data.insert(key.clone(), value.clone());
    }

    /// Removes `key` and its value, if present.
    fn delete(&mut self, key: &String)
        ensures
            final(self)@ == old(self)@.remove(key@),
    {
        self.data.remove(key.as_str());
    }
}

/// After a value is put under a key, a get of that key returns it.
pub proof fn lemma_get_after_put(store: KVStore, key: String, value: String)
    ensures
        lookup(store@.insert(key@, value), key@) == Some(value),
{
}

/// After a key is deleted, a get of that key finds nothing.
pub proof fn lemma_get_after_delete(store: KVStore, key: String)
    ensures
        lookup(store@.remove(key@), key@) == None::<String>,
{
}

/// A second put under the same key overwrites the first: the store is as
/// if only the second had happened.
pub proof fn lemma_put_overwrites(store: KVStore, key: String, first: String, second: String)
    ensures
        store@.insert(key@, first).insert(key@, second) == store@.insert(key@, second),
        lookup(store@.insert(key@, first).insert(key@, second), key@) == Some(second),
{
    assert(store@.insert(key@, first).insert(key@, second) =~= store@.insert(key@, second));
}

/// Putting or deleting one key leaves what every other key answers unchanged.
pub proof fn lemma_other_keys_unchanged(store: KVStore, key: String, other: String, value: String)
    requires
        key@ != other@,
    ensures
        lookup(store@.insert(key@, value), other@) == lookup(store@, other@),
        lookup(store@.remove(key@), other@) == lookup(store@, other@),
{
}

} // verus!
