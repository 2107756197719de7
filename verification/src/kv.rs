//! The key-value store that the cluster replicates.
use vstd::hash_map::StringHashMap;
use vstd::prelude::*;

verus! {

/// A map from string keys to string values.
pub struct KvStore {
    dict: StringHashMap<String>,
}

/// The value stored under `key`, if any.
pub open spec fn kv_get(m: Map<Seq<char>, Seq<char>>, key: Seq<char>) -> Option<Seq<char>> {
    if m.contains_key(key) {
        Some(m[key])
    } else {
        None
    }
}

/// The store after `value` is written under `key`.
pub open spec fn kv_set(m: Map<Seq<char>, Seq<char>>, key: Seq<char>, value: Seq<char>) -> Map<
    Seq<char>,
    Seq<char>,
> {
    m.insert(key, value)
}

/// The store after `key` is deleted.
pub open spec fn kv_del(m: Map<Seq<char>, Seq<char>>, key: Seq<char>) -> Map<Seq<char>, Seq<char>> {
    m.remove(key)
}

/// A read gives back the value last written under its key.
pub proof fn law_read_your_write(m: Map<Seq<char>, Seq<char>>, key: Seq<char>, value: Seq<char>)
    ensures
        kv_get(kv_set(m, key, value), key) == Some(value),
{
}

/// A deleted key reads as absent.
pub proof fn law_read_after_delete(m: Map<Seq<char>, Seq<char>>, key: Seq<char>)
    ensures
        kv_get(kv_del(m, key), key) is None,
{
}

/// Writing or deleting one key leaves what every other key reads as it was.
pub proof fn law_other_keys_untouched(
    m: Map<Seq<char>, Seq<char>>,
    key: Seq<char>,
    other: Seq<char>,
    value: Seq<char>,
)
    requires
        key != other,
    ensures
        kv_get(kv_set(m, key, value), other) == kv_get(m, other),
        kv_get(kv_del(m, key), other) == kv_get(m, other),
{
}

impl View for KvStore {
    type V = Map<Seq<char>, Seq<char>>;

    closed spec fn view(&self) -> Map<Seq<char>, Seq<char>> {
        self.dict@.map_values(|v: String| v@)
    }
}

impl KvStore {
    /// An empty store.
    pub fn new() -> (kv: Self)
        ensures
            kv@ == Map::<Seq<char>, Seq<char>>::empty(),
    {
        let kv = Self { dict: StringHashMap::new() };
        assert(kv@ =~= Map::<Seq<char>, Seq<char>>::empty());
        kv
    }

    /// The value stored under `key`, if any.
    pub fn get_value(&self, key: &String) -> (value: Option<String>)
        ensures
            match value {
                Some(v) => kv_get(self@, key@) == Some(v@),
                None => kv_get(self@, key@) is None,
            },
    {
        match self.dict.get(key.as_str()) {
            Some(v) => Some(v.clone()),
            None => None,
        }
    }

    /// Stores `value` under `key`, replacing what was there.
    pub fn set_value(&mut self, key: &String, value: String)
        ensures
            final(self)@ == kv_set(old(self)@, key@, value@),
    {
        self.dict.insert(key.clone(), value);
        assert(self@ =~= kv_set(old(self)@, key@, value@));
    }

    /// Removes `key` and its value, if present.
    pub fn del_key(&mut self, key: &String)
        ensures
            final(self)@ == kv_del(old(self)@, key@),
    {
        self.dict.remove(key.as_str());
        assert(self@ =~= kv_del(old(self)@, key@));
    }
}

} // verus!
