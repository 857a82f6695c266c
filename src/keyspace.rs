use vstd::prelude::*;
use crate::value::{unique_keys, as_map, entries_remove, entries_set, Value, ValueMap, ValueView};

verus! {

/// The shared top-level namespace: keys to values, with a cap on the number
/// of keys.
pub struct Keyspace {
    map: ValueMap,
    max_keys: u64,
}

/// The inner entries of the map value stored under `m`, when there is one.
pub open spec fn inner_entries(ks: Map<Seq<char>, ValueView>, m: Seq<char>) -> Option<
    Seq<(Seq<char>, ValueView)>,
> {
    if ks.contains_key(m) {
        match ks[m] {
            ValueView::Dict(es) => Some(es),
            _ => None,
        }
    } else {
        None
    }
}

/// The map value stored under `m`, if there is one, has no repeated key.
pub open spec fn inner_distinct(ks: Map<Seq<char>, ValueView>, m: Seq<char>) -> bool {
    inner_entries(ks, m) matches Some(es) ==> unique_keys(es)
}

impl Keyspace {
    /// The keys and their values.
    pub closed spec fn view(&self) -> Map<Seq<char>, ValueView> {
        as_map(self.map@)
    }

    /// The most keys that may be held.
    pub closed spec fn cap(&self) -> u64 {
        self.max_keys
    }

    /// The number of keys held.
    pub open spec fn size(&self) -> nat {
        self@.dom().len()
    }

    pub fn new(max_keys: u64) -> (r: Self)
        ensures
            r@ == Map::<Seq<char>, ValueView>::empty(),
            r.size() == 0,
            r.cap() == max_keys,
    {
        let r = Keyspace { map: ValueMap::new(), max_keys };
        proof {
            assert(r@ =~= Map::<Seq<char>, ValueView>::empty());
        }
        r
    }

    pub fn max_keys(&self) -> (r: u64)
        ensures
            r == self.cap(),
    {
        self.max_keys
    }

    pub fn len(&self) -> (r: usize)
        ensures
            r == self.size(),
    {
        self.map.len()
    }

    /// A copy of the value under `k`.
    pub fn get(&self, k: &String) -> (r: Option<Value>)
        ensures
            r is Some <==> self@.contains_key(k@),
            r matches Some(v) ==> v@ == self@[k@],
    {
        match self.map.get(k) {
            Some(v) => Some(v.duplicate()),
            None => None,
        }
    }

    /// Sets `k` to `v`, unless `k` is new and the cap is reached; tells
    /// whether it did.
    pub fn insert(&mut self, k: String, v: Value) -> (r: bool)
        ensures
            r == (old(self)@.contains_key(k@) || old(self).size() < old(self).cap()),
            r ==> final(self)@ == old(self)@.insert(k@, v@),
            !r ==> final(self)@ == old(self)@,
            final(self).cap() == old(self).cap(),
            final(self).size() == if old(self)@.contains_key(k@) || !r {
                old(self).size()
            } else {
                old(self).size() + 1
            },
    {
        proof {
            crate::value::lemma_find_key_range(self.map@, k@);
        }
        let present = self.map.get(&k).is_some();
        let len = self.map.len();
        if !present && len as u64 >= self.max_keys {
            return false;
        }
        self.map.insert(k, v);
        true
    }

    /// Removes `k`; tells whether it was present.
    pub fn remove(&mut self, k: &String) -> (r: bool)
        ensures
            r == old(self)@.contains_key(k@),
            final(self)@ == old(self)@.remove(k@),
            final(self).cap() == old(self).cap(),
    {
        proof {
            crate::value::lemma_find_key_range(self.map@, k@);
        }
        self.map.remove(k)
    }

    /// A copy of every entry.
    pub fn snapshot(&self) -> (r: ValueMap)
        ensures
            as_map(r@) == self@,
            unique_keys(r@),
    {
        self.map.duplicate()
    }

    /// A copy of the value under `k` inside the map value under `m`.
    pub fn map_get(&self, m: &String, k: &String) -> (r: Option<Value>)
        ensures
            r is Some <==> (inner_entries(self@, m@) matches Some(es) && as_map(es).contains_key(
                k@,
            )),
            r matches Some(v) ==> v@ == as_map(inner_entries(self@, m@)->0)[k@],
            inner_distinct(self@, m@),
    {
        match self.map.get(m) {
            Some(Value::Dict(inner)) => match inner.get(k) {
                Some(v) => Some(v.duplicate()),
                None => None,
            },
            _ => None,
        }
    }

    /// Sets `k` to `v` inside the map value under `m`; tells whether `m`
    /// holds a map.
    pub fn map_set(&mut self, m: &String, k: String, v: Value) -> (r: bool)
        ensures
            r == inner_entries(old(self)@, m@) is Some,
            r ==> final(self)@ == old(self)@.insert(
                m@,
                ValueView::Dict(entries_set(inner_entries(old(self)@, m@)->0, k@, v@)),
            ),
            !r ==> final(self)@ == old(self)@,
            final(self).cap() == old(self).cap(),
            inner_distinct(old(self)@, m@),
    {
        let ghost kv = k@;
        let ghost vv = v@;
        match self.map.get(m) {
            Some(Value::Dict(_)) => {},
            _ => {
                return false;
            },
        }
        let taken = self.map.take(m);
        match taken {
            Some(Value::Dict(mut inner)) => {
                inner.insert(k, v);
                self.map.insert(m.clone(), Value::Dict(inner));
                proof {
                    assert(self@ =~= old(self)@.insert(
                        m@,
                        ValueView::Dict(entries_set(inner_entries(old(self)@, m@)->0, kv, vv)),
                    ));
                }
                true
            },
            _ => false,
        }
    }

    /// Removes `k` from the map value under `m`; tells whether `m` holds a
    /// map that had `k`.
    pub fn map_del(&mut self, m: &String, k: &String) -> (r: bool)
        ensures
            r == (inner_entries(old(self)@, m@) matches Some(es) && as_map(es).contains_key(k@)),
            r ==> final(self)@ == old(self)@.insert(
                m@,
                ValueView::Dict(entries_remove(inner_entries(old(self)@, m@)->0, k@)),
            ),
            !r ==> final(self)@ == old(self)@,
            final(self).cap() == old(self).cap(),
            inner_distinct(old(self)@, m@),
    {
        match self.map.get(m) {
            Some(Value::Dict(inner)) => {
                if inner.get(k).is_none() {
                    return false;
                }
            },
            _ => {
                return false;
            },
        }
        let taken = self.map.take(m);
        match taken {
            Some(Value::Dict(mut inner)) => {
                inner.remove(k);
                self.map.insert(m.clone(), Value::Dict(inner));
                proof {
                    assert(self@ =~= old(self)@.insert(
                        m@,
                        ValueView::Dict(entries_remove(inner_entries(old(self)@, m@)->0, k@)),
                    ));
                }
                true
            },
            _ => false,
        }
    }
}

} // verus!
