use std::collections::HashMap;
use vstd::prelude::*;

use crate::key::{xxh3_text_hash, MsgKey};

verus! {

broadcast use vstd::std_specs::hash::group_hash_axioms;

/// A map from shard keys to values. Keys are grouped by their cached hash,
/// so a lookup compares names only among keys of equal hash.
pub struct KeyMap<V> {
    buckets: HashMap<u64, Vec<(MsgKey, V)>>,
    contents: Ghost<Map<Seq<char>, V>>,
}

impl<V> View for KeyMap<V> {
    type V = Map<Seq<char>, V>;

    closed spec fn view(&self) -> Map<Seq<char>, V> {
        self.contents@
    }
}

spec fn bucket_ok<V>(b: Seq<(MsgKey, V)>, h: u64, m: Map<Seq<char>, V>) -> bool {
    &&& forall|i: int|
        0 <= i < b.len() ==> xxh3_text_hash(#[trigger] b[i].0@) == h && m.contains_key(b[i].0@)
            && m[b[i].0@] == b[i].1
    &&& forall|i: int, j: int| 0 <= i < j < b.len() ==> b[i].0@ != b[j].0@
}

spec fn bucket_has<V>(b: Seq<(MsgKey, V)>, name: Seq<char>) -> bool {
    exists|i: int| 0 <= i < b.len() && #[trigger] b[i].0@ == name
}

impl<V> KeyMap<V> {
    /// The map's internal consistency: every entry sits in the bucket of its
    /// hash, once, with the value that the map gives it.
    pub closed spec fn wf(&self) -> bool {
        &&& self.contents@.dom().finite()
        &&& forall|h: u64| #[trigger]
            self.buckets@.contains_key(h) ==> bucket_ok(self.buckets@[h]@, h, self.contents@)
        &&& forall|name: Seq<char>| #[trigger]
            self.contents@.contains_key(name) ==> self.buckets@.contains_key(xxh3_text_hash(name))
                && bucket_has(self.buckets@[xxh3_text_hash(name)]@, name)
    }

    /// A consistent map has finitely many keys.
    pub proof fn lemma_dom_finite(&self)
        requires
            self.wf(),
        ensures
            self@.dom().finite(),
    {
    }

    pub fn new() -> (m: KeyMap<V>)
        ensures
            m.wf(),
            m@ == Map::<Seq<char>, V>::empty(),
    {
        KeyMap { buckets: HashMap::new(), contents: Ghost(Map::empty()) }
    }

    /// The position of `key` in the bucket `b`, if it is there.
    fn find(b: &Vec<(MsgKey, V)>, key: &MsgKey) -> (r: Option<usize>)
        ensures
            match r {
                Some(i) => i < b@.len() && b@[i as int].0@ == key@,
                None => !bucket_has(b@, key@),
            },
    {
        let mut i: usize = 0;
        while i < b.len()
            invariant
                i <= b@.len(),
                forall|j: int| 0 <= j < i ==> b@[j].0@ != key@,
            decreases b@.len() - i,
        {
            if b[i].0 == *key {
                return Some(i);
            }
            i = i + 1;
        }
        None
    }

    pub fn get(&self, key: &MsgKey) -> (r: Option<&V>)
        requires
            self.wf(),
        ensures
            match r {
                Some(v) => self@.contains_key(key@) && *v == self@[key@],
                None => !self@.contains_key(key@),
            },
    {
        let h = key.hash_value();
        match self.buckets.get(&h) {
            None => None,
            Some(b) => {
                assert(bucket_ok(b@, h, self@));
                match Self::find(b, key) {
                    Some(i) => Some(&b[i].1),
                    None => None,
                }
            },
        }
    }

    pub fn contains_key(&self, key: &MsgKey) -> (r: bool)
        requires
            self.wf(),
        ensures
            r == self@.contains_key(key@),
    {
        self.get(key).is_some()
    }

    /// Removes `key`, handing back its value.
    pub fn remove(&mut self, key: &MsgKey) -> (r: Option<V>)
        requires
            old(self).wf(),
        ensures
            final(self).wf(),
            final(self)@ == old(self)@.remove(key@),
            match r {
                Some(v) => old(self)@.contains_key(key@) && v == old(self)@[key@],
                None => !old(self)@.contains_key(key@),
            },
    {
        let h = key.hash_value();
        let ghost old_buckets = self.buckets@;
        match self.buckets.remove(&h) {
            None => {
                assert(self@ =~= old(self)@.remove(key@));
                None
            },
            Some(mut b) => {
                assert(bucket_ok(b@, h, self@));
                match Self::find(&b, key) {
                    None => {
                        self.buckets.insert(h, b);
                        assert(self.buckets@ =~= old_buckets);
                        assert(self@ =~= old(self)@.remove(key@));
                        None
                    },
                    Some(i) => {
                        let ghost b0 = b@;
                        let (_, v) = b.swap_remove(i);
                        let ghost m = self.contents@.remove(key@);
                        self.contents = Ghost(m);
                        assert forall|x: int, y: int| 0 <= x < y < b@.len() implies b@[x].0@
                            != b@[y].0@ by {
                            if y == i {
                                assert(b@[y] == b0[b0.len() - 1]);
                            }
                            if x == i {
                                assert(b@[x] == b0[b0.len() - 1]);
                            }
                        }
                        assert forall|x: int| 0 <= x < b@.len() implies xxh3_text_hash(
                            #[trigger] b@[x].0@,
                        ) == h && m.contains_key(b@[x].0@) && m[b@[x].0@] == b@[x].1 by {
                            if x == i {
                                assert(b@[x] == b0[b0.len() - 1]);
                            } else {
                                assert(b@[x] == b0[x]);
                            }
                        }
                        self.buckets.insert(h, b);
                        assert forall|name: Seq<char>| #[trigger]
                            self.contents@.contains_key(name) implies self.buckets@.contains_key(
                            xxh3_text_hash(name),
                        ) && bucket_has(self.buckets@[xxh3_text_hash(name)]@, name) by {
                            let hn = xxh3_text_hash(name);
                            assert(old(self)@.contains_key(name));
                            assert(bucket_has(old_buckets[hn]@, name));
                            if hn == h {
                                let k = choose|k: int|
                                    0 <= k < b0.len() && #[trigger] b0[k].0@ == name;
                                if k == b0.len() - 1 {
                                    assert(b@[i as int].0@ == name);
                                } else {
                                    assert(b@[k].0@ == name);
                                }
                            }
                        }
                        Some(v)
                    },
                }
            },
        }
    }

    /// Sets the value of `key`, handing back the value it replaces.
    pub fn insert(&mut self, key: MsgKey, value: V) -> (r: Option<V>)
        requires
            old(self).wf(),
        ensures
            final(self).wf(),
            final(self)@ == old(self)@.insert(key@, value),
            match r {
                Some(v) => old(self)@.contains_key(key@) && v == old(self)@[key@],
                None => !old(self)@.contains_key(key@),
            },
    {
        let ghost k = key@;
        let old_value = self.remove(&key);
        let h = key.hash_value();
        let ghost mid_buckets = self.buckets@;
        let ghost mid = self.contents@;
        let mut b = match self.buckets.remove(&h) {
            Some(b) => b,
            None => Vec::new(),
        };
        let ghost b0 = b@;
        assert(bucket_ok(b0, h, mid));
        assert(!bucket_has(b0, k));
        b.push((key, value));
        let ghost m = mid.insert(k, value);
        self.contents = Ghost(m);
        assert(b@ == b0.push((key, value)));
        assert forall|x: int| 0 <= x < b@.len() implies xxh3_text_hash(#[trigger] b@[x].0@) == h
            && m.contains_key(b@[x].0@) && m[b@[x].0@] == b@[x].1 by {
            if x < b0.len() {
                assert(b@[x] == b0[x]);
            }
        }
        self.buckets.insert(h, b);
        assert forall|name: Seq<char>| #[trigger]
            self.contents@.contains_key(name) implies self.buckets@.contains_key(
            xxh3_text_hash(name),
        ) && bucket_has(self.buckets@[xxh3_text_hash(name)]@, name) by {
            if name == k {
                assert(self.buckets@[h]@[b0.len() as int].0@ == k);
            } else {
                let hn = xxh3_text_hash(name);
                assert(bucket_has(mid_buckets[hn]@, name));
                if hn == h {
                    let j = choose|j: int| 0 <= j < b0.len() && #[trigger] b0[j].0@ == name;
                    assert(self.buckets@[h]@[j].0@ == name);
                }
            }
        }
        assert(self@ =~= old(self)@.insert(k, value));
        old_value
    }
}

} // verus!
