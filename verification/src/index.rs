//! The in-memory index: for each live key, where its value lies in the log.

use std::collections::hash_map::DefaultHasher;
use std::collections::HashMap;
use std::hash::Hasher;
use vstd::prelude::*;
use vstd::std_specs::hash::DefaultHasherAdditionalSpecFns;

verus! {

broadcast use vstd::std_specs::hash::group_hash_axioms;

/// The byte range of one `Set` record: `size` bytes at offset `pos` of the
/// segment of generation `gen`.
#[derive(Debug, Clone, Copy, PartialEq, Eq, Structural)]
pub struct Value {
    pub gen: u64,
    pub pos: u64,
    pub size: u64,
}

/// The hash under which the index files a key.
pub closed spec fn key_hash(key: Seq<char>) -> u64 {
    DefaultHasher::spec_finish(seq![vstd::utf8::encode_utf8(key)])
}

/// Computes the hash under which the index files `key`.
fn hash_of(key: &String) -> (h: u64)
    ensures
        h == key_hash(key@),
{
    let mut hasher = DefaultHasher::new();
    hasher.write(key.as_str().as_bytes());
    assert(hasher@ =~= seq![vstd::utf8::encode_utf8(key@)]);
    hasher.finish()
}

/// The place of `key` among the pairs of `bucket`, if it is there.
fn find_in(bucket: &Vec<(String, Value)>, key: &String) -> (r: Option<usize>)
    ensures
        match r {
            Some(i) => i < bucket@.len() && bucket@[i as int].0@ == key@,
            None => forall|j: int| 0 <= j < bucket@.len() ==> (#[trigger] bucket@[j]).0@ != key@,
        },
{
    let mut i: usize = 0;
    while i < bucket.len()
        invariant
            i <= bucket@.len(),
            forall|j: int| 0 <= j < i ==> (#[trigger] bucket@[j]).0@ != key@,
        decreases bucket@.len() - i,
    {
        if bucket[i].0 == *key {
            return Some(i);
        }
        i = i + 1;
    }
    None
}

/// A finite map from keys to the locations of their values. No key occurs
/// twice.
///
/// The pairs are filed in a `HashMap` under a hash of their key, each hash
/// with the few pairs that share it. A `HashMap` keyed by the `String`
/// itself would do without that step, but vstd gives `String` no key model
/// (`obeys_key_model`), and without one it says nothing of what such a map
/// holds after an `insert`.
pub struct Index {
    buckets: HashMap<u64, Vec<(String, Value)>>,
    model: Ghost<Map<Seq<char>, Value>>,
}

impl View for Index {
    type V = Map<Seq<char>, Value>;

    closed spec fn view(&self) -> Map<Seq<char>, Value> {
        self.model@
    }
}

/// The pairs filed under the hash `h`.
spec fn filed(buckets: Map<u64, Vec<(String, Value)>>, h: u64) -> Seq<(String, Value)> {
    if buckets.contains_key(h) {
        buckets[h]@
    } else {
        Seq::empty()
    }
}

/// Whether the pairs filed in `buckets` are exactly the pairs of `model`,
/// each under the hash of its key and none twice.
spec fn files(buckets: Map<u64, Vec<(String, Value)>>, model: Map<Seq<char>, Value>) -> bool {
    &&& forall|h: u64, i: int|
        0 <= i < filed(buckets, h).len() ==> {
            let pair = #[trigger] filed(buckets, h)[i];
            key_hash(pair.0@) == h && model.contains_key(pair.0@) && model[pair.0@] == pair.1
        }
    &&& forall|h: u64, i: int, j: int|
        0 <= i < j < filed(buckets, h).len() ==> (#[trigger] filed(buckets, h)[i]).0@ != (
        #[trigger] filed(buckets, h)[j]).0@
    &&& forall|key: Seq<char>| #[trigger]
        model.contains_key(key) ==> exists|i: int|
            0 <= i < filed(buckets, key_hash(key)).len() && (#[trigger] filed(
                buckets,
                key_hash(key),
            )[i]).0@ == key
}

impl Index {
    /// The stored pairs are exactly the pairs of the map.
    pub closed spec fn wf(&self) -> bool {
        files(self.buckets@, self.model@)
    }

    /// The empty index.
    pub fn new() -> (r: Self)
        ensures
            r.wf(),
            r@ == Map::<Seq<char>, Value>::empty(),
    {
        Index { buckets: HashMap::new(), model: Ghost(Map::empty()) }
    }

    /// The location recorded for `key`, if any.
    pub fn get(&self, key: &String) -> (r: Option<Value>)
        requires
            self.wf(),
        ensures
            r == (if self@.contains_key(key@) {
                Some(self@[key@])
            } else {
                None
            }),
    {
        let h = hash_of(key);
        match self.buckets.get(&h) {
            None => {
                assert(filed(self.buckets@, h).len() == 0);
                None
            },
            Some(bucket) => {
                assert(filed(self.buckets@, h) == bucket@);
                match find_in(bucket, key) {
                    Some(i) => {
                        assert(filed(self.buckets@, h)[i as int] == bucket@[i as int]);
                        Some(bucket[i].1)
                    },
                    None => None,
                }
            },
        }
    }

    /// Records `value` for `key`, replacing what was recorded before, and
    /// returns what was replaced.
    pub fn insert(&mut self, key: String, value: Value) -> (r: Option<Value>)
        requires
            old(self).wf(),
        ensures
            final(self).wf(),
            final(self)@ == old(self)@.insert(key@, value),
            r == (if old(self)@.contains_key(key@) {
                Some(old(self)@[key@])
            } else {
                None
            }),
    {
        let h = hash_of(&key);
        let ghost key_view = key@;
        let ghost before = filed(self.buckets@, h);
        let mut bucket: Vec<(String, Value)> = match self.buckets.remove(&h) {
            Some(bucket) => bucket,
            None => Vec::new(),
        };
        assert(bucket@ == before);
        let found = find_in(&bucket, &key);
        let replaced = match found {
            Some(i) => {
                assert(before[i as int] == bucket@[i as int]);
                let old_value = bucket[i].1;
                bucket.set(i, (key, value));
                Some(old_value)
            },
            None => {
                bucket.push((key, value));
                None
            },
        };
        let ghost after = bucket@;
        self.buckets.insert(h, bucket);
        proof {
            self.model@ = self.model@.insert(key_view, value);
            let at = match found {
                Some(i) => i as int,
                None => before.len() as int,
            };
            assert(after[at].0@ == key_view && after[at].1 == value);
            assert forall|g: u64| g != h implies filed(self.buckets@, g) == filed(
                old(self).buckets@,
                g,
            ) by {}
            assert(filed(self.buckets@, h) == after);
            assert forall|i: int| 0 <= i < after.len() && i != at implies after[i] == before[i] by {}
            assert forall|g: u64, i: int| 0 <= i < filed(self.buckets@, g).len() implies {
                let pair = #[trigger] filed(self.buckets@, g)[i];
                key_hash(pair.0@) == g && self.model@.contains_key(pair.0@) && self.model@[pair.0@]
                    == pair.1
            } by {
                if g == h {
                    if i != at {
                        assert(after[i] == before[i]);
                        assert(filed(old(self).buckets@, h)[i] == before[i]);
                        if found is None {
                            assert(before[i].0@ != key_view);
                        } else {
                            assert(before[i].0@ != before[at].0@);
                        }
                    }
                } else {
                    let pair = filed(old(self).buckets@, g)[i];
                    assert(key_hash(pair.0@) == g);
                }
            }
            assert forall|g: u64, i: int, j: int|
                0 <= i < j < filed(self.buckets@, g).len() implies (#[trigger] filed(
                self.buckets@,
                g,
            )[i]).0@ != (#[trigger] filed(self.buckets@, g)[j]).0@ by {
                if g == h {
                    if i != at && j != at {
                        assert(filed(old(self).buckets@, h)[i].0@ != filed(
                            old(self).buckets@,
                            h,
                        )[j].0@);
                    } else if found is Some {
                        assert(filed(old(self).buckets@, h)[i].0@ != filed(
                            old(self).buckets@,
                            h,
                        )[j].0@);
                    } else {
                        assert(before[i].0@ != key_view);
                    }
                } else {
                    assert(filed(old(self).buckets@, g)[i].0@ != filed(old(self).buckets@, g)[j].0@);
                }
            }
            assert forall|k: Seq<char>| #[trigger] self.model@.contains_key(k) implies exists|i: int|
                0 <= i < filed(self.buckets@, key_hash(k)).len() && (#[trigger] filed(
                    self.buckets@,
                    key_hash(k),
                )[i]).0@ == k by {
                if k == key_view {
                    assert(filed(self.buckets@, key_hash(k))[at].0@ == k);
                } else {
                    assert(old(self).model@.contains_key(k));
                    let g = key_hash(k);
                    let i = choose|i: int|
                        0 <= i < filed(old(self).buckets@, g).len() && (#[trigger] filed(
                            old(self).buckets@,
                            g,
                        )[i]).0@ == k;
                    if g == h {
                        assert(before[i].0@ == k);
                        assert(i != at);
                        assert(after[i] == before[i]);
                    }
                    assert(filed(self.buckets@, g)[i].0@ == k);
                }
            }
        };
        replaced
    }

    /// Forgets `key`, and returns what was recorded for it.
    pub fn remove(&mut self, key: &String) -> (r: Option<Value>)
        requires
            old(self).wf(),
        ensures
            final(self).wf(),
            final(self)@ == old(self)@.remove(key@),
            r == (if old(self)@.contains_key(key@) {
                Some(old(self)@[key@])
            } else {
                None
            }),
    {
        let h = hash_of(key);
        let ghost before = filed(self.buckets@, h);
        let found = match self.buckets.get(&h) {
            None => None,
            Some(bucket) => find_in(bucket, key),
        };
        match found {
            None => {
                assert(self.model@.remove(key@) =~= self.model@) by {
                    if self.model@.contains_key(key@) {
                        let i = choose|i: int|
                            0 <= i < filed(self.buckets@, h).len() && (#[trigger] filed(
                                self.buckets@,
                                h,
                            )[i]).0@ == key@;
                        assert(self.buckets@[h]@[i].0@ == key@);
                    }
                }
                None
            },
            Some(at) => {
                let mut bucket = self.buckets.remove(&h).unwrap();
                assert(bucket@ == before);
                assert(before[at as int] == bucket@[at as int]);
                let ghost last = before.len() - 1;
                let pair = bucket.swap_remove(at);
                let ghost after = bucket@;
                self.buckets.insert(h, bucket);
                proof {
                    self.model@ = self.model@.remove(key@);
                    assert(filed(self.buckets@, h) == after);
                    assert forall|g: u64| g != h implies filed(self.buckets@, g) == filed(
                        old(self).buckets@,
                        g,
                    ) by {}
                    assert forall|i: int| 0 <= i < after.len() implies #[trigger] after[i]
                        == before[if i == at {
                        last
                    } else {
                        i
                    }] by {}
                    assert forall|g: u64, i: int| 0 <= i < filed(self.buckets@, g).len() implies {
                        let p = #[trigger] filed(self.buckets@, g)[i];
                        key_hash(p.0@) == g && self.model@.contains_key(p.0@) && self.model@[p.0@]
                            == p.1
                    } by {
                        if g == h {
                            let src = if i == at {
                                last
                            } else {
                                i
                            };
                            assert(after[i] == before[src]);
                            assert(filed(old(self).buckets@, h)[src] == before[src]);
                            assert(before[src].0@ != before[at as int].0@);
                        } else {
                            let p = filed(old(self).buckets@, g)[i];
                            assert(key_hash(p.0@) == g);
                        }
                    }
                    assert forall|g: u64, i: int, j: int|
                        0 <= i < j < filed(self.buckets@, g).len() implies (#[trigger] filed(
                        self.buckets@,
                        g,
                    )[i]).0@ != (#[trigger] filed(self.buckets@, g)[j]).0@ by {
                        if g == h {
                            let si = if i == at {
                                last
                            } else {
                                i
                            };
                            let sj = if j == at {
                                last
                            } else {
                                j
                            };
                            assert(after[i] == before[si] && after[j] == before[sj]);
                            if si < sj {
                                assert(filed(old(self).buckets@, h)[si].0@ != filed(
                                    old(self).buckets@,
                                    h,
                                )[sj].0@);
                            } else {
                                assert(filed(old(self).buckets@, h)[sj].0@ != filed(
                                    old(self).buckets@,
                                    h,
                                )[si].0@);
                            }
                        } else {
                            assert(filed(old(self).buckets@, g)[i].0@ != filed(
                                old(self).buckets@,
                                g,
                            )[j].0@);
                        }
                    }
                    assert forall|k: Seq<char>| #[trigger]
                        self.model@.contains_key(k) implies exists|i: int|
                        0 <= i < filed(self.buckets@, key_hash(k)).len() && (#[trigger] filed(
                            self.buckets@,
                            key_hash(k),
                        )[i]).0@ == k by {
                        assert(old(self).model@.contains_key(k));
                        let g = key_hash(k);
                        let i = choose|i: int|
                            0 <= i < filed(old(self).buckets@, g).len() && (#[trigger] filed(
                                old(self).buckets@,
                                g,
                            )[i]).0@ == k;
                        if g == h {
                            assert(before[i].0@ == k);
                            assert(i != at);
                            if i == last {
                                assert(after[at as int] == before[last]);
                                assert(filed(self.buckets@, g)[at as int].0@ == k);
                            } else {
                                assert(after[i] == before[i]);
                                assert(filed(self.buckets@, g)[i].0@ == k);
                            }
                        } else {
                            assert(filed(self.buckets@, g)[i].0@ == k);
                        }
                    }
                }
                Some(pair.1)
            },
        }
    }
}

} // verus!
