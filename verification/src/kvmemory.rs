//! The in-memory engine: key/value pairs held in a plain map, not
//! persisted to disk.

use crate::error::TsaError;
use crate::store::{lemma_pairs_map_has, lemma_pairs_map_index, pairs_distinct, pairs_map};
use vstd::prelude::*;

verus! {

/// An in-memory store: key/value pairs with pairwise distinct keys.
pub struct KvMemory {
    /// The entries, oldest first.
    pub entries: Vec<(String, String)>,
}

impl View for KvMemory {
    type V = Map<Seq<char>, Seq<char>>;

    open spec fn view(&self) -> Map<Seq<char>, Seq<char>> {
        pairs_map(self.entries@)
    }
}

impl KvMemory {
    /// Well-formed: pairwise distinct keys.
    pub open spec fn wf(&self) -> bool {
        pairs_distinct(self.entries@)
    }

    /// Creates an empty in-memory store.
    pub fn new() -> (r: KvMemory)
        ensures
            r.wf(),
            r@ == Map::<Seq<char>, Seq<char>>::empty(),
    {
        KvMemory { entries: Vec::new() }
    }

    /// Sets the value of a key, overwriting any previous value.
    pub fn set(&mut self, key: String, value: String) -> (r: Result<(), TsaError>)
        requires
            old(self).wf(),
        ensures
            final(self).wf(),
            r is Ok,
            final(self)@ == old(self)@.insert(key@, value@),
    {
        let ghost es0 = self.entries@;
        let n = self.entries.len();
        let mut i: usize = 0;
        while i < n
            invariant
                n == self.entries@.len(),
                self.entries@ == es0,
                old(self).entries@ == es0,
                pairs_distinct(es0),
                0 <= i <= n,
                forall|t: int| 0 <= t < i ==> (#[trigger] es0[t].0)@ != key@,
            decreases n - i,
        {
            if self.entries[i].0 == key {
                proof {
                    assert(es0[i as int].0@ == key@);
                    crate::store::lemma_pairs_map_remove(es0, i as int);
                    lemma_pairs_map_index(es0, i as int);
                }
                let _old = self.entries.remove(i);
                self.entries.push((key, value));
                proof {
                    assert(self.entries@.drop_last() =~= es0.remove(i as int));
                    assert(pairs_map(self.entries@) =~= pairs_map(es0).insert(
                        self.entries@.last().0@,
                        value@,
                    ));
                    assert forall|a: int, b: int|
                        0 <= a < b < self.entries@.len() implies (#[trigger] self.entries@[a].0)@
                        != (#[trigger] self.entries@[b].0)@ by {
                        if b < self.entries@.len() - 1 {
                            assert(self.entries@[a] == es0.remove(i as int)[a]);
                            assert(self.entries@[b] == es0.remove(i as int)[b]);
                        } else {
                            assert(self.entries@[a] == es0.remove(i as int)[a]);
                            lemma_pairs_map_has(es0.remove(i as int), key@);
                        }
                    }
                }
                return Ok(());
            }
            i += 1;
        }
        self.entries.push((key, value));
        proof {
            assert(self.entries@.drop_last() =~= es0);
            lemma_pairs_map_has(es0, key@);
            assert forall|a: int, b: int|
                0 <= a < b < self.entries@.len() implies (#[trigger] self.entries@[a].0)@
                != (#[trigger] self.entries@[b].0)@ by {
                if b < self.entries@.len() - 1 {
                    assert(self.entries@[a] == es0[a]);
                    assert(self.entries@[b] == es0[b]);
                } else {
                    assert(self.entries@[a] == es0[a]);
                }
            }
        }
        Ok(())
    }

    /// Gets the value of a key, or `None` if the key is absent.
    pub fn get(&self, key: String) -> (r: Result<Option<String>, TsaError>)
        requires
            self.wf(),
        ensures
            match r {
                Ok(v) => match v {
                    Option::Some(s) => self@.contains_key(key@) && s@ == self@[key@],
                    Option::None => !self@.contains_key(key@),
                },
                Err(_) => false,
            },
    {
        let n = self.entries.len();
        let mut i: usize = 0;
        while i < n
            invariant
                n == self.entries@.len(),
                self.wf(),
                0 <= i <= n,
                forall|t: int| 0 <= t < i ==> (#[trigger] self.entries@[t].0)@ != key@,
            decreases n - i,
        {
            if self.entries[i].0 == key {
                proof {
                    lemma_pairs_map_index(self.entries@, i as int);
                }
                return Ok(Some(self.entries[i].1.clone()));
            }
            i += 1;
        }
        proof {
            lemma_pairs_map_has(self.entries@, key@);
        }
        Ok(None)
    }

    /// Removes a key.  Fails with `KeyNotFound` when the key is absent.
    pub fn remove(&mut self, key: String) -> (r: Result<(), TsaError>)
        requires
            old(self).wf(),
        ensures
            final(self).wf(),
            r is Ok <==> old(self)@.contains_key(key@),
            r is Ok ==> final(self)@ == old(self)@.remove(key@),
            !old(self)@.contains_key(key@) ==> r == Err::<(), TsaError>(TsaError::KeyNotFound)
                && final(self)@ == old(self)@,
    {
        let ghost es0 = self.entries@;
        let n = self.entries.len();
        let mut i: usize = 0;
        while i < n
            invariant
                n == self.entries@.len(),
                self.entries@ == es0,
                old(self).entries@ == es0,
                pairs_distinct(es0),
                0 <= i <= n,
                forall|t: int| 0 <= t < i ==> (#[trigger] es0[t].0)@ != key@,
            decreases n - i,
        {
            if self.entries[i].0 == key {
                proof {
                    crate::store::lemma_pairs_map_remove(es0, i as int);
                    lemma_pairs_map_index(es0, i as int);
                }
                let _old = self.entries.remove(i);
                return Ok(());
            }
            i += 1;
        }
        proof {
            lemma_pairs_map_has(es0, key@);
            assert(pairs_map(es0).remove(key@) =~= pairs_map(es0));
        }
        Err(TsaError::KeyNotFound)
    }
}

} // verus!
