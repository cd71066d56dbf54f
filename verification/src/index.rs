//! The in-memory index: a map from key to log position, kept as a vector of
//! entries with pairwise distinct keys.

use crate::log::CommandPos;
use vstd::prelude::*;

verus! {

/// The map described by a sequence of entries, later entries winning.
pub open spec fn entries_map(es: Seq<(String, CommandPos)>) -> Map<Seq<char>, CommandPos>
    decreases es.len(),
{
    if es.len() == 0 {
        Map::empty()
    } else {
        entries_map(es.drop_last()).insert(es.last().0@, es.last().1)
    }
}

/// Whether the entries hold pairwise distinct keys.
pub open spec fn entries_distinct(es: Seq<(String, CommandPos)>) -> bool {
    forall|i: int, j: int|
        0 <= i < j < es.len() ==> (#[trigger] es[i].0)@ != (#[trigger] es[j].0)@
}

/// A key is in the entries' map exactly when some entry holds it.
pub proof fn lemma_entries_map_has(es: Seq<(String, CommandPos)>, k: Seq<char>)
    ensures
        entries_map(es).contains_key(k) <==> exists|i: int| 0 <= i < es.len() && (#[trigger] es[i].0)@ == k,
    decreases es.len(),
{
    if es.len() > 0 {
        lemma_entries_map_has(es.drop_last(), k);
        if entries_map(es).contains_key(k) {
            if es.last().0@ == k {
                assert(es[es.len() - 1].0@ == k);
            } else {
                let i = choose|i: int| 0 <= i < es.drop_last().len() && (#[trigger] es.drop_last()[i].0)@ == k;
                assert(es[i].0@ == k);
            }
        }
        if exists|i: int| 0 <= i < es.len() && (#[trigger] es[i].0)@ == k {
            let i = choose|i: int| 0 <= i < es.len() && (#[trigger] es[i].0)@ == k;
            if i < es.len() - 1 {
                assert(es.drop_last()[i].0@ == k);
            }
        }
    }
}

/// With distinct keys, each entry appears in the map with its own value.
pub proof fn lemma_entries_map_index(es: Seq<(String, CommandPos)>, i: int)
    requires
        entries_distinct(es),
        0 <= i < es.len(),
    ensures
        entries_map(es).contains_key(es[i].0@),
        entries_map(es)[es[i].0@] == es[i].1,
    decreases es.len(),
{
    if i == es.len() - 1 {
    } else {
        lemma_entries_map_index(es.drop_last(), i);
        assert(es.drop_last()[i] == es[i]);
        assert(es[i].0@ != es.last().0@);
    }
}

/// Removing the entry at `i` removes exactly its key from the map.
pub proof fn lemma_entries_map_remove(es: Seq<(String, CommandPos)>, i: int)
    requires
        entries_distinct(es),
        0 <= i < es.len(),
    ensures
        entries_distinct(es.remove(i)),
        entries_map(es.remove(i)) == entries_map(es).remove(es[i].0@),
    decreases es.len(),
{
    let k = es[i].0@;
    if i == es.len() - 1 {
        assert(es.remove(i) =~= es.drop_last());
        assert(entries_map(es) == entries_map(es.drop_last()).insert(k, es.last().1));
        lemma_entries_map_has(es.drop_last(), k);
        assert(!entries_map(es.drop_last()).contains_key(k));
        assert(entries_map(es.drop_last()).insert(k, es.last().1).remove(k) =~= entries_map(
            es.drop_last(),
        ));
    } else {
        lemma_entries_map_remove(es.drop_last(), i);
        assert(es.remove(i).drop_last() =~= es.drop_last().remove(i));
        assert(es.remove(i).last() == es.last());
        assert(entries_map(es.remove(i)) == entries_map(es.drop_last().remove(i)).insert(
            es.last().0@,
            es.last().1,
        ));
        assert(k != es.last().0@);
        assert(entries_map(es.drop_last()).remove(k).insert(es.last().0@, es.last().1)
            =~= entries_map(es.drop_last()).insert(es.last().0@, es.last().1).remove(k));
    }
}

/// The total byte length of the records the entries point at.
pub open spec fn entries_live_bytes(es: Seq<(String, CommandPos)>) -> int
    decreases es.len(),
{
    if es.len() == 0 {
        0
    } else {
        entries_live_bytes(es.drop_last()) + es.last().1.length
    }
}

/// The live total is never negative.
pub proof fn lemma_live_nonneg(es: Seq<(String, CommandPos)>)
    ensures
        entries_live_bytes(es) >= 0,
    decreases es.len(),
{
    if es.len() > 0 {
        lemma_live_nonneg(es.drop_last());
    }
}

/// Removing an entry subtracts exactly its record's length.
pub proof fn lemma_live_remove(es: Seq<(String, CommandPos)>, i: int)
    requires
        0 <= i < es.len(),
    ensures
        entries_live_bytes(es.remove(i)) == entries_live_bytes(es) - es[i].1.length,
    decreases es.len(),
{
    if i == es.len() - 1 {
        assert(es.remove(i) =~= es.drop_last());
    } else {
        lemma_live_remove(es.drop_last(), i);
        assert(es.remove(i).drop_last() =~= es.drop_last().remove(i));
        assert(es.remove(i).last() == es.last());
    }
}

/// The live total splits over any cut, so a prefix never exceeds the whole.
pub proof fn lemma_live_split(es: Seq<(String, CommandPos)>, i: int)
    requires
        0 <= i <= es.len(),
    ensures
        entries_live_bytes(es) == entries_live_bytes(es.take(i)) + entries_live_bytes(es.skip(i)),
        entries_live_bytes(es.take(i)) >= 0,
        entries_live_bytes(es.skip(i)) >= 0,
    decreases es.len(),
{
    lemma_live_nonneg(es.take(i));
    lemma_live_nonneg(es.skip(i));
    if i == es.len() {
        assert(es.take(i) =~= es);
        assert(es.skip(i) =~= Seq::<(String, CommandPos)>::empty());
    } else {
        lemma_live_split(es.drop_last(), i);
        assert(es.drop_last().take(i) =~= es.take(i));
        assert(es.skip(i).drop_last() =~= es.drop_last().skip(i));
        assert(es.skip(i).last() == es.last());
        assert(entries_live_bytes(es.skip(i)) == entries_live_bytes(es.drop_last().skip(i))
            + es.last().1.length);
    }
}

/// The in-memory index: key to (file id, offset, length) of the most recent
/// `Set` record for the key.
pub struct Index {
    /// The entries, oldest first.
    pub entries: Vec<(String, CommandPos)>,
}

impl View for Index {
    type V = Map<Seq<char>, CommandPos>;

    open spec fn view(&self) -> Map<Seq<char>, CommandPos> {
        entries_map(self.entries@)
    }
}

impl Index {
    /// The entries, oldest first, as mathematics.
    pub open spec fn spec_entries(&self) -> Seq<(String, CommandPos)> {
        self.entries@
    }

    /// Well-formed: pairwise distinct keys.
    pub open spec fn wf(&self) -> bool {
        entries_distinct(self.entries@)
    }

    /// An empty index.
    pub fn new() -> (r: Index)
        ensures
            r.wf(),
            r@ == Map::<Seq<char>, CommandPos>::empty(),
            r.spec_entries().len() == 0,
    {
        Index { entries: Vec::new() }
    }

    /// How many keys the index holds.
    pub fn len(&self) -> (r: usize)
        ensures
            r == self.spec_entries().len(),
    {
        self.entries.len()
    }

    /// The key of the entry at `i`.
    pub fn key_at(&self, i: usize) -> (r: &String)
        requires
            i < self.spec_entries().len(),
        ensures
            r == self.spec_entries()[i as int].0,
    {
        &self.entries[i].0
    }

    /// The position of the entry at `i`.
    pub fn pos_at(&self, i: usize) -> (r: CommandPos)
        requires
            i < self.spec_entries().len(),
        ensures
            r == self.spec_entries()[i as int].1,
    {
        self.entries[i].1
    }

    /// Looks a key up.
    pub fn get(&self, key: &String) -> (r: Option<CommandPos>)
        requires
            self.wf(),
        ensures
            match r {
                Option::Some(p) => self@.contains_key(key@) && self@[key@] == p,
                Option::None => !self@.contains_key(key@),
            },
    {
        let n = self.entries.len();
        let mut i: usize = 0;
        while i < n
            invariant
                n == self.entries@.len(),
                self.wf(),
                0 <= i <= n,
                forall|t: int| 0 <= t < i ==> (#[trigger] self.entries@[t].0)@ != key@,
            decreases n - i,
        {
            if self.entries[i].0 == *key {
                proof {
                    lemma_entries_map_index(self.entries@, i as int);
                }
                return Some(self.entries[i].1);
            }
            i += 1;
        }
        proof {
            lemma_entries_map_has(self.entries@, key@);
        }
        None
    }

    /// Sets the position for a key, replacing any prior entry; reports
    /// whether a prior entry existed.
    pub fn insert(&mut self, key: String, pos: CommandPos) -> (existed: bool)
        requires
            old(self).wf(),
        ensures
            final(self).wf(),
            final(self)@ == old(self)@.insert(key@, pos),
            existed == old(self)@.contains_key(key@),
            final(self).spec_entries().len() <= old(self).spec_entries().len() + 1,
            entries_live_bytes(final(self).spec_entries()) <= entries_live_bytes(
                old(self).spec_entries(),
            ) + pos.length,
            !existed ==> final(self).spec_entries() == old(self).spec_entries().push((key, pos)),
    {
        let ghost es0 = self.entries@;
        let n = self.entries.len();
        let mut i: usize = 0;
        let mut existed = false;
        while i < n
            invariant
                n == self.entries@.len(),
                self.entries@ == es0,
                old(self).entries@ == es0,
                entries_distinct(es0),
                0 <= i <= n,
                !existed,
                forall|t: int| 0 <= t < i ==> (#[trigger] es0[t].0)@ != key@,
            decreases n - i,
        {
            if self.entries[i].0 == key {
                proof {
                    assert(es0[i as int].0@ == key@);
                    lemma_entries_map_remove(es0, i as int);
                    lemma_entries_map_index(es0, i as int);
                    lemma_live_remove(es0, i as int);
                }
                let _old = self.entries.remove(i);
                self.entries.push((key, pos));
                proof {
                    assert(self.entries@.drop_last() =~= es0.remove(i as int));
                    assert(entries_map(self.entries@) == entries_map(es0.remove(i as int)).insert(
                        self.entries@.last().0@,
                        pos,
                    ));
                    assert(entries_map(self.entries@) =~= entries_map(es0).insert(
                        self.entries@.last().0@,
                        pos,
                    ));
                    assert forall|a: int, b: int|
                        0 <= a < b < self.entries@.len() implies (#[trigger] self.entries@[a].0)@
                        != (#[trigger] self.entries@[b].0)@ by {
                        if b < self.entries@.len() - 1 {
                            assert(self.entries@[a] == es0.remove(i as int)[a]);
                            assert(self.entries@[b] == es0.remove(i as int)[b]);
                        } else {
                            assert(self.entries@[a] == es0.remove(i as int)[a]);
                            lemma_entries_map_has(es0.remove(i as int), key@);
                        }
                    }
                    lemma_entries_map_has(es0, key@);
                }
                return true;
            }
            i += 1;
        }
        self.entries.push((key, pos));
        proof {
            assert(self.entries@.drop_last() =~= es0);
            lemma_entries_map_has(es0, key@);
            assert forall|a: int, b: int|
                0 <= a < b < self.entries@.len() implies (#[trigger] self.entries@[a].0)@
                != (#[trigger] self.entries@[b].0)@ by {
                if b < self.entries@.len() - 1 {
                    assert(self.entries@[a] == es0[a]);
                    assert(self.entries@[b] == es0[b]);
                } else {
                    assert(self.entries@[a] == es0[a]);
                }
            }
        }
        false
    }

    /// Removes a key's entry, returning its position if one existed.
    pub fn remove(&mut self, key: &String) -> (r: Option<CommandPos>)
        requires
            old(self).wf(),
        ensures
            final(self).wf(),
            final(self)@ == old(self)@.remove(key@),
            match r {
                Option::Some(p) => old(self)@.contains_key(key@) && old(self)@[key@] == p,
                Option::None => !old(self)@.contains_key(key@) && final(self).spec_entries()
                    == old(self).spec_entries(),
            },
            final(self).spec_entries().len() <= old(self).spec_entries().len(),
            entries_live_bytes(final(self).spec_entries()) <= entries_live_bytes(
                old(self).spec_entries(),
            ),
    {
        let ghost es0 = self.entries@;
        let n = self.entries.len();
        let mut i: usize = 0;
        while i < n
            invariant
                n == self.entries@.len(),
                self.entries@ == es0,
                old(self).entries@ == es0,
                entries_distinct(es0),
                0 <= i <= n,
                forall|t: int| 0 <= t < i ==> (#[trigger] es0[t].0)@ != key@,
            decreases n - i,
        {
            if self.entries[i].0 == *key {
                proof {
                    lemma_entries_map_remove(es0, i as int);
                    lemma_entries_map_index(es0, i as int);
                    lemma_live_remove(es0, i as int);
                }
                let old_entry = self.entries.remove(i);
                return Some(old_entry.1);
            }
            i += 1;
        }
        proof {
            lemma_entries_map_has(es0, key@);
            assert(entries_map(es0).remove(key@) =~= entries_map(es0));
        }
        None
    }
}

} // verus!
