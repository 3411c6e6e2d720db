//! The in-memory index: a mapping from key to the log offset of that key's
//! most recent live `Put` record.

use vstd::prelude::*;

verus! {

/// The mapping described by a sequence of key/offset entries, later entries
/// winning.
pub open spec fn map_of(s: Seq<(Seq<char>, nat)>) -> Map<Seq<char>, nat>
    decreases s.len(),
{
    if s.len() == 0 {
        Map::empty()
    } else {
        map_of(s.drop_last()).insert(s.last().0, s.last().1)
    }
}

/// No two entries share a key.
pub open spec fn unique_keys(s: Seq<(Seq<char>, nat)>) -> bool {
    forall|i: int, j: int| 0 <= i < j < s.len() ==> s[i].0 != s[j].0
}

/// Each entry of a unique-keyed sequence is in its mapping, at its own
/// offset.
pub proof fn lemma_map_of_at(s: Seq<(Seq<char>, nat)>, i: int)
    requires
        unique_keys(s),
        0 <= i < s.len(),
    ensures
        map_of(s).contains_key(s[i].0),
        map_of(s)[s[i].0] == s[i].1,
    decreases s.len(),
{
    if i == s.len() - 1 {
    } else {
        assert(unique_keys(s.drop_last()));
        lemma_map_of_at(s.drop_last(), i);
        assert(s[i].0 != s.last().0);
    }
}

/// A key held by no entry is not in the mapping.
pub proof fn lemma_map_of_absent(s: Seq<(Seq<char>, nat)>, k: Seq<char>)
    requires
        forall|i: int| 0 <= i < s.len() ==> s[i].0 != k,
    ensures
        !map_of(s).contains_key(k),
    decreases s.len(),
{
    if s.len() > 0 {
        lemma_map_of_absent(s.drop_last(), k);
    }
}

/// Deleting the one entry that holds a key deletes that key from the
/// mapping.
pub proof fn lemma_map_of_remove(s: Seq<(Seq<char>, nat)>, i: int)
    requires
        unique_keys(s),
        0 <= i < s.len(),
    ensures
        map_of(s.remove(i)) == map_of(s).remove(s[i].0),
    decreases s.len(),
{
    let k = s[i].0;
    if i == s.len() - 1 {
        assert(s.remove(i) =~= s.drop_last());
        assert(forall|t: int| 0 <= t < s.drop_last().len() ==> s.drop_last()[t].0 != k);
        lemma_map_of_absent(s.drop_last(), k);
        assert(map_of(s).remove(k) =~= map_of(s.drop_last()));
    } else {
        assert(s.remove(i).drop_last() =~= s.drop_last().remove(i));
        assert(s.remove(i).last() == s.last());
        assert(unique_keys(s.drop_last()));
        lemma_map_of_remove(s.drop_last(), i);
        assert(k != s.last().0);
        assert(map_of(s.drop_last()).remove(k).insert(s.last().0, s.last().1) =~= map_of(
            s.drop_last(),
        ).insert(s.last().0, s.last().1).remove(k));
    }
}

/// The in-memory index from key to log offset.
pub struct Index {
    /// The entries, each key held at most once.
    pub entries: Vec<(String, u64)>,
}

impl Index {
    /// The entries as key characters and offsets.
    pub open spec fn entries_seq(self) -> Seq<(Seq<char>, nat)> {
        self.entries@.map_values(|e: (String, u64)| (e.0@, e.1 as nat))
    }

    /// The mapping the entries describe.
    pub open spec fn as_map(self) -> Map<Seq<char>, nat> {
        map_of(self.entries_seq())
    }

    /// Well-formed: no key is held twice.
    pub open spec fn wf(self) -> bool {
        unique_keys(self.entries_seq())
    }

    /// An empty index.
    pub fn new() -> (r: Index)
        ensures
            r.wf(),
            r.as_map() == Map::<Seq<char>, nat>::empty(),
            r.entries_seq().len() == 0,
    {
        Index { entries: Vec::new() }
    }

    /// How many keys the index holds.
    pub fn entry_count(&self) -> (n: usize)
        ensures
            n == self.entries_seq().len(),
    {
        self.entries.len()
    }

    /// The `i`-th key/offset entry.
    pub fn entry_at(&self, i: usize) -> (e: (String, u64))
        requires
            i < self.entries_seq().len(),
        ensures
            e.0@ == self.entries_seq()[i as int].0,
            e.1 as nat == self.entries_seq()[i as int].1,
    {
        let key = self.entries[i].0.clone();
        let off = self.entries[i].1;
        (key, off)
    }

    /// The offset held for `key`, if any.
    pub fn get(&self, key: &String) -> (r: Option<u64>)
        requires
            self.wf(),
        ensures
            match r {
                Some(off) => self.as_map().contains_key(key@) && off as nat
                    == self.as_map().index(key@),
                None => !self.as_map().contains_key(key@),
            },
    {
        let n = self.entries.len();
        let mut i: usize = 0;
        while i < n
            invariant
                self.wf(),
                i <= n,
                n == self.entries@.len(),
                forall|t: int| 0 <= t < i ==> self.entries_seq()[t].0 != key@,
            decreases n - i,
        {
            if self.entries[i].0 == *key {
                proof {
                    lemma_map_of_at(self.entries_seq(), i as int);
                }
                return Some(self.entries[i].1);
            }
            i = i + 1;
        }
        proof {
            lemma_map_of_absent(self.entries_seq(), key@);
        }
        None
    }

    /// Deletes `key`'s entry if it is there; reports whether it was.
    pub fn remove(&mut self, key: &String) -> (r: bool)
        requires
            old(self).wf(),
        ensures
            final(self).wf(),
            final(self).as_map() == old(self).as_map().remove(key@),
            r <==> old(self).as_map().contains_key(key@),
            forall|t: int|
                0 <= t < final(self).entries_seq().len() ==> final(self).entries_seq()[t].0
                    != key@,
            !r ==> *final(self) == *old(self),
    {
        let n = self.entries.len();
        let mut i: usize = 0;
        while i < n
            invariant
                self == old(self),
                self.wf(),
                i <= n,
                n == self.entries@.len(),
                forall|t: int| 0 <= t < i ==> self.entries_seq()[t].0 != key@,
            decreases n - i,
        {
            if self.entries[i].0 == *key {
                proof {
                    lemma_map_of_at(self.entries_seq(), i as int);
                    lemma_map_of_remove(self.entries_seq(), i as int);
                }
                let ghost s0 = self.entries_seq();
                self.entries.remove(i);
                proof {
                    assert(self.entries_seq() =~= s0.remove(i as int));
                }
                return true;
            }
            i = i + 1;
        }
        proof {
            lemma_map_of_absent(self.entries_seq(), key@);
            assert(self.as_map().remove(key@) =~= self.as_map());
        }
        false
    }

    /// Binds `key` to `off`, replacing any prior entry for `key`.
    pub fn insert(&mut self, key: String, off: u64)
        requires
            old(self).wf(),
        ensures
            final(self).wf(),
            final(self).as_map() == old(self).as_map().insert(key@, off as nat),
    {
        self.remove(&key);
        let ghost s0 = self.entries_seq();
        let ghost m0 = self.as_map();
        self.entries.push((key, off));
        proof {
            assert(self.entries_seq() =~= s0.push((key@, off as nat)));
            assert(self.entries_seq().drop_last() =~= s0);
            assert(self.as_map() == m0.insert(key@, off as nat));
            assert(old(self).as_map().remove(key@).insert(key@, off as nat) =~= old(
                self,
            ).as_map().insert(key@, off as nat));
        }
    }
}

} // verus!
