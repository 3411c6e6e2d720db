//! The store façade: `open`, `set`, `get`, `remove`, and the inline
//! compaction pass that rewrites only the live records.
//!
//! The store is a pure state machine over the log contents it holds in
//! memory. The caller owns the log file: it hands `open` the file's text
//! and applies each returned [`LogUpdate`] to the file, so that the file
//! always spells the store's log.

use vstd::prelude::*;

use crate::codec::{
    chars_of_str, decode_at, encode, encode_spec, lemma_decode_bounds, string_from_chars, Command,
    CommandModel,
};
use crate::error::KvsError;
use crate::index::{lemma_map_of_at, Index};
use crate::replay::{
    concat_records, lemma_compaction_preserves, lemma_model_append_put, lemma_model_append_rm,
    lemma_model_take, lemma_replay_valid, model_of, replay, replay_end, replay_map,
};

verus! {

/// How many mutations may follow a compaction before the next one.
pub const COMPACT_THRESHOLD: u64 = 968;

/// What a mutating call did to the log, for the caller to mirror on disk.
#[derive(Debug)]
pub enum LogUpdate {
    /// This text was appended to the log; append it to the log file.
    Appended(String),
    /// The log was compacted; atomically replace the log file's whole
    /// content with this text.
    Rewritten(String),
}

/// A key-value store over an append-only log.
pub struct KvStore {
    /// The characters of the active log.
    pub log: Vec<char>,
    /// The index from key to the offset of its live `Put` record.
    pub index: Index,
    /// The position of the next append: the log's length.
    pub offset: u64,
    /// Mutations since the last compaction.
    pub count: u64,
}

impl KvStore {
    /// Well-formed: the index is exactly the replay of the log, the log has
    /// no undecodable tail, and the write offset is the log's end.
    pub open spec fn wf(self) -> bool {
        &&& self.index.wf()
        &&& self.index.as_map() == replay_map(self.log@)
        &&& replay_end(self.log@) == self.log@.len()
        &&& self.offset as nat == self.log@.len()
        &&& self.count <= COMPACT_THRESHOLD + 1
    }

    /// The key-to-value mapping the store holds.
    pub open spec fn model(self) -> Map<Seq<char>, Seq<char>> {
        model_of(self.log@)
    }

    /// Opens a store over the given log text (the log file's content; empty
    /// for a fresh directory), replaying it to rebuild the index. A tail
    /// that does not decode is dropped rather than failing the open.
    pub fn open(content: String) -> (st: KvStore)
        ensures
            st.wf(),
            st.count == 0,
            st.model() == model_of(content@),
            st.log@ == content@.take(replay_end(content@) as int),
    {
        let mut log = chars_of_str(content.as_str());
        let (index, end) = replay(&log);
        proof {
            lemma_model_take(content@);
        }
        log.truncate(end as usize);
        KvStore { log, index, offset: end, count: 0 }
    }

    /// The store's whole log as text; `open` on this text rebuilds an
    /// observationally equal store.
    pub fn log_text(&self) -> (r: String)
        ensures
            r@ == self.log@,
    {
        string_from_chars(&self.log)
    }

    /// Binds `key` to `value`, overwriting any prior value: appends a `Put`
    /// record, points the index at it, and compacts when the growth
    /// threshold is crossed.
    pub fn set(&mut self, key: String, value: String) -> (r: Result<LogUpdate, KvsError>)
        requires
            old(self).wf(),
        ensures
            final(self).wf(),
            final(self).model() == old(self).model().insert(key@, value@),
            match r {
                Ok(LogUpdate::Appended(s)) => final(self).log@ == old(self).log@ + s@ && s@
                    == encode_spec((CommandModel::Put { key: key@, value: value@ })) && old(
                    self,
                ).count <= COMPACT_THRESHOLD,
                Ok(LogUpdate::Rewritten(s)) => s@ == final(self).log@ && old(self).count
                    > COMPACT_THRESHOLD,
                Err(_) => false,
            },
    {
        let cmd = Command::Put { key: key.clone(), value };
        let mut rec = encode(&cmd);
        let text = string_from_chars(&rec);
        let pre_off = self.offset;
        proof {
            lemma_model_append_put(self.log@, key@, cmd@->Put_value);
        }
        self.log.append(&mut rec);
        self.index.insert(key, pre_off);
        self.offset = self.log.len() as u64;
        if self.count > COMPACT_THRESHOLD {
            let full = self.compact();
            Ok(LogUpdate::Rewritten(full))
        } else {
            self.count = self.count + 1;
            Ok(LogUpdate::Appended(text))
        }
    }

    /// The value bound to `key`, or `None` if the key is absent. Looks the
    /// key up in the index and decodes the one record its offset points at.
    pub fn get(&self, key: String) -> (r: Result<Option<String>, KvsError>)
        requires
            self.wf(),
        ensures
            r is Ok,
            self.model().contains_key(key@) ==> r->Ok_0 is Some && r->Ok_0->Some_0@
                == self.model().index(key@),
            !self.model().contains_key(key@) ==> r->Ok_0 is None,
    {
        match self.index.get(&key) {
            None => Ok(None),
            Some(off) => {
                let loglen = self.log.len();
                proof {
                    lemma_replay_valid(self.log@);
                    lemma_decode_bounds(self.log@, off as nat);
                    assert((off as nat) < (loglen as nat));
                    assert((off as usize) as nat == off as nat);
                }
                match decode_at(&self.log, off as usize) {
                    Ok((Command::Put { key: _, value }, _n)) => Ok(Some(value)),
                    Ok((Command::Rm { key: _ }, _n)) => {
                        proof {
                            assert(false);
                        }
                        Err(KvsError::Internal)
                    },
                    Err(_) => {
                        proof {
                            assert(false);
                        }
                        Err(KvsError::Internal)
                    },
                }
            },
        }
    }

    /// Deletes `key`: appends a tombstone and drops the index entry, or
    /// fails with `KeyNotFound` and changes nothing when the key is absent.
    pub fn remove(&mut self, key: String) -> (r: Result<LogUpdate, KvsError>)
        requires
            old(self).wf(),
        ensures
            final(self).wf(),
            old(self).model().contains_key(key@) ==> final(self).model() == old(
                self,
            ).model().remove(key@) && match r {
                Ok(LogUpdate::Appended(s)) => final(self).log@ == old(self).log@ + s@ && s@
                    == encode_spec((CommandModel::Rm { key: key@ })) && old(self).count
                    <= COMPACT_THRESHOLD,
                Ok(LogUpdate::Rewritten(s)) => s@ == final(self).log@ && old(self).count
                    > COMPACT_THRESHOLD,
                Err(_) => false,
            },
            !old(self).model().contains_key(key@) ==> r == Err::<LogUpdate, KvsError>(
                KvsError::KeyNotFound,
            ) && *final(self) == *old(self),
    {
        match self.index.get(&key) {
            None => Err(KvsError::KeyNotFound),
            Some(_) => {
                let cmd = Command::Rm { key: key.clone() };
                let mut rec = encode(&cmd);
                let text = string_from_chars(&rec);
                proof {
                    lemma_model_append_rm(self.log@, key@);
                }
                self.log.append(&mut rec);
                self.index.remove(&key);
                self.offset = self.log.len() as u64;
                if self.count > COMPACT_THRESHOLD {
                    let full = self.compact();
                    Ok(LogUpdate::Rewritten(full))
                } else {
                    self.count = self.count + 1;
                    Ok(LogUpdate::Appended(text))
                }
            },
        }
    }

    /// Rewrites only the live records into a fresh log, replays it as a
    /// correctness check, and installs it as the active log. Observationally
    /// a no-op: the key-to-value mapping is unchanged.
    fn compact(&mut self) -> (full: String)
        requires
            old(self).wf(),
        ensures
            final(self).wf(),
            final(self).model() == old(self).model(),
            final(self).count == 0,
            full@ == final(self).log@,
    {
        let n = self.index.entry_count();
        let mut new_log: Vec<char> = Vec::new();
        let mut i: usize = 0;
        while i < n
            invariant
                i <= n,
                *self == *old(self),
                old(self).wf(),
                n == self.index.entries_seq().len(),
                new_log@ == concat_records(self.log@, self.index.entries_seq().take(i as int)),
            decreases n - i,
        {
            let (_k, off) = self.index.entry_at(i);
            let loglen = self.log.len();
            proof {
                lemma_map_of_at(self.index.entries_seq(), i as int);
                lemma_replay_valid(self.log@);
                lemma_decode_bounds(self.log@, off as nat);
                assert((off as nat) < (loglen as nat));
                assert((off as usize) as nat == off as nat);
            }
            match decode_at(&self.log, off as usize) {
                Ok((cmd, _len)) => {
                    let mut rec = encode(&cmd);
                    new_log.append(&mut rec);
                    proof {
                        let entries = self.index.entries_seq();
                        assert(entries.take(i + 1 as int).drop_last() =~= entries.take(i as int));
                        assert(entries.take(i + 1 as int).last() == entries[i as int]);
                    }
                },
                Err(_) => {
                    proof {
                        assert(false);
                    }
                },
            }
            i = i + 1;
        }
        proof {
            assert(self.index.entries_seq().take(n as int) =~= self.index.entries_seq());
            lemma_compaction_preserves(self.log@, self.index.entries_seq());
        }
        let (new_index, new_end) = replay(&new_log);
        self.log = new_log;
        self.index = new_index;
        self.offset = new_end;
        self.count = 0;
        string_from_chars(&self.log)
    }
}

} // verus!
