//! Replay: rebuilding the index by decoding a log from its start and
//! folding every record into the mapping, and the lemmas that connect a
//! log's contents to the mapping it describes.

use vstd::prelude::*;

use crate::codec::{
    decode_at, decode_spec, encode_spec, lemma_decode_bounds, lemma_decode_encode,
    lemma_decode_extend, lemma_decode_take, Command, CommandModel,
};
use crate::index::{lemma_map_of_at, map_of, Index};

verus! {

/// Folds one decoded command, met at position `p`, into the index mapping.
pub open spec fn fold_cmd(m: Map<Seq<char>, nat>, c: CommandModel, p: nat) -> Map<Seq<char>, nat> {
    match c {
        CommandModel::Put { key, .. } => m.insert(key, p),
        CommandModel::Rm { key } => m.remove(key),
    }
}

/// Replays `log` from position `p` onward into `m`. Returns the final
/// mapping and the position where the first decode failure stopped it.
pub open spec fn replay_from(log: Seq<char>, p: nat, m: Map<Seq<char>, nat>) -> (
    Map<Seq<char>, nat>,
    nat,
)
    decreases log.len() - p
        when p <= log.len()
        via replay_from_decreases
{
    match decode_spec(log, p) {
        None => (m, p),
        Some((c, n)) => replay_from(log, (p + n) as nat, fold_cmd(m, c, p)),
    }
}

#[via_fn]
proof fn replay_from_decreases(log: Seq<char>, p: nat, m: Map<Seq<char>, nat>) {
    if decode_spec(log, p) is Some {
        lemma_decode_bounds(log, p);
    }
}

/// The index mapping a whole log describes.
pub open spec fn replay_map(log: Seq<char>) -> Map<Seq<char>, nat> {
    replay_from(log, 0, Map::empty()).0
}

/// Where replay of a whole log stops: the position of the next append.
pub open spec fn replay_end(log: Seq<char>) -> nat {
    replay_from(log, 0, Map::empty()).1
}

/// How many characters the record at position `p` occupies.
pub open spec fn decode_len(log: Seq<char>, p: nat) -> nat {
    decode_spec(log, p)->Some_0.1
}

/// The value of the `Put` record at position `p`.
pub open spec fn value_at(log: Seq<char>, p: nat) -> Seq<char> {
    match decode_spec(log, p) {
        Some((c, n)) => match c {
            CommandModel::Put { value, .. } => value,
            CommandModel::Rm { .. } => Seq::empty(),
        },
        None => Seq::empty(),
    }
}

/// An index entry is valid when it points at a `Put` record for its key.
pub open spec fn entry_valid(log: Seq<char>, k: Seq<char>, p: nat) -> bool {
    &&& decode_spec(log, p) is Some
    &&& decode_spec(log, p)->Some_0.0 matches CommandModel::Put { key, .. } && key == k
}

/// The key-to-value mapping a log describes: every indexed key, bound to
/// the value of the `Put` record its offset points at.
pub open spec fn model_of(log: Seq<char>) -> Map<Seq<char>, Seq<char>> {
    Map::new(
        |k: Seq<char>| replay_map(log).contains_key(k),
        |k: Seq<char>| value_at(log, replay_map(log).index(k)),
    )
}

/// Replay never moves backward nor past the end.
pub proof fn lemma_replay_from_monotone(log: Seq<char>, p: nat, m: Map<Seq<char>, nat>)
    requires
        p <= log.len(),
    ensures
        p <= replay_from(log, p, m).1 <= log.len(),
    decreases log.len() - p,
{
    if decode_spec(log, p) is Some {
        let (c, n) = decode_spec(log, p)->Some_0;
        lemma_decode_bounds(log, p);
        lemma_replay_from_monotone(log, (p + n) as nat, fold_cmd(m, c, p));
    }
}

/// Every entry of a replayed mapping points at a `Put` record for its key,
/// and that record lies wholly before the replay end.
pub proof fn lemma_replay_from_valid(log: Seq<char>, p: nat, m: Map<Seq<char>, nat>)
    requires
        p <= log.len(),
        forall|k: Seq<char>| #[trigger] m.contains_key(k) ==> entry_valid(log, k, m.index(k))
            && m.index(k) + decode_len(log, m.index(k)) <= p,
    ensures
        forall|k: Seq<char>| #[trigger] replay_from(log, p, m).0.contains_key(k) ==> entry_valid(
            log,
            k,
            replay_from(log, p, m).0.index(k),
        ) && replay_from(log, p, m).0.index(k) + decode_len(
            log,
            replay_from(log, p, m).0.index(k),
        ) <= replay_from(log, p, m).1,
    decreases log.len() - p,
{
    if decode_spec(log, p) is Some {
        let (c, n) = decode_spec(log, p)->Some_0;
        lemma_decode_bounds(log, p);
        let m2 = fold_cmd(m, c, p);
        assert(forall|k: Seq<char>| #[trigger] m2.contains_key(k) ==> entry_valid(
            log,
            k,
            m2.index(k),
        ) && m2.index(k) + decode_len(log, m2.index(k)) <= p + n);
        assert(replay_from(log, p, m) == replay_from(log, (p + n) as nat, m2));
        lemma_replay_from_valid(log, (p + n) as nat, m2);
    } else {
        lemma_replay_from_monotone(log, p, m);
    }
}

/// Validity of every entry of a whole log's replayed mapping.
pub proof fn lemma_replay_valid(log: Seq<char>)
    ensures
        forall|k: Seq<char>| #[trigger] replay_map(log).contains_key(k) ==> entry_valid(
            log,
            k,
            replay_map(log).index(k),
        ) && replay_map(log).index(k) + decode_len(log, replay_map(log).index(k)) <= replay_end(
            log,
        ),
{
    lemma_replay_from_valid(log, 0, Map::empty());
}

/// Appending one encoded record to a fully-replayed log folds exactly that
/// record into the mapping, and the result is again fully replayed.
proof fn lemma_replay_from_append(log: Seq<char>, c: CommandModel, p: nat, m: Map<Seq<char>, nat>)
    requires
        p <= log.len(),
        replay_from(log, p, m).1 == log.len(),
    ensures
        replay_from(log + encode_spec(c), p, m).0 == fold_cmd(
            replay_from(log, p, m).0,
            c,
            log.len(),
        ),
        replay_from(log + encode_spec(c), p, m).1 == log.len() + encode_spec(c).len(),
    decreases log.len() - p,
{
    let l2 = log + encode_spec(c);
    if decode_spec(log, p) is Some {
        let (c0, n) = decode_spec(log, p)->Some_0;
        lemma_decode_bounds(log, p);
        lemma_decode_extend(log, encode_spec(c), p);
        assert(replay_from(log, p, m) == replay_from(log, (p + n) as nat, fold_cmd(m, c0, p)));
        assert(replay_from(l2, p, m) == replay_from(l2, (p + n) as nat, fold_cmd(m, c0, p)));
        lemma_replay_from_append(log, c, (p + n) as nat, fold_cmd(m, c0, p));
    } else {
        assert(p == log.len());
        lemma_decode_encode(log, c, Seq::empty());
        assert(log + encode_spec(c) + Seq::empty() =~= l2);
        assert(decode_spec(l2, p) == Some((c, encode_spec(c).len())));
        assert(p + encode_spec(c).len() == l2.len());
        assert(decode_spec(l2, l2.len()) is None);
        assert(replay_from(l2, p, m) == replay_from(
            l2,
            (p + encode_spec(c).len()) as nat,
            fold_cmd(m, c, p),
        ));
        assert(replay_from(l2, l2.len(), fold_cmd(m, c, p)) == (fold_cmd(m, c, p), l2.len()));
    }
}

/// The whole-log form of the append step.
pub proof fn lemma_replay_append(log: Seq<char>, c: CommandModel)
    requires
        replay_end(log) == log.len(),
    ensures
        replay_map(log + encode_spec(c)) == fold_cmd(replay_map(log), c, log.len()),
        replay_end(log + encode_spec(c)) == log.len() + encode_spec(c).len(),
{
    lemma_replay_from_append(log, c, 0, Map::empty());
}

/// Replay sees nothing past its own end: cutting the log there changes
/// neither the mapping nor the end.
proof fn lemma_replay_from_take(log: Seq<char>, p: nat, m: Map<Seq<char>, nat>, e: nat)
    requires
        p <= log.len(),
        replay_from(log, p, m).1 == e,
        e <= log.len(),
    ensures
        replay_from(log.take(e as int), p, m) == replay_from(log, p, m),
    decreases log.len() - p,
{
    lemma_replay_from_monotone(log, p, m);
    if decode_spec(log, p) is Some {
        let (c, n) = decode_spec(log, p)->Some_0;
        lemma_decode_bounds(log, p);
        lemma_replay_from_monotone(log, (p + n) as nat, fold_cmd(m, c, p));
        lemma_decode_take(log, p, e);
        lemma_replay_from_take(log, (p + n) as nat, fold_cmd(m, c, p), e);
    } else {
        assert(p == e);
        assert(decode_spec(log.take(e as int), p) is None);
    }
}

/// Cutting a log at its replay end keeps its mapping, its end and its
/// key-to-value model.
pub proof fn lemma_model_take(log: Seq<char>)
    ensures
        replay_map(log.take(replay_end(log) as int)) == replay_map(log),
        replay_end(log.take(replay_end(log) as int)) == replay_end(log),
        replay_end(log) == log.take(replay_end(log) as int).len(),
        model_of(log.take(replay_end(log) as int)) == model_of(log),
{
    let e = replay_end(log);
    lemma_replay_from_monotone(log, 0, Map::empty());
    lemma_replay_from_take(log, 0, Map::empty(), e);
    let pre = log.take(e as int);
    lemma_replay_valid(log);
    assert forall|k: Seq<char>| #[trigger] replay_map(log).contains_key(k) implies value_at(
        pre,
        replay_map(log).index(k),
    ) == value_at(log, replay_map(log).index(k)) by {
        lemma_decode_take(log, replay_map(log).index(k), e);
    }
    assert(model_of(pre) =~= model_of(log));
}

/// The empty log describes the empty mapping.
pub proof fn lemma_empty_log()
    ensures
        replay_map(Seq::empty()) == Map::<Seq<char>, nat>::empty(),
        replay_end(Seq::empty()) == 0,
        model_of(Seq::empty()) == Map::<Seq<char>, Seq<char>>::empty(),
{
    assert(decode_spec(Seq::empty(), 0) is None);
    assert(model_of(Seq::empty()) =~= Map::<Seq<char>, Seq<char>>::empty());
}

/// Appending an encoded `Put` binds its key to its value and touches no
/// other key.
pub proof fn lemma_model_append_put(log: Seq<char>, k: Seq<char>, v: Seq<char>)
    requires
        replay_end(log) == log.len(),
    ensures
        replay_map(log + encode_spec((CommandModel::Put { key: k, value: v }))) == replay_map(
            log,
        ).insert(k, log.len()),
        replay_end(log + encode_spec((CommandModel::Put { key: k, value: v }))) == log.len()
            + encode_spec((CommandModel::Put { key: k, value: v })).len(),
        model_of(log + encode_spec((CommandModel::Put { key: k, value: v }))) == model_of(
            log,
        ).insert(k, v),
{
    let c = CommandModel::Put { key: k, value: v };
    let enc = encode_spec(c);
    let l2 = log + enc;
    lemma_replay_append(log, c);
    lemma_decode_encode(log, c, Seq::empty());
    assert(log + enc + Seq::empty() =~= l2);
    assert(value_at(l2, log.len()) == v);
    lemma_replay_valid(log);
    assert forall|k2: Seq<char>| #[trigger] replay_map(log).contains_key(k2) implies value_at(
        l2,
        replay_map(log).index(k2),
    ) == value_at(log, replay_map(log).index(k2)) by {
        lemma_decode_extend(log, enc, replay_map(log).index(k2));
    }
    assert(model_of(l2) =~= model_of(log).insert(k, v));
}

/// Appending an encoded `Rm` deletes its key and touches no other key.
pub proof fn lemma_model_append_rm(log: Seq<char>, k: Seq<char>)
    requires
        replay_end(log) == log.len(),
    ensures
        replay_map(log + encode_spec((CommandModel::Rm { key: k }))) == replay_map(log).remove(k),
        replay_end(log + encode_spec((CommandModel::Rm { key: k }))) == log.len() + encode_spec(
            (CommandModel::Rm { key: k }),
        ).len(),
        model_of(log + encode_spec((CommandModel::Rm { key: k }))) == model_of(log).remove(k),
{
    let c = CommandModel::Rm { key: k };
    let enc = encode_spec(c);
    let l2 = log + enc;
    lemma_replay_append(log, c);
    lemma_replay_valid(log);
    assert forall|k2: Seq<char>| #[trigger] replay_map(log).contains_key(k2) implies value_at(
        l2,
        replay_map(log).index(k2),
    ) == value_at(log, replay_map(log).index(k2)) by {
        lemma_decode_extend(log, enc, replay_map(log).index(k2));
    }
    assert(model_of(l2) =~= model_of(log).remove(k));
}

/// The records compaction writes: one `Put` per live index entry, in entry
/// order, each re-encoding the value its offset points at.
pub open spec fn concat_records(log: Seq<char>, entries: Seq<(Seq<char>, nat)>) -> Seq<char>
    decreases entries.len(),
{
    if entries.len() == 0 {
        Seq::empty()
    } else {
        concat_records(log, entries.drop_last()) + encode_spec(
            (CommandModel::Put { key: entries.last().0, value: value_at(log, entries.last().1) }),
        )
    }
}

/// The mapping those records describe, later entries winning.
pub open spec fn entries_model(log: Seq<char>, entries: Seq<(Seq<char>, nat)>) -> Map<
    Seq<char>,
    Seq<char>,
>
    decreases entries.len(),
{
    if entries.len() == 0 {
        Map::empty()
    } else {
        entries_model(log, entries.drop_last()).insert(
            entries.last().0,
            value_at(log, entries.last().1),
        )
    }
}

/// Replaying the compacted records yields exactly their mapping, and the
/// compacted log is fully replayed.
pub proof fn lemma_compact_model(log: Seq<char>, entries: Seq<(Seq<char>, nat)>)
    ensures
        replay_end(concat_records(log, entries)) == concat_records(log, entries).len(),
        model_of(concat_records(log, entries)) == entries_model(log, entries),
    decreases entries.len(),
{
    if entries.len() == 0 {
        lemma_empty_log();
        assert(concat_records(log, entries) =~= Seq::<char>::empty());
    } else {
        lemma_compact_model(log, entries.drop_last());
        lemma_model_append_put(
            concat_records(log, entries.drop_last()),
            entries.last().0,
            value_at(log, entries.last().1),
        );
    }
}

/// The mapping the compacted records describe agrees pointwise with the
/// entries' own mapping.
pub proof fn lemma_entries_model_map(log: Seq<char>, entries: Seq<(Seq<char>, nat)>)
    ensures
        entries_model(log, entries).dom() == map_of(entries).dom(),
        forall|k: Seq<char>| #[trigger] map_of(entries).contains_key(k) ==> entries_model(
            log,
            entries,
        ).index(k) == value_at(log, map_of(entries).index(k)),
    decreases entries.len(),
{
    if entries.len() > 0 {
        lemma_entries_model_map(log, entries.drop_last());
    }
    assert(entries_model(log, entries).dom() =~= map_of(entries).dom());
}

/// Compaction is observationally a no-op: rewriting the live records of a
/// log yields a log with exactly the same key-to-value mapping.
pub proof fn lemma_compaction_preserves(log: Seq<char>, entries: Seq<(Seq<char>, nat)>)
    requires
        map_of(entries) == replay_map(log),
    ensures
        model_of(concat_records(log, entries)) == model_of(log),
        replay_end(concat_records(log, entries)) == concat_records(log, entries).len(),
{
    lemma_compact_model(log, entries);
    lemma_entries_model_map(log, entries);
    assert(entries_model(log, entries) =~= model_of(log));
}

/// Compacting an already-compacted log is again a no-op: the mapping after
/// two compaction passes is the mapping the original log described.
pub proof fn lemma_compaction_idempotent(
    log: Seq<char>,
    entries: Seq<(Seq<char>, nat)>,
    entries2: Seq<(Seq<char>, nat)>,
)
    requires
        map_of(entries) == replay_map(log),
        map_of(entries2) == replay_map(concat_records(log, entries)),
    ensures
        model_of(concat_records(concat_records(log, entries), entries2)) == model_of(
            concat_records(log, entries),
        ),
        model_of(concat_records(concat_records(log, entries), entries2)) == model_of(log),
{
    lemma_compaction_preserves(log, entries);
    lemma_compaction_preserves(concat_records(log, entries), entries2);
}

/// Rebuilds the index by replaying a whole log; returns it with the
/// position where replay stopped, which is where the next append belongs.
pub fn replay(log: &Vec<char>) -> (r: (Index, u64))
    ensures
        r.0.wf(),
        r.0.as_map() == replay_map(log@),
        r.1 as nat == replay_end(log@),
        r.1 as nat <= log@.len(),
{
    let len = log.len();
    let mut index = Index::new();
    let mut pos: usize = 0;
    loop
        invariant
            len == log@.len(),
            pos <= log@.len(),
            index.wf(),
            replay_from(log@, pos as nat, index.as_map()) == replay_from(
                log@,
                0,
                Map::<Seq<char>, nat>::empty(),
            ),
        decreases log@.len() - pos,
    {
        match decode_at(log, pos) {
            Ok((cmd, n)) => {
                proof {
                    lemma_decode_bounds(log@, pos as nat);
                }
                let ghost m0 = index.as_map();
                match cmd {
                    Command::Put { key, value: _ } => {
                        index.insert(key, pos as u64);
                    },
                    Command::Rm { key } => {
                        index.remove(&key);
                    },
                }
                pos = pos + n;
            },
            Err(_) => {
                return (index, pos as u64);
            },
        }
    }
}

} // verus!
