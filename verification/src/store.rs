//! The prioritized training-replay store.
//!
//! `KVStore` keeps three structures for one version: the labels, keyed and
//! ordered by `event_id`; the training records, keyed and ordered the same
//! way; and the loss-ranked secondary index, one row per training record,
//! ordered by loss descending with ties broken by `event_id` ascending. The
//! store invariant `inv` pins the index to the training records: at all
//! times, every training record is mirrored by exactly one index row whose
//! loss and timestamp equal the record's current ones.

use vstd::prelude::*;
use vstd::pervasive::VecAdditionalExecFns;
use crate::FloatBits;
use crate::records::{
    VersionType, EventId, Timestamp, OffsetId, LabelStored, LabelRec, TrainStored, TrainRec,
    LossEntry, LabelLookup, LabelType, TrainStoredWithLabel, LABEL_LEN, lookup_of, entry_of,
    example_of, copy_bits,
};

verus! {

/// How far past the minimum timestamp the oldest-selection window reaches,
/// when no other window is configured.
pub const DEFAULT_OLDEST_WINDOW: i64 = 3_600_000;

/// Replay order on index rows: greater loss first, ties broken by smaller
/// `event_id` first.
pub open spec fn replay_lt(a: LossEntry, b: LossEntry) -> bool {
    a.loss > b.loss || (a.loss == b.loss && a.event_id < b.event_id)
}

/// Strictly ascending `event_id`s: sorted, and free of duplicate keys.
pub open spec fn labels_sorted(s: Seq<LabelRec>) -> bool {
    forall|i: int, j: int|
        #![trigger s[i], s[j]]
        0 <= i < j < s.len() ==> s[i].event_id < s[j].event_id
}

/// Strictly ascending `event_id`s: sorted, and free of duplicate keys.
pub open spec fn trains_sorted(s: Seq<TrainRec>) -> bool {
    forall|i: int, j: int|
        #![trigger s[i], s[j]]
        0 <= i < j < s.len() ==> s[i].event_id < s[j].event_id
}

/// The index is strictly ordered for replay: loss descending, ties by
/// `event_id` ascending.
pub open spec fn index_sorted(s: Seq<LossEntry>) -> bool {
    forall|i: int, j: int|
        #![trigger s[i], s[j]]
        0 <= i < j < s.len() ==> replay_lt(s[i], s[j])
}

/// No two index rows share an `event_id`.
pub open spec fn index_ids_distinct(s: Seq<LossEntry>) -> bool {
    forall|i: int, j: int|
        #![trigger s[i], s[j]]
        0 <= i < j < s.len() ==> s[i].event_id != s[j].event_id
}

/// The row mirrors some training record, field for field.
pub open spec fn entry_matches_some_train(e: LossEntry, trains: Seq<TrainRec>) -> bool {
    exists|j: int| 0 <= j < trains.len() && e == entry_of(#[trigger] trains[j])
}

/// The training record is mirrored by some index row, field for field.
pub open spec fn train_has_entry(t: TrainRec, index: Seq<LossEntry>) -> bool {
    exists|i: int| 0 <= i < index.len() && #[trigger] index[i] == entry_of(t)
}

/// Every index row mirrors some training record.
pub open spec fn index_sound(index: Seq<LossEntry>, trains: Seq<TrainRec>) -> bool {
    forall|i: int| 0 <= i < index.len() ==> entry_matches_some_train(#[trigger] index[i], trains)
}

/// Every training record is mirrored by some index row.
pub open spec fn index_complete(index: Seq<LossEntry>, trains: Seq<TrainRec>) -> bool {
    forall|j: int| 0 <= j < trains.len() ==> train_has_entry(#[trigger] trains[j], index)
}

/// Mathematical view of the whole store.
#[verifier::ext_equal]
pub ghost struct StoreView {
    pub version: VersionType,
    pub oldest_window: i64,
    pub labels: Seq<LabelRec>,
    pub trains: Seq<TrainRec>,
    pub index: Seq<LossEntry>,
}

/// The store invariant. Beyond the orderings, it is the loss-index lock-step
/// guarantee: rows of the index and training records are in one-to-one
/// correspondence, so no record ever has a stale, duplicate or missing index
/// row.
pub open spec fn store_inv(v: StoreView) -> bool {
    &&& 0 <= v.oldest_window
    &&& labels_sorted(v.labels)
    &&& forall|i: int| 0 <= i < v.labels.len() ==> (#[trigger] v.labels[i]).wf()
    &&& trains_sorted(v.trains)
    &&& forall|i: int| 0 <= i < v.trains.len() ==> (#[trigger] v.trains[i]).wf()
    &&& index_sorted(v.index)
    &&& index_ids_distinct(v.index)
    &&& index_sound(v.index, v.trains)
    &&& index_complete(v.index, v.trains)
}

/// The smallest position whose `event_id` is at least `id`; the length if
/// every key is smaller.
pub open spec fn lab_find(s: Seq<LabelRec>, id: EventId) -> int
    decreases s.len(),
{
    if s.len() == 0 {
        0
    } else if s[0].event_id >= id {
        0
    } else {
        1 + lab_find(s.drop_first(), id)
    }
}

pub proof fn lemma_lab_find(s: Seq<LabelRec>, id: EventId)
    ensures
        0 <= lab_find(s, id) <= s.len(),
        forall|j: int| 0 <= j < lab_find(s, id) ==> (#[trigger] s[j]).event_id < id,
        lab_find(s, id) < s.len() ==> s[lab_find(s, id)].event_id >= id,
    decreases s.len(),
{
    if s.len() > 0 && s[0].event_id < id {
        lemma_lab_find(s.drop_first(), id);
        assert forall|j: int| 0 <= j < lab_find(s, id) implies (#[trigger] s[j]).event_id
            < id by {
            if j > 0 {
                assert(s[j] == s.drop_first()[j - 1]);
            }
        }
        if lab_find(s, id) < s.len() {
            assert(s[lab_find(s, id)] == s.drop_first()[lab_find(s.drop_first(), id)]);
        }
    }
}

/// The labels after an upsert: replace the record with the same key if one
/// exists, otherwise insert at the key's position.
pub open spec fn lab_upsert(s: Seq<LabelRec>, l: LabelRec) -> Seq<LabelRec> {
    let p = lab_find(s, l.event_id);
    if p < s.len() && s[p].event_id == l.event_id {
        s.update(p, l)
    } else {
        s.insert(p, l)
    }
}

/// The smallest position whose `event_id` is at least `id`; the length if
/// every key is smaller.
pub open spec fn train_find(s: Seq<TrainRec>, id: EventId) -> int
    decreases s.len(),
{
    if s.len() == 0 {
        0
    } else if s[0].event_id >= id {
        0
    } else {
        1 + train_find(s.drop_first(), id)
    }
}

pub proof fn lemma_train_find(s: Seq<TrainRec>, id: EventId)
    ensures
        0 <= train_find(s, id) <= s.len(),
        forall|j: int| 0 <= j < train_find(s, id) ==> (#[trigger] s[j]).event_id < id,
        train_find(s, id) < s.len() ==> s[train_find(s, id)].event_id >= id,
    decreases s.len(),
{
    if s.len() > 0 && s[0].event_id < id {
        lemma_train_find(s.drop_first(), id);
        assert forall|j: int| 0 <= j < train_find(s, id) implies (#[trigger] s[j]).event_id
            < id by {
            if j > 0 {
                assert(s[j] == s.drop_first()[j - 1]);
            }
        }
        if train_find(s, id) < s.len() {
            assert(s[train_find(s, id)] == s.drop_first()[train_find(s.drop_first(), id)]);
        }
    }
}

/// The smallest position before which `e` belongs in replay order; the
/// length if `e` belongs at the end.
pub open spec fn idx_find(s: Seq<LossEntry>, e: LossEntry) -> int
    decreases s.len(),
{
    if s.len() == 0 {
        0
    } else if replay_lt(e, s[0]) {
        0
    } else {
        1 + idx_find(s.drop_first(), e)
    }
}

pub proof fn lemma_idx_find(s: Seq<LossEntry>, e: LossEntry)
    ensures
        0 <= idx_find(s, e) <= s.len(),
        forall|j: int| 0 <= j < idx_find(s, e) ==> !replay_lt(e, #[trigger] s[j]),
        idx_find(s, e) < s.len() ==> replay_lt(e, s[idx_find(s, e)]),
    decreases s.len(),
{
    if s.len() > 0 && !replay_lt(e, s[0]) {
        lemma_idx_find(s.drop_first(), e);
        assert forall|j: int| 0 <= j < idx_find(s, e) implies !replay_lt(e, #[trigger] s[j]) by {
            if j > 0 {
                assert(s[j] == s.drop_first()[j - 1]);
            }
        }
        if idx_find(s, e) < s.len() {
            assert(s[idx_find(s, e)] == s.drop_first()[idx_find(s.drop_first(), e)]);
        }
    }
}

/// True when some training record has the key.
pub open spec fn has_train_id(s: Seq<TrainRec>, id: EventId) -> bool {
    exists|j: int| 0 <= j < s.len() && (#[trigger] s[j]).event_id == id
}

/// The training records after an upsert: replace the record with the same
/// key if one exists, otherwise insert at the key's position.
pub open spec fn train_upsert(s: Seq<TrainRec>, t: TrainRec) -> Seq<TrainRec> {
    let p = train_find(s, t.event_id);
    if p < s.len() && s[p].event_id == t.event_id {
        s.update(p, t)
    } else {
        s.insert(p, t)
    }
}

/// The index with the row for `id` taken out, if it has one.
pub open spec fn index_without(index: Seq<LossEntry>, id: EventId) -> Seq<LossEntry> {
    let q = idx_pos_id(index, id);
    if q < index.len() {
        index.remove(q)
    } else {
        index
    }
}

/// The index after the atomic replace for `t`'s key: the old row leaves and
/// the row carrying `t`'s current loss and timestamp enters, as one step.
pub open spec fn index_replace(index: Seq<LossEntry>, t: TrainRec) -> Seq<LossEntry> {
    let rm = index_without(index, t.event_id);
    rm.insert(idx_find(rm, entry_of(t)), entry_of(t))
}

/// The record after one retraining pass: the timestamp, the model's output
/// and the loss move; the key, the offsets and the input stay.
pub open spec fn retrained(
    t: TrainRec,
    out: Seq<FloatBits>,
    loss: FloatBits,
    ts: Timestamp,
) -> TrainRec {
    TrainRec { timestamp: ts, output: out, loss: loss, ..t }
}

/// The index holds one row for `id` carrying exactly the given loss and
/// timestamp, and no other row for `id`.
pub open spec fn exactly_one_entry(
    index: Seq<LossEntry>,
    id: EventId,
    loss: FloatBits,
    ts: Timestamp,
) -> bool {
    &&& exists|i: int|
        0 <= i < index.len() && #[trigger] index[i] == (LossEntry {
            event_id: id,
            timestamp: ts,
            loss: loss,
        })
    &&& forall|i: int, j: int|
        #![trigger index[i], index[j]]
        0 <= i < j < index.len() ==> !(index[i].event_id == id && index[j].event_id == id)
}

/// Replay order is total across rows with different keys.
proof fn lemma_replay_total(a: LossEntry, b: LossEntry)
    requires
        a.event_id != b.event_id,
    ensures
        replay_lt(a, b) || replay_lt(b, a),
{
}

/// Upserting a training record and atomically replacing its index row
/// preserves every part of the store invariant, and leaves exactly one index
/// row for the key, carrying the record's current loss and timestamp.
#[verifier::rlimit(60)]
proof fn lemma_upsert_preserves_inv(trains: Seq<TrainRec>, index: Seq<LossEntry>, t: TrainRec)
    requires
        trains_sorted(trains),
        forall|i: int| 0 <= i < trains.len() ==> (#[trigger] trains[i]).wf(),
        index_sorted(index),
        index_ids_distinct(index),
        index_sound(index, trains),
        index_complete(index, trains),
        t.wf(),
    ensures
        trains_sorted(train_upsert(trains, t)),
        forall|i: int|
            0 <= i < train_upsert(trains, t).len() ==> (#[trigger] train_upsert(trains, t)[i]).wf(),
        index_sorted(index_replace(index, t)),
        index_ids_distinct(index_replace(index, t)),
        index_sound(index_replace(index, t), train_upsert(trains, t)),
        index_complete(index_replace(index, t), train_upsert(trains, t)),
        exactly_one_entry(index_replace(index, t), t.event_id, t.loss, t.timestamp),
{
    let id = t.event_id;
    let e = entry_of(t);
    lemma_train_find(trains, id);
    let p = train_find(trains, id);
    let tn = train_upsert(trains, t);
    let hit = p < trains.len() && trains[p].event_id == id;
    lemma_idx_pos_id(index, id);
    let q = idx_pos_id(index, id);
    let rm = index_without(index, id);
    lemma_idx_find(rm, e);
    let r = idx_find(rm, e);
    let fin = rm.insert(r, e);

    // The new training records stay strictly ordered and well formed, and
    // only position `p` can carry the key.
    assert forall|a: int, b: int|
        #![trigger tn[a], tn[b]]
        0 <= a < b < tn.len() implies tn[a].event_id < tn[b].event_id by {
        if hit {
            assert(tn[a] == if a == p { t } else { trains[a] });
            assert(tn[b] == if b == p { t } else { trains[b] });
        } else {
            if a < p && b > p {
                assert(tn[a] == trains[a] && tn[b] == trains[b - 1]);
                assert(trains[b - 1].event_id >= id && trains[b - 1].event_id != id);
            } else if a == p {
                assert(tn[b] == trains[b - 1]);
                assert(trains[b - 1].event_id >= id && trains[b - 1].event_id != id);
            } else if b == p {
                assert(tn[a] == trains[a]);
            } else if b < p {
                assert(tn[a] == trains[a] && tn[b] == trains[b]);
            } else {
                assert(tn[a] == trains[a - 1] && tn[b] == trains[b - 1]);
            }
        }
    }
    assert forall|i: int| 0 <= i < tn.len() implies (#[trigger] tn[i]).wf() by {
        if hit {
            assert(tn[i] == if i == p { t } else { trains[i] });
        } else {
            assert(tn[i] == if i < p {
                trains[i]
            } else if i == p {
                t
            } else {
                trains[i - 1]
            });
        }
    }
    // If the key was absent, no old training record carries it.
    assert forall|m: int| 0 <= m < trains.len() && !hit implies (#[trigger] trains[m]).event_id
        != id by {
        if m >= p {
            assert(trains[m].event_id >= trains[p].event_id);
        }
    }

    // The remainder after taking the old row out: ordered, distinct, free of
    // the key, and still sound.
    assert forall|i: int| 0 <= i < rm.len() implies (#[trigger] rm[i]).event_id != id by {
        if q < index.len() {
            assert(rm[i] == if i < q { index[i] } else { index[i + 1] });
        }
    }
    assert forall|a: int, b: int|
        #![trigger rm[a], rm[b]]
        0 <= a < b < rm.len() implies replay_lt(rm[a], rm[b]) && rm[a].event_id
        != rm[b].event_id by {
        if q < index.len() {
            assert(rm[a] == if a < q { index[a] } else { index[a + 1] });
            assert(rm[b] == if b < q { index[b] } else { index[b + 1] });
        }
    }
    assert forall|i: int| 0 <= i < rm.len() implies entry_matches_some_train(
        #[trigger] rm[i],
        trains,
    ) by {
        if q < index.len() {
            assert(rm[i] == if i < q { index[i] } else { index[i + 1] });
        }
    }

    // The final index: the new row sits at its replay position among rows
    // with other keys.
    assert forall|a: int, b: int|
        #![trigger fin[a], fin[b]]
        0 <= a < b < fin.len() implies replay_lt(fin[a], fin[b]) by {
        if a < r && b < r {
            assert(fin[a] == rm[a] && fin[b] == rm[b]);
        } else if a < r && b == r {
            assert(fin[a] == rm[a] && fin[b] == e);
            assert(!replay_lt(e, rm[a]));
            lemma_replay_total(rm[a], e);
        } else if a < r && b > r {
            assert(fin[a] == rm[a] && fin[b] == rm[b - 1]);
        } else if a == r {
            assert(fin[a] == e && fin[b] == rm[b - 1]);
            if b - 1 > r {
                assert(replay_lt(e, rm[r]) && replay_lt(rm[r], rm[b - 1]));
            }
        } else {
            assert(fin[a] == rm[a - 1] && fin[b] == rm[b - 1]);
        }
    }
    assert forall|a: int, b: int|
        #![trigger fin[a], fin[b]]
        0 <= a < b < fin.len() implies fin[a].event_id != fin[b].event_id by {
        assert(fin[a] == if a < r { rm[a] } else if a == r { e } else { rm[a - 1] });
        assert(fin[b] == if b < r { rm[b] } else if b == r { e } else { rm[b - 1] });
    }

    // Soundness: every final row mirrors a new training record.
    assert forall|i: int| 0 <= i < fin.len() implies entry_matches_some_train(
        #[trigger] fin[i],
        tn,
    ) by {
        if i == r {
            assert(tn[p as int] == t);
            assert(fin[i] == entry_of(tn[p as int]));
        } else {
            let i2 = if i < r { i } else { i - 1 };
            assert(fin[i] == rm[i2]);
            assert(entry_matches_some_train(rm[i2], trains));
            let w = choose|w: int| 0 <= w < trains.len() && rm[i2] == entry_of(#[trigger] trains[w]);
            assert(trains[w].event_id != id);
            if hit {
                assert(w != p);
                assert(tn[w] == trains[w]);
                assert(fin[i] == entry_of(tn[w]));
            } else {
                let w2 = if w < p { w } else { w + 1 };
                assert(tn[w2] == trains[w]);
                assert(fin[i] == entry_of(tn[w2]));
            }
        }
    }

    // Completeness: every new training record is mirrored by a final row.
    assert forall|j: int| 0 <= j < tn.len() implies train_has_entry(#[trigger] tn[j], fin) by {
        if j == p {
            assert(tn[j] == t);
            assert(fin[r] == entry_of(tn[j]));
        } else {
            let m = if hit || j < p { j } else { j - 1 };
            assert(tn[j] == trains[m]);
            assert(trains[m].event_id != id);
            assert(train_has_entry(trains[m], index));
            let k = choose|k: int| 0 <= k < index.len() && #[trigger] index[k] == entry_of(
                trains[m],
            );
            assert(index[k].event_id != id);
            let k2 = if q < index.len() && k > q { k - 1 } else { k };
            assert(k != q || q >= index.len());
            assert(rm[k2] == index[k]);
            let k3 = if k2 < r { k2 } else { k2 + 1 };
            assert(fin[k3] == rm[k2]);
            assert(fin[k3] == entry_of(tn[j]));
        }
    }

    // Exactly one row for the key, carrying the record's current loss and
    // timestamp.
    assert(fin[r] == (LossEntry { event_id: id, timestamp: t.timestamp, loss: t.loss }));
    assert forall|i: int, j: int|
        #![trigger fin[i], fin[j]]
        0 <= i < j < fin.len() implies !(fin[i].event_id == id && fin[j].event_id == id) by {
        assert(fin[i].event_id != fin[j].event_id);
    }
}

/// The views of a batch of training records, in order.
pub open spec fn train_views(vs: Seq<TrainStored>) -> Seq<TrainRec> {
    vs.map_values(|t: TrainStored| t@)
}

/// The views of a batch of label vectors, in order.
pub open spec fn label_views(vs: Seq<LabelType>) -> Seq<Seq<FloatBits>> {
    vs.map_values(|o: LabelType| o@)
}

/// The store after one record's upsert and atomic index replace.
pub open spec fn store_step(v: StoreView, t: TrainRec) -> StoreView {
    StoreView { trains: train_upsert(v.trains, t), index: index_replace(v.index, t), ..v }
}

/// The store after a bulk write: the union of the per-record upserts,
/// applied in order.
pub open spec fn store_after(v: StoreView, ts: Seq<TrainRec>) -> StoreView
    decreases ts.len(),
{
    if ts.len() == 0 {
        v
    } else {
        store_after(store_step(v, ts[0]), ts.drop_first())
    }
}

proof fn lemma_store_after_push(v: StoreView, ts: Seq<TrainRec>, t: TrainRec)
    ensures
        store_after(v, ts.push(t)) == store_step(store_after(v, ts), t),
    decreases ts.len(),
{
    if ts.len() == 0 {
        assert(ts.push(t)[0] == t);
        assert(ts.push(t).drop_first() =~= ts);
        assert(store_after(v, ts.push(t)) == store_after(store_step(v, t), ts));
        assert(store_after(store_step(v, t), ts) == store_step(v, t));
        assert(store_after(v, ts) == v);
    } else {
        assert(ts.push(t)[0] == ts[0]);
        assert(ts.push(t).drop_first() =~= ts.drop_first().push(t));
        assert(store_after(v, ts.push(t)) == store_after(
            store_step(v, ts[0]),
            ts.drop_first().push(t),
        ));
        lemma_store_after_push(store_step(v, ts[0]), ts.drop_first(), t);
        assert(store_after(v, ts) == store_after(store_step(v, ts[0]), ts.drop_first()));
    }
}

/// The store after one row of a retraining batch: the record with the key,
/// if any, takes the new output, loss and timestamp, with its index row
/// atomically replaced; a row with an unknown key changes nothing.
pub open spec fn update_step(
    v: StoreView,
    id: EventId,
    out: Seq<FloatBits>,
    loss: FloatBits,
    ts: Timestamp,
) -> StoreView {
    if has_train_id(v.trains, id) {
        let p = train_find(v.trains, id);
        let t2 = retrained(v.trains[p], out, loss, ts);
        StoreView { trains: v.trains.update(p, t2), index: index_replace(v.index, t2), ..v }
    } else {
        v
    }
}

/// The store after a whole retraining batch, applied in order.
pub open spec fn updates_after(
    v: StoreView,
    ids: Seq<EventId>,
    outs: Seq<Seq<FloatBits>>,
    losses: Seq<FloatBits>,
    ts: Timestamp,
) -> StoreView
    decreases ids.len(),
{
    if ids.len() == 0 {
        v
    } else {
        updates_after(
            update_step(v, ids[0], outs[0], losses[0], ts),
            ids.drop_first(),
            outs.drop_first(),
            losses.drop_first(),
            ts,
        )
    }
}

/// How many rows of a retraining batch matched an existing record.
pub open spec fn updates_count(
    v: StoreView,
    ids: Seq<EventId>,
    outs: Seq<Seq<FloatBits>>,
    losses: Seq<FloatBits>,
    ts: Timestamp,
) -> int
    decreases ids.len(),
{
    if ids.len() == 0 {
        0
    } else {
        (if has_train_id(v.trains, ids[0]) {
            1int
        } else {
            0int
        }) + updates_count(
            update_step(v, ids[0], outs[0], losses[0], ts),
            ids.drop_first(),
            outs.drop_first(),
            losses.drop_first(),
            ts,
        )
    }
}

proof fn lemma_updates_push(
    v: StoreView,
    ids: Seq<EventId>,
    outs: Seq<Seq<FloatBits>>,
    losses: Seq<FloatBits>,
    ts: Timestamp,
    id: EventId,
    out: Seq<FloatBits>,
    loss: FloatBits,
)
    requires
        ids.len() == outs.len(),
        ids.len() == losses.len(),
    ensures
        updates_after(v, ids.push(id), outs.push(out), losses.push(loss), ts) == update_step(
            updates_after(v, ids, outs, losses, ts),
            id,
            out,
            loss,
            ts,
        ),
        updates_count(v, ids.push(id), outs.push(out), losses.push(loss), ts) == updates_count(
            v,
            ids,
            outs,
            losses,
            ts,
        ) + (if has_train_id(updates_after(v, ids, outs, losses, ts).trains, id) {
            1int
        } else {
            0int
        }),
    decreases ids.len(),
{
    if ids.len() == 0 {
        assert(ids.push(id)[0] == id);
        assert(outs.push(out)[0] == out);
        assert(losses.push(loss)[0] == loss);
        assert(ids.push(id).drop_first() =~= ids);
        assert(outs.push(out).drop_first() =~= outs);
        assert(losses.push(loss).drop_first() =~= losses);
        let v1 = update_step(v, id, out, loss, ts);
        assert(updates_after(v, ids.push(id), outs.push(out), losses.push(loss), ts)
            == updates_after(v1, ids, outs, losses, ts));
        assert(updates_after(v1, ids, outs, losses, ts) == v1);
        assert(updates_after(v, ids, outs, losses, ts) == v);
        assert(updates_count(v, ids.push(id), outs.push(out), losses.push(loss), ts)
            == (if has_train_id(v.trains, id) { 1int } else { 0int })
                + updates_count(v1, ids, outs, losses, ts));
        assert(updates_count(v1, ids, outs, losses, ts) == 0);
        assert(updates_count(v, ids, outs, losses, ts) == 0);
    } else {
        assert(ids.push(id)[0] == ids[0]);
        assert(outs.push(out)[0] == outs[0]);
        assert(losses.push(loss)[0] == losses[0]);
        assert(ids.push(id).drop_first() =~= ids.drop_first().push(id));
        assert(outs.push(out).drop_first() =~= outs.drop_first().push(out));
        assert(losses.push(loss).drop_first() =~= losses.drop_first().push(loss));
        let v1 = update_step(v, ids[0], outs[0], losses[0], ts);
        assert(updates_after(v, ids.push(id), outs.push(out), losses.push(loss), ts)
            == updates_after(
            v1,
            ids.drop_first().push(id),
            outs.drop_first().push(out),
            losses.drop_first().push(loss),
            ts,
        ));
        assert(updates_count(v, ids.push(id), outs.push(out), losses.push(loss), ts)
            == (if has_train_id(v.trains, ids[0]) { 1int } else { 0int })
                + updates_count(
            v1,
            ids.drop_first().push(id),
            outs.drop_first().push(out),
            losses.drop_first().push(loss),
            ts,
        ));
        lemma_updates_push(
            v1,
            ids.drop_first(),
            outs.drop_first(),
            losses.drop_first(),
            ts,
            id,
            out,
            loss,
        );
        assert(updates_after(v, ids, outs, losses, ts) == updates_after(
            v1,
            ids.drop_first(),
            outs.drop_first(),
            losses.drop_first(),
            ts,
        ));
        assert(updates_count(v, ids, outs, losses, ts) == (if has_train_id(v.trains, ids[0]) {
            1int
        } else {
            0int
        }) + updates_count(v1, ids.drop_first(), outs.drop_first(), losses.drop_first(), ts));
    }
}

/// Age order on index rows: earlier timestamp first, ties broken by
/// `event_id`, then by loss. Total, so ordering by it is deterministic.
pub open spec fn age_le(a: LossEntry, b: LossEntry) -> bool {
    ||| a.timestamp < b.timestamp
    ||| (a.timestamp == b.timestamp && a.event_id < b.event_id)
    ||| (a.timestamp == b.timestamp && a.event_id == b.event_id && a.loss <= b.loss)
}

/// The age order as a relation value, for sorting.
pub open spec fn age_order() -> spec_fn(LossEntry, LossEntry) -> bool {
    |a: LossEntry, b: LossEntry| age_le(a, b)
}

/// The age order is a total order.
pub proof fn lemma_age_total()
    ensures
        vstd::relations::total_ordering(age_order()),
{
    let f = age_order();
    assert forall|a: LossEntry| #[trigger] f(a, a) by {}
    assert forall|a: LossEntry, b: LossEntry| #[trigger] f(a, b) && #[trigger] f(b, a) implies a
        == b by {}
    assert forall|a: LossEntry, b: LossEntry, c: LossEntry|
        #[trigger] f(a, b) && #[trigger] f(b, c) implies f(a, c) by {}
    assert forall|a: LossEntry, b: LossEntry| !(#[trigger] f(a, b)) implies f(b, a) by {}
}

/// The smallest timestamp among the given training records.
pub open spec fn min_timestamp(s: Seq<TrainRec>) -> Timestamp
    recommends
        s.len() > 0,
    decreases s.len(),
{
    if s.len() == 0 {
        0
    } else if s.len() == 1 {
        s[0].timestamp
    } else {
        let m = min_timestamp(s.drop_first());
        if s[0].timestamp <= m {
            s[0].timestamp
        } else {
            m
        }
    }
}

pub proof fn lemma_min_timestamp(s: Seq<TrainRec>)
    requires
        s.len() > 0,
    ensures
        forall|j: int| 0 <= j < s.len() ==> min_timestamp(s) <= (#[trigger] s[j]).timestamp,
        exists|j: int| 0 <= j < s.len() && min_timestamp(s) == (#[trigger] s[j]).timestamp,
    decreases s.len(),
{
    if s.len() == 1 {
        assert(min_timestamp(s) == s[0].timestamp);
    } else {
        lemma_min_timestamp(s.drop_first());
        assert forall|j: int| 0 <= j < s.len() implies min_timestamp(s)
            <= (#[trigger] s[j]).timestamp by {
            if j > 0 {
                assert(s[j] == s.drop_first()[j - 1]);
            }
        }
        if min_timestamp(s) == s[0].timestamp {
            assert(min_timestamp(s) == s[0].timestamp);
        } else {
            let w = choose|w: int|
                0 <= w < s.drop_first().len() && min_timestamp(s.drop_first()) == (
                #[trigger] s.drop_first()[w]).timestamp;
            assert(s[w + 1] == s.drop_first()[w]);
            assert(min_timestamp(s) == s[w + 1].timestamp);
        }
    }
}

/// A record lies inside the oldest-selection window.
pub open spec fn within_window(t: TrainRec, bound: int) -> bool {
    t.timestamp <= bound
}

/// The training records inside the window, in storage order.
pub open spec fn window_rows(ts: Seq<TrainRec>, bound: int) -> Seq<TrainRec> {
    ts.filter(|t: TrainRec| within_window(t, bound))
}

/// The index rows of the training records inside the window, in storage
/// order.
pub open spec fn pool_of(ts: Seq<TrainRec>, bound: int) -> Seq<LossEntry> {
    window_rows(ts, bound).map_values(|t: TrainRec| entry_of(t))
}

/// The timestamp bound of the oldest-selection window: the minimum stored
/// timestamp plus the configured tolerance.
pub open spec fn window_bound(v: StoreView) -> int {
    min_timestamp(v.trains) + v.oldest_window
}

/// The rows an oldest-selection draws from: every training record inside
/// the window.
pub open spec fn oldest_pool(v: StoreView) -> Seq<LossEntry> {
    pool_of(v.trains, window_bound(v))
}

/// What an oldest-selection for `k` returns: the pool ordered by age,
/// truncated to `k`.
pub open spec fn oldest_selection(v: StoreView, k: int) -> Seq<LossEntry> {
    let sorted = oldest_pool(v).sort_by(age_order());
    sorted.take(
        if sorted.len() <= k {
            sorted.len() as int
        } else {
            k
        },
    )
}

/// A data-integrity fault: an ordering violation upstream, surfaced rather
/// than silently skipped.
#[derive(Clone, Copy, Debug, PartialEq, Eq, Structural)]
pub enum IntegrityFault {
    /// A training record exists whose `event_id` has no stored label.
    MissingLabel(EventId),
    /// No training record exists, so no offset is safe to serve yet.
    NoTrainedRows,
}

/// True when some stored label has the key.
pub open spec fn has_label_id(labels: Seq<LabelRec>, id: EventId) -> bool {
    exists|i: int| 0 <= i < labels.len() && (#[trigger] labels[i]).event_id == id
}

/// The stored label with the key, where one exists.
pub open spec fn label_at(labels: Seq<LabelRec>, id: EventId) -> LabelRec {
    labels[lab_find(labels, id)]
}

/// The stored training record with the key, where one exists.
pub open spec fn train_at(trains: Seq<TrainRec>, id: EventId) -> TrainRec {
    trains[train_find(trains, id)]
}

/// True when some row carries the key.
pub open spec fn entry_id_in(rows: Seq<LossEntry>, id: EventId) -> bool {
    exists|i: int| 0 <= i < rows.len() && (#[trigger] rows[i]).event_id == id
}

/// What a top-loss query for `k` returns: the first `k` rows of the index.
pub open spec fn top_selection(v: StoreView, k: int) -> Seq<LossEntry> {
    v.index.take(
        if v.index.len() <= k {
            v.index.len() as int
        } else {
            k
        },
    )
}

/// The oldest rows whose keys the top-loss rows do not already carry.
pub open spec fn dedup_rest(rest: Seq<LossEntry>, first: Seq<LossEntry>) -> Seq<LossEntry> {
    rest.filter(|e: LossEntry| !entry_id_in(first, e.event_id))
}

/// The rows a retrainer selection consists of: the top-loss rows first, in
/// descending-loss order, then the oldest rows not already selected, in
/// ascending-timestamp order.
pub open spec fn selection(v: StoreView, top_count: int, old_count: int) -> Seq<LossEntry> {
    top_selection(v, top_count) + dedup_rest(
        oldest_selection(v, old_count),
        top_selection(v, top_count),
    )
}

/// The loss-index lock-step law: in any store satisfying the invariant,
/// every training record is mirrored by exactly one index row, and that row
/// carries the record's current loss and timestamp.
pub proof fn lemma_index_in_lockstep(v: StoreView, j: int)
    requires
        store_inv(v),
        0 <= j < v.trains.len(),
    ensures
        exactly_one_entry(v.index, v.trains[j].event_id, v.trains[j].loss, v.trains[j].timestamp),
{
    assert(train_has_entry(v.trains[j], v.index));
    let i = choose|i: int| 0 <= i < v.index.len() && #[trigger] v.index[i] == entry_of(v.trains[j]);
    assert(v.index[i] == (LossEntry {
        event_id: v.trains[j].event_id,
        timestamp: v.trains[j].timestamp,
        loss: v.trains[j].loss,
    }));
}

/// Inserting into a sequence inserts into its multiset.
proof fn lemma_insert_multiset(s: Seq<LossEntry>, i: int, x: LossEntry)
    requires
        0 <= i <= s.len(),
    ensures
        s.insert(i, x).to_multiset() =~= s.to_multiset().insert(x),
{
    broadcast use vstd::seq_lib::group_to_multiset_ensures;
    broadcast use vstd::multiset::group_multiset_axioms;

    let t = s.insert(i, x);
    assert(t.remove(i) =~= s);
    assert(t.remove(i).to_multiset() =~= t.to_multiset().remove(t[i]));
    assert(t[i] == x);
    assert(t.contains(x)) by {
        assert(t[i] == x);
    }
    assert(t.to_multiset().count(x) > 0);
    assert forall|y: LossEntry| s.to_multiset().insert(x).count(y) == t.to_multiset().count(
        y,
    ) by {
        assert(s.to_multiset() =~= t.to_multiset().remove(x));
    }
}

/// Holds of the labels a lookup from `start` must serve: those covering
/// offsets at or past the watermark.
pub open spec fn label_at_or_past(l: LabelRec, start: OffsetId) -> bool {
    l.offset_from >= start
}

/// The stored labels a lookup from `start` draws from, in storage order.
pub open spec fn labels_from(s: Seq<LabelRec>, start: OffsetId) -> Seq<LabelRec> {
    s.filter(|l: LabelRec| label_at_or_past(l, start))
}

/// The position of the index row with key `id`; the length if there is none.
pub open spec fn idx_pos_id(s: Seq<LossEntry>, id: EventId) -> int
    decreases s.len(),
{
    if s.len() == 0 {
        0
    } else if s[0].event_id == id {
        0
    } else {
        1 + idx_pos_id(s.drop_first(), id)
    }
}

pub proof fn lemma_idx_pos_id(s: Seq<LossEntry>, id: EventId)
    ensures
        0 <= idx_pos_id(s, id) <= s.len(),
        forall|j: int| 0 <= j < idx_pos_id(s, id) ==> (#[trigger] s[j]).event_id != id,
        idx_pos_id(s, id) < s.len() ==> s[idx_pos_id(s, id)].event_id == id,
    decreases s.len(),
{
    if s.len() > 0 && s[0].event_id != id {
        lemma_idx_pos_id(s.drop_first(), id);
        assert forall|j: int| 0 <= j < idx_pos_id(s, id) implies (#[trigger] s[j]).event_id
            != id by {
            if j > 0 {
                assert(s[j] == s.drop_first()[j - 1]);
            }
        }
        if idx_pos_id(s, id) < s.len() {
            assert(s[idx_pos_id(s, id)] == s.drop_first()[idx_pos_id(s.drop_first(), id)]);
        }
    }
}

/// Scans for the first label whose key is at least `id`.
fn find_label_pos(labels: &Vec<LabelStored>, id: EventId) -> (p: usize)
    ensures
        p <= labels@.len(),
        forall|j: int| 0 <= j < p ==> (#[trigger] labels@[j])@.event_id < id,
        p < labels@.len() ==> labels@[p as int]@.event_id >= id,
{
    let mut i: usize = 0;
    while i < labels.len()
        invariant_except_break
            i <= labels@.len(),
            forall|j: int| 0 <= j < i ==> (#[trigger] labels@[j])@.event_id < id,
        ensures
            i <= labels@.len(),
            forall|j: int| 0 <= j < i ==> (#[trigger] labels@[j])@.event_id < id,
            i < labels@.len() ==> labels@[i as int]@.event_id >= id,
        decreases labels@.len() - i,
    {
        if labels[i].event_id >= id {
            break;
        }
        i += 1;
    }
    i
}

/// Scans for the first training record whose key is at least `id`.
fn find_train_pos(trains: &Vec<TrainStored>, id: EventId) -> (p: usize)
    ensures
        p <= trains@.len(),
        forall|j: int| 0 <= j < p ==> (#[trigger] trains@[j])@.event_id < id,
        p < trains@.len() ==> trains@[p as int]@.event_id >= id,
{
    let mut i: usize = 0;
    while i < trains.len()
        invariant_except_break
            i <= trains@.len(),
            forall|j: int| 0 <= j < i ==> (#[trigger] trains@[j])@.event_id < id,
        ensures
            i <= trains@.len(),
            forall|j: int| 0 <= j < i ==> (#[trigger] trains@[j])@.event_id < id,
            i < trains@.len() ==> trains@[i as int]@.event_id >= id,
        decreases trains@.len() - i,
    {
        if trains[i].event_id >= id {
            break;
        }
        i += 1;
    }
    i
}

/// Scans for the index row with key `id`.
fn find_entry_pos(index: &Vec<LossEntry>, id: EventId) -> (p: usize)
    ensures
        p <= index@.len(),
        forall|j: int| 0 <= j < p ==> (#[trigger] index@[j]).event_id != id,
        p < index@.len() ==> index@[p as int].event_id == id,
{
    let mut i: usize = 0;
    while i < index.len()
        invariant_except_break
            i <= index@.len(),
            forall|j: int| 0 <= j < i ==> (#[trigger] index@[j]).event_id != id,
        ensures
            i <= index@.len(),
            forall|j: int| 0 <= j < i ==> (#[trigger] index@[j]).event_id != id,
            i < index@.len() ==> index@[i as int].event_id == id,
        decreases index@.len() - i,
    {
        if index[i].event_id == id {
            break;
        }
        i += 1;
    }
    i
}

/// Scans for the first index row the new row must precede in replay order.
fn find_insert_pos(index: &Vec<LossEntry>, e: LossEntry) -> (p: usize)
    ensures
        p <= index@.len(),
        forall|j: int| 0 <= j < p ==> !replay_lt(e, #[trigger] index@[j]),
        p < index@.len() ==> replay_lt(e, index@[p as int]),
{
    let mut i: usize = 0;
    while i < index.len()
        invariant_except_break
            i <= index@.len(),
            forall|j: int| 0 <= j < i ==> !replay_lt(e, #[trigger] index@[j]),
        ensures
            i <= index@.len(),
            forall|j: int| 0 <= j < i ==> !replay_lt(e, #[trigger] index@[j]),
            i < index@.len() ==> replay_lt(e, index@[i as int]),
        decreases index@.len() - i,
    {
        let cur = index[i];
        if e.loss > cur.loss || (e.loss == cur.loss && e.event_id < cur.event_id) {
            break;
        }
        i += 1;
    }
    i
}

/// Decides whether some row carries the key.
fn contains_id(rows: &Vec<LossEntry>, id: EventId) -> (r: bool)
    ensures
        r == entry_id_in(rows@, id),
{
    let mut i: usize = 0;
    while i < rows.len()
        invariant_except_break
            i <= rows@.len(),
            forall|j: int| 0 <= j < i ==> (#[trigger] rows@[j]).event_id != id,
        ensures
            (i < rows@.len() && rows@[i as int].event_id == id) || (i == rows@.len() && forall|
                j: int,
            |
                0 <= j < i ==> (#[trigger] rows@[j]).event_id != id),
        decreases rows@.len() - i,
    {
        if rows[i].event_id == id {
            break;
        }
        i += 1;
    }
    if i < rows.len() {
        proof {
            assert(rows@[i as int].event_id == id);
        }
        true
    } else {
        proof {
            if entry_id_in(rows@, id) {
                let w = choose|w: int|
                    0 <= w < rows@.len() && (#[trigger] rows@[w]).event_id == id;
                assert(rows@[w].event_id != id);
            }
        }
        false
    }
}

/// Decides the age order between two index rows.
fn age_le_exec(a: &LossEntry, b: &LossEntry) -> (r: bool)
    ensures
        r == age_le(*a, *b),
{
    a.timestamp < b.timestamp || (a.timestamp == b.timestamp && a.event_id < b.event_id) || (
    a.timestamp == b.timestamp && a.event_id == b.event_id && a.loss <= b.loss)
}

/// Scans for the first row that does not age-precede `e`.
fn find_age_pos(rows: &Vec<LossEntry>, e: LossEntry) -> (p: usize)
    ensures
        p <= rows@.len(),
        forall|j: int| 0 <= j < p ==> age_le(#[trigger] rows@[j], e),
        p < rows@.len() ==> !age_le(rows@[p as int], e),
{
    let mut i: usize = 0;
    while i < rows.len()
        invariant_except_break
            i <= rows@.len(),
            forall|j: int| 0 <= j < i ==> age_le(#[trigger] rows@[j], e),
        ensures
            i <= rows@.len(),
            forall|j: int| 0 <= j < i ==> age_le(#[trigger] rows@[j], e),
            i < rows@.len() ==> !age_le(rows@[i as int], e),
        decreases rows@.len() - i,
    {
        let cur = rows[i];
        if !age_le_exec(&cur, &e) {
            break;
        }
        i += 1;
    }
    i
}

/// The training-replay store for one version: labels, training records, and
/// the loss-ranked index kept in lock-step.
pub struct KVStore {
    version: VersionType,
    oldest_window: i64,
    labels: Vec<LabelStored>,
    trains: Vec<TrainStored>,
    loss_index: Vec<LossEntry>,
}

impl View for KVStore {
    type V = StoreView;

    closed spec fn view(&self) -> StoreView {
        StoreView {
            version: self.version,
            oldest_window: self.oldest_window,
            labels: self.labels@.map_values(|l: LabelStored| l@),
            trains: self.trains@.map_values(|t: TrainStored| t@),
            index: self.loss_index@,
        }
    }
}

impl KVStore {
    /// The store invariant; established by `new` and preserved by every
    /// operation.
    pub open spec fn inv(self) -> bool {
        store_inv(self@)
    }

    /// An empty store for the given version.
    pub fn new(version: VersionType) -> (s: KVStore)
        ensures
            s.inv(),
            s@.version == version,
            s@.oldest_window == DEFAULT_OLDEST_WINDOW,
            s@.labels == Seq::<LabelRec>::empty(),
            s@.trains == Seq::<TrainRec>::empty(),
            s@.index == Seq::<LossEntry>::empty(),
    {
        let s = KVStore {
            version,
            oldest_window: DEFAULT_OLDEST_WINDOW,
            labels: Vec::new(),
            trains: Vec::new(),
            loss_index: Vec::new(),
        };
        proof {
            assert(s@.labels =~= Seq::<LabelRec>::empty());
            assert(s@.trains =~= Seq::<TrainRec>::empty());
        }
        s
    }

    /// Reconfigures the oldest-selection tolerance window.
    pub fn set_oldest_window(&mut self, window: i64)
        requires
            old(self).inv(),
            0 <= window,
        ensures
            final(self).inv(),
            final(self)@ == (StoreView { oldest_window: window, ..old(self)@ }),
    {
        self.oldest_window = window;
        proof {
            assert(final(self)@ =~~= (StoreView { oldest_window: window, ..old(self)@ }));
        }
    }

    /// Unconditionally clears all labels.
    pub fn reset_label_data(&mut self)
        requires
            old(self).inv(),
        ensures
            final(self).inv(),
            final(self)@ == (StoreView { labels: Seq::<LabelRec>::empty(), ..old(self)@ }),
    {
        self.labels.clear();
        proof {
            assert(final(self)@ =~~= (StoreView {
                labels: Seq::<LabelRec>::empty(),
                ..old(self)@
            }));
        }
    }

    /// Unconditionally clears all training records and, with them, the loss
    /// index: the two stay in lock-step even through a reset.
    pub fn reset_train_data(&mut self)
        requires
            old(self).inv(),
        ensures
            final(self).inv(),
            final(self)@ == (StoreView {
                trains: Seq::<TrainRec>::empty(),
                index: Seq::<LossEntry>::empty(),
                ..old(self)@
            }),
    {
        self.trains.clear();
        self.loss_index.clear();
        proof {
            assert(final(self)@ =~~= (StoreView {
                trains: Seq::<TrainRec>::empty(),
                index: Seq::<LossEntry>::empty(),
                ..old(self)@
            }));
        }
    }

    /// Idempotent upsert of a label, keyed by `event_id`: last write wins on
    /// conflict. Returns the number of rows written.
    pub fn store_label(&mut self, labeled: &LabelStored) -> (r: u64)
        requires
            old(self).inv(),
            labeled@.wf(),
        ensures
            final(self).inv(),
            final(self)@ == (StoreView {
                labels: lab_upsert(old(self)@.labels, labeled@),
                ..old(self)@
            }),
            r == 1u64,
    {
        let ghost v0 = self@;
        let ghost target = labeled@;
        let i = find_label_pos(&self.labels, labeled.event_id);
        proof {
            lemma_lab_find(v0.labels, target.event_id);
            // Both `i` and `lab_find` are the first position whose key is at
            // least the target, so they agree.
            let p = lab_find(v0.labels, target.event_id);
            if p < i {
                assert(v0.labels[p] == self.labels@[p]@);
                assert(false);
            }
            if i < p {
                assert(v0.labels[i as int].event_id < target.event_id);
                assert(v0.labels[i as int] == self.labels@[i as int]@);
                assert(false);
            }
            assert forall|j: int| 0 <= j < i implies (#[trigger] v0.labels[j]).event_id
                < target.event_id by {
                assert(v0.labels[j] == self.labels@[j]@);
            }
            if i < v0.labels.len() {
                assert(v0.labels[i as int] == self.labels@[i as int]@);
            }
        }
        if i < self.labels.len() && self.labels[i].event_id == labeled.event_id {
            self.labels.set(i, labeled.duplicate());
            proof {
                assert(final(self)@.labels =~~= lab_upsert(v0.labels, target));
                assert(final(self)@ =~~= (StoreView {
                    labels: lab_upsert(v0.labels, target),
                    ..v0
                }));
                assert(labels_sorted(final(self)@.labels));
            }
        } else {
            self.labels.insert(i, labeled.duplicate());
            proof {
                assert(final(self)@.labels =~~= lab_upsert(v0.labels, target));
                assert(final(self)@ =~~= (StoreView {
                    labels: lab_upsert(v0.labels, target),
                    ..v0
                }));
                let s = final(self)@.labels;
                assert forall|a: int, b: int|
                    #![trigger s[a], s[b]]
                    0 <= a < b < s.len() implies s[a].event_id < s[b].event_id by {
                    let p = i as int;
                    if a < p && b > p {
                        assert(s[a] == v0.labels[a]);
                        assert(s[b] == v0.labels[b - 1]);
                    } else if a == p {
                        assert(s[b] == v0.labels[b - 1]);
                        assert(v0.labels[b - 1].event_id >= target.event_id);
                        assert(v0.labels[b - 1].event_id != target.event_id);
                    } else if b == p {
                        assert(s[a] == v0.labels[a]);
                    }
                }
            }
        }
        1
    }

    /// Upsert of a training record, keyed by `event_id`, together with the
    /// atomic replace of its loss-index row: the record's old row leaves and
    /// the row carrying its current loss enters as one indivisible step, so
    /// no reader of this store ever observes zero or two rows for the key.
    /// Returns the number of rows written.
    pub fn store_train(&mut self, train: &TrainStored) -> (r: u64)
        requires
            old(self).inv(),
            train@.wf(),
        ensures
            final(self).inv(),
            final(self)@ == (StoreView {
                trains: train_upsert(old(self)@.trains, train@),
                index: index_replace(old(self)@.index, train@),
                ..old(self)@
            }),
            exactly_one_entry(final(self)@.index, train@.event_id, train@.loss, train@.timestamp),
            r == 1u64,
    {
        let ghost v0 = self@;
        let ghost t = train@;
        let p = find_train_pos(&self.trains, train.event_id);
        proof {
            lemma_train_find(v0.trains, t.event_id);
            let pf = train_find(v0.trains, t.event_id);
            if pf < p {
                assert(v0.trains[pf] == self.trains@[pf]@);
                assert(false);
            }
            if p < pf {
                assert(v0.trains[p as int].event_id < t.event_id);
                assert(v0.trains[p as int] == self.trains@[p as int]@);
                assert(false);
            }
            if p < v0.trains.len() {
                assert(v0.trains[p as int] == self.trains@[p as int]@);
            }
        }
        let is_hit = p < self.trains.len() && self.trains[p].event_id == train.event_id;
        if is_hit {
            self.trains.set(p, train.duplicate());
        } else {
            self.trains.insert(p, train.duplicate());
        }
        proof {
            assert(self@.trains =~~= train_upsert(v0.trains, t));
            assert(self@.index == v0.index);
        }
        let q = find_entry_pos(&self.loss_index, train.event_id);
        proof {
            lemma_idx_pos_id(v0.index, t.event_id);
            let qf = idx_pos_id(v0.index, t.event_id);
            if qf < q {
                assert(v0.index[qf].event_id == t.event_id);
                assert(false);
            }
            if q < qf {
                assert(v0.index[q as int].event_id != t.event_id);
                assert(false);
            }
        }
        if q < self.loss_index.len() {
            self.loss_index.remove(q);
        }
        proof {
            assert(self@.index =~= index_without(v0.index, t.event_id));
        }
        let e = LossEntry { event_id: train.event_id, timestamp: train.timestamp, loss: train.loss };
        proof {
            assert(e == entry_of(t));
        }
        let ghost rm = index_without(v0.index, t.event_id);
        let w = find_insert_pos(&self.loss_index, e);
        proof {
            lemma_idx_find(rm, e);
            let wf = idx_find(rm, e);
            if wf < w {
                assert(!replay_lt(e, rm[wf]));
                assert(false);
            }
            if w < wf {
                assert(!replay_lt(e, rm[w as int]));
                assert(false);
            }
        }
        self.loss_index.insert(w, e);
        proof {
            assert(self@.index =~= index_replace(v0.index, t));
            lemma_upsert_preserves_inv(v0.trains, v0.index, t);
            assert(self@ =~~= (StoreView {
                trains: train_upsert(v0.trains, t),
                index: index_replace(v0.index, t),
                ..v0
            }));
        }
        1
    }

    /// The atomic loss replace for one retrained example. When a training
    /// record with the key exists, its timestamp, output and loss move to
    /// the new values, and the index row carrying the old loss is replaced
    /// by the row carrying the new one as a single indivisible step: after
    /// the call, exactly one index row exists for the key and its loss is
    /// the new loss. When no record has the key, nothing changes.
    pub fn replace_loss(
        &mut self,
        event_id: EventId,
        new_output: &LabelType,
        new_loss: FloatBits,
        new_timestamp: Timestamp,
    ) -> (updated: bool)
        requires
            old(self).inv(),
            new_output@.len() == LABEL_LEN,
        ensures
            final(self).inv(),
            updated == has_train_id(old(self)@.trains, event_id),
            !updated ==> final(self)@ == old(self)@,
            updated ==> ({
                let p = train_find(old(self)@.trains, event_id);
                let t2 = retrained(old(self)@.trains[p], new_output@, new_loss, new_timestamp);
                &&& final(self)@ == (StoreView {
                    trains: old(self)@.trains.update(p, t2),
                    index: index_replace(old(self)@.index, t2),
                    ..old(self)@
                })
                &&& exactly_one_entry(final(self)@.index, event_id, new_loss, new_timestamp)
            }),
    {
        let ghost v0 = self@;
        let p = find_train_pos(&self.trains, event_id);
        proof {
            lemma_train_find(v0.trains, event_id);
            let pf = train_find(v0.trains, event_id);
            if pf < p {
                assert(v0.trains[pf] == self.trains@[pf]@);
                assert(false);
            }
            if p < pf {
                assert(v0.trains[p as int].event_id < event_id);
                assert(v0.trains[p as int] == self.trains@[p as int]@);
                assert(false);
            }
            if p < v0.trains.len() {
                assert(v0.trains[p as int] == self.trains@[p as int]@);
            }
        }
        let is_hit = p < self.trains.len() && self.trains[p].event_id == event_id;
        if !is_hit {
            proof {
                if has_train_id(v0.trains, event_id) {
                    let j = choose|j: int|
                        0 <= j < v0.trains.len() && (#[trigger] v0.trains[j]).event_id == event_id;
                    if j < p {
                        assert(v0.trains[j].event_id < event_id);
                    } else if j > p {
                        assert(v0.trains[p as int].event_id < v0.trains[j].event_id);
                    }
                    assert(false);
                }
            }
            return false;
        }
        let old_rec = &self.trains[p];
        let next = TrainStored {
            event_id: old_rec.event_id,
            timestamp: new_timestamp,
            partition: old_rec.partition,
            offset: old_rec.offset,
            input: (
                copy_bits(&old_rec.input.0),
                copy_bits(&old_rec.input.1),
            ),
            output: copy_bits(new_output),
            loss: new_loss,
        };
        let ghost t2 = retrained(v0.trains[p as int], new_output@, new_loss, new_timestamp);
        proof {
            assert(next@ == t2);
            assert(v0.trains[p as int].wf());
            assert(has_train_id(v0.trains, event_id)) by {
                assert(v0.trains[p as int].event_id == event_id);
            }
        }
        self.store_train(&next);
        proof {
            assert(train_upsert(v0.trains, t2) =~~= v0.trains.update(p as int, t2));
        }
        true
    }

    /// Bulk write of training records: the union of the per-record upserts,
    /// each with its atomic index replace, applied in order. Returns the
    /// number of rows written.
    pub fn store_trains(&mut self, trains: Vec<TrainStored>) -> (r: u64)
        requires
            old(self).inv(),
            forall|k: int| 0 <= k < trains@.len() ==> (#[trigger] trains@[k])@.wf(),
        ensures
            final(self).inv(),
            final(self)@ == store_after(old(self)@, train_views(trains@)),
            r == trains@.len() as u64,
    {
        let ghost v0 = self@;
        let ghost ts = train_views(trains@);
        let n = trains.len();
        let mut i: usize = 0;
        while i < n
            invariant
                i <= n,
                n == trains@.len(),
                ts == train_views(trains@),
                forall|k: int| 0 <= k < trains@.len() ==> (#[trigger] trains@[k])@.wf(),
                self.inv(),
                self@ == store_after(v0, ts.take(i as int)),
            decreases n - i,
        {
            proof {
                assert(trains@[i as int]@ == ts[i as int]);
            }
            self.store_train(&trains[i]);
            proof {
                assert(ts.take(i + 1) =~= ts.take(i as int).push(ts[i as int]));
                lemma_store_after_push(v0, ts.take(i as int), ts[i as int]);
            }
            i += 1;
        }
        proof {
            assert(ts.take(n as int) =~= ts);
        }
        n as u64
    }

    /// Applies a retraining batch: for each row whose `event_id` matches a
    /// stored training record, the record takes the row's output and loss
    /// and the given timestamp, with its loss-index row atomically replaced.
    /// Rows with unknown keys change nothing. Returns how many records were
    /// updated.
    pub fn update_retrainers(
        &mut self,
        cur_time: Timestamp,
        event_ids: Vec<EventId>,
        outputs: Vec<LabelType>,
        losses: Vec<FloatBits>,
    ) -> (r: u64)
        requires
            old(self).inv(),
            event_ids@.len() == outputs@.len(),
            event_ids@.len() == losses@.len(),
            forall|k: int|
                0 <= k < outputs@.len() ==> (#[trigger] outputs@[k])@.len()
                    == LABEL_LEN,
        ensures
            final(self).inv(),
            final(self)@ == updates_after(
                old(self)@,
                event_ids@,
                label_views(outputs@),
                losses@,
                cur_time,
            ),
            r as int == updates_count(
                old(self)@,
                event_ids@,
                label_views(outputs@),
                losses@,
                cur_time,
            ),
    {
        let ghost v0 = self@;
        let ghost ids = event_ids@;
        let ghost outs = label_views(outputs@);
        let ghost lss = losses@;
        let n = event_ids.len();
        let mut i: usize = 0;
        let mut cnt: usize = 0;
        while i < n
            invariant
                i <= n,
                cnt <= i,
                n == event_ids@.len(),
                n == outputs@.len(),
                n == losses@.len(),
                ids == event_ids@,
                outs == label_views(outputs@),
                lss == losses@,
                forall|k: int|
                    0 <= k < outputs@.len() ==> (#[trigger] outputs@[k])@.len()
                        == LABEL_LEN,
                self.inv(),
                self@ == updates_after(v0, ids.take(i as int), outs.take(i as int), lss.take(i as int), cur_time),
                cnt as int == updates_count(v0, ids.take(i as int), outs.take(i as int), lss.take(i as int), cur_time),
            decreases n - i,
        {
            proof {
                assert(outputs@[i as int]@ == outs[i as int]);
            }
            let updated = self.replace_loss(event_ids[i], &outputs[i], losses[i], cur_time);
            if updated {
                cnt += 1;
            }
            proof {
                assert(ids.take(i + 1) =~= ids.take(i as int).push(ids[i as int]));
                assert(outs.take(i + 1) =~= outs.take(i as int).push(outs[i as int]));
                assert(lss.take(i + 1) =~= lss.take(i as int).push(lss[i as int]));
                lemma_updates_push(
                    v0,
                    ids.take(i as int),
                    outs.take(i as int),
                    lss.take(i as int),
                    cur_time,
                    ids[i as int],
                    outs[i as int],
                    lss[i as int],
                );
            }
            i += 1;
        }
        proof {
            assert(ids.take(n as int) =~= ids);
            assert(outs.take(n as int) =~= outs);
            assert(lss.take(n as int) =~= lss);
        }
        cnt as u64
    }

    /// Returns up to `k` index rows ordered by loss descending, ties broken
    /// by `event_id` ascending: the examples the model currently gets most
    /// wrong, in a deterministic order that repeated calls reproduce while
    /// the data is unchanged. Every returned row mirrors a stored training
    /// record, and every record left out ranks no earlier than any returned
    /// row.
    pub fn top_loss(&self, k: usize) -> (r: Vec<LossEntry>)
        requires
            self.inv(),
        ensures
            r@ == top_selection(self@, k as int),
            r@.len() <= k,
            forall|a: int, b: int|
                #![trigger r@[a], r@[b]]
                0 <= a < b < r@.len() ==> replay_lt(r@[a], r@[b]),
            forall|i: int|
                0 <= i < r@.len() ==> entry_matches_some_train(#[trigger] r@[i], self@.trains),
            forall|j: int, i: int|
                #![trigger self@.trains[j], r@[i]]
                0 <= j < self@.trains.len() && !r@.contains(entry_of(self@.trains[j])) && 0 <= i
                    < r@.len() ==> replay_lt(r@[i], entry_of(self@.trains[j])),
    {
        let n = self.loss_index.len();
        let m = if n <= k {
            n
        } else {
            k
        };
        let mut out: Vec<LossEntry> = Vec::new();
        let mut i: usize = 0;
        while i < m
            invariant
                i <= m,
                m <= n,
                n == self@.index.len(),
                out@ == self@.index.take(i as int),
            decreases m - i,
        {
            out.push(self.loss_index[i]);
            proof {
                assert(self@.index.take(i + 1) =~= self@.index.take(i as int).push(
                    self@.index[i as int],
                ));
            }
            i += 1;
        }
        proof {
            assert forall|j: int, i: int|
                #![trigger self@.trains[j], out@[i]]
                0 <= j < self@.trains.len() && !out@.contains(entry_of(self@.trains[j])) && 0 <= i
                    < out@.len() implies replay_lt(out@[i], entry_of(self@.trains[j])) by {
                assert(train_has_entry(self@.trains[j], self@.index));
                let w = choose|w: int|
                    0 <= w < self@.index.len() && #[trigger] self@.index[w] == entry_of(
                        self@.trains[j],
                    );
                if w < m {
                    assert(out@[w] == self@.index[w]);
                    assert(false);
                }
                assert(out@[i] == self@.index[i]);
                assert(replay_lt(self@.index[i], self@.index[w]));
            }
        }
        out
    }

    /// Returns up to `k` rows approximating the least recently trained
    /// examples: every training record whose timestamp lies within the
    /// configured window above the minimum stored timestamp, ordered by
    /// timestamp ascending (ties broken by `event_id`), truncated to `k`.
    /// The flag reports the non-fatal case of the window holding fewer than
    /// `k` rows; the call still succeeds with the smaller set.
    #[verifier::rlimit(80)]
    pub fn top_oldest(&self, k: usize) -> (res: (Vec<LossEntry>, bool))
        requires
            self.inv(),
        ensures
            res.0@ == oldest_selection(self@, k as int),
            res.1 == (oldest_pool(self@).len() < k),
            res.0@.len() <= k,
            forall|i: int|
                0 <= i < res.0@.len() ==> entry_matches_some_train(
                    #[trigger] res.0@[i],
                    self@.trains,
                ) && res.0@[i].timestamp <= window_bound(self@),
            forall|a: int, b: int|
                #![trigger res.0@[a], res.0@[b]]
                0 <= a < b < res.0@.len() ==> age_le(res.0@[a], res.0@[b]),
    {
        broadcast use vstd::seq_lib::group_to_multiset_ensures;
        broadcast use vstd::seq_lib::group_filter_ensures;
        broadcast use Seq::lemma_filter_contains_rev;

        let ghost v = self@;
        if self.trains.len() == 0 {
            proof {
                reveal(Seq::filter);
                assert(window_rows(v.trains, window_bound(v)).len() == 0);
                assert(oldest_pool(v) =~= Seq::<LossEntry>::empty());
                lemma_age_total();
                oldest_pool(v).lemma_sort_by_ensures(age_order());
                let srt = oldest_pool(v).sort_by(age_order());
                assert(srt.len() == srt.to_multiset().len());
                assert(oldest_pool(v).len() == oldest_pool(v).to_multiset().len());
                assert(srt.len() == 0);
                assert(oldest_selection(v, k as int) =~= Seq::<LossEntry>::empty());
            }
            return (Vec::new(), k > 0);
        }
        // The minimum stored timestamp.
        let mut mint: Timestamp = self.trains[0].timestamp;
        proof {
            assert(v.trains[0] == self.trains@[0]@);
        }
        let mut i: usize = 1;
        while i < self.trains.len()
            invariant
                1 <= i <= v.trains.len(),
                v == self@,
                forall|j: int| 0 <= j < i ==> mint <= (#[trigger] v.trains[j]).timestamp,
                exists|j: int| 0 <= j < i && mint == (#[trigger] v.trains[j]).timestamp,
            decreases v.trains.len() - i,
        {
            let t = self.trains[i].timestamp;
            proof {
                assert(v.trains[i as int] == self.trains@[i as int]@);
            }
            if t < mint {
                mint = t;
                proof {
                    assert(mint == v.trains[i as int].timestamp);
                }
            }
            i += 1;
        }
        proof {
            lemma_min_timestamp(v.trains);
            let a = choose|j: int|
                0 <= j < v.trains.len() && mint == (#[trigger] v.trains[j]).timestamp;
            let b = choose|j: int|
                0 <= j < v.trains.len() && min_timestamp(v.trains) == (
                #[trigger] v.trains[j]).timestamp;
            assert(min_timestamp(v.trains) <= v.trains[a].timestamp);
            assert(mint <= v.trains[b].timestamp);
            assert(mint == min_timestamp(v.trains));
        }
        let bound: i128 = mint as i128 + self.oldest_window as i128;
        let ghost wb = window_bound(v);
        proof {
            assert(bound as int == wb);
        }
        // Collect the pool: every record inside the window, in storage order.
        let mut fv: Vec<LossEntry> = Vec::new();
        let mut i2: usize = 0;
        while i2 < self.trains.len()
            invariant
                i2 <= v.trains.len(),
                v == self@,
                wb == window_bound(v),
                bound as int == wb,
                fv@ == pool_of(v.trains.take(i2 as int), wb),
            decreases v.trains.len() - i2,
        {
            let ghost tv = v.trains[i2 as int];
            proof {
                assert(tv == self.trains@[i2 as int]@);
                assert(v.trains.take(i2 + 1).drop_last() =~= v.trains.take(i2 as int));
                assert(v.trains.take(i2 + 1).last() == tv);
                reveal(Seq::filter);
                assert(window_rows(v.trains.take(i2 + 1), wb) == (if within_window(tv, wb) {
                    window_rows(v.trains.take(i2 as int), wb).push(tv)
                } else {
                    window_rows(v.trains.take(i2 as int), wb)
                }));
                assert(pool_of(v.trains.take(i2 + 1), wb) =~= (if within_window(tv, wb) {
                    pool_of(v.trains.take(i2 as int), wb).push(entry_of(tv))
                } else {
                    pool_of(v.trains.take(i2 as int), wb)
                }));
            }
            let tt = self.trains[i2].timestamp;
            if tt as i128 <= bound {
                let row = LossEntry {
                    event_id: self.trains[i2].event_id,
                    timestamp: tt,
                    loss: self.trains[i2].loss,
                };
                proof {
                    assert(row == entry_of(tv));
                    assert(within_window(tv, wb));
                }
                fv.push(row);
            } else {
                proof {
                    assert(!within_window(tv, wb));
                }
            }
            i2 += 1;
        }
        proof {
            assert(v.trains.take(v.trains.len() as int) =~= v.trains);
            assert(fv@ == oldest_pool(v));
        }
        // Order the pool by age.
        let mut sv: Vec<LossEntry> = Vec::new();
        let mut j: usize = 0;
        while j < fv.len()
            invariant
                j <= fv@.len(),
                sv@.len() == j,
                sv@.to_multiset() == fv@.take(j as int).to_multiset(),
                forall|a: int, b: int|
                    #![trigger sv@[a], sv@[b]]
                    0 <= a < b < sv@.len() ==> age_le(sv@[a], sv@[b]),
            decreases fv@.len() - j,
        {
            let e = fv[j];
            let ghost os = sv@;
            let p = find_age_pos(&sv, e);
            sv.insert(p, e);
            proof {
                assert forall|a: int, b: int|
                    #![trigger sv@[a], sv@[b]]
                    0 <= a < b < sv@.len() implies age_le(sv@[a], sv@[b]) by {
                    let pi = p as int;
                    assert(sv@[a] == if a < pi {
                        os[a]
                    } else if a == pi {
                        e
                    } else {
                        os[a - 1]
                    });
                    assert(sv@[b] == if b < pi {
                        os[b]
                    } else if b == pi {
                        e
                    } else {
                        os[b - 1]
                    });
                    if a == pi && b > pi {
                        assert(!age_le(os[pi], e));
                        assert(age_le(e, os[pi]));
                        if b - 1 > pi {
                            assert(age_le(os[pi], os[b - 1]));
                        }
                    }
                }
                lemma_insert_multiset(os, p as int, e);
                assert(sv@.to_multiset() =~= os.to_multiset().insert(e));
                assert(fv@.take(j + 1) =~= fv@.take(j as int).push(e));
                vstd::seq_lib::to_multiset_build(fv@.take(j as int), e);
                assert(sv@.to_multiset() == fv@.take(j + 1).to_multiset());
            }
            j += 1;
        }
        let pool_count = fv.len();
        let insufficient = pool_count < k;
        let ghost svp = sv@;
        sv.truncate(k);
        proof {
            let pool = oldest_pool(v);
            assert(fv@.take(fv@.len() as int) =~= fv@);
            assert(svp.to_multiset() == pool.to_multiset());
            lemma_age_total();
            pool.lemma_sort_by_ensures(age_order());
            let srt = pool.sort_by(age_order());
            assert(vstd::relations::sorted_by(svp, age_order())) by {
                assert forall|a: int, b: int| 0 <= a < b < svp.len() implies #[trigger] (
                age_order())(svp[a], svp[b]) by {
                    assert(age_le(svp[a], svp[b]));
                }
            }
            vstd::seq_lib::lemma_sorted_unique(svp, srt, age_order());
            assert(svp == srt);
            assert(srt.len() == srt.to_multiset().len());
            assert(pool.len() == pool.to_multiset().len());
            assert(srt.len() == pool.len());
            assert(sv@ == oldest_selection(v, k as int));
            // Each returned row comes from the pool, hence from a record
            // inside the window.
            assert forall|i3: int| 0 <= i3 < sv@.len() implies entry_matches_some_train(
                #[trigger] sv@[i3],
                v.trains,
            ) && sv@[i3].timestamp <= wb by {
                assert(srt.contains(sv@[i3])) by {
                    assert(srt[i3] == sv@[i3]);
                }
                assert(pool.contains(sv@[i3])) by {
                    if !pool.contains(sv@[i3]) {
                        assert(!srt.contains(sv@[i3]));
                    }
                }
                let w = choose|w: int| 0 <= w < pool.len() && pool[w] == sv@[i3];
                let rows = window_rows(v.trains, wb);
                assert(pool[w] == entry_of(rows[w]));
                assert(within_window(rows[w], wb)) by {
                    Seq::lemma_filter_pred(v.trains, |t: TrainRec| within_window(t, wb), w);
                }
                assert(v.trains.contains(rows[w])) by {
                    assert(rows.contains(rows[w]));
                }
                let m2 = choose|m2: int| 0 <= m2 < v.trains.len() && v.trains[m2] == rows[w];
                assert(sv@[i3] == entry_of(v.trains[m2]));
            }
            assert forall|a: int, b: int|
                #![trigger sv@[a], sv@[b]]
                0 <= a < b < sv@.len() implies age_le(sv@[a], sv@[b]) by {
                assert((age_order())(srt[a], srt[b]));
            }
        }
        (sv, insufficient)
    }

    /// The highest stream offset inference may be served for: the
    /// `offset_to` of the label whose `event_id` is the greatest trained
    /// key. Training has incorporated label information up to that offset
    /// and no further. Fails with `NoTrainedRows` when nothing has been
    /// trained — never a default — and with `MissingLabel` when the
    /// greatest trained key has no label.
    pub fn next_safe_predict_offset(&self) -> (r: Result<OffsetId, IntegrityFault>)
        requires
            self.inv(),
        ensures
            self@.trains.len() == 0 ==> r == Err::<OffsetId, _>(IntegrityFault::NoTrainedRows),
            self@.trains.len() > 0 ==> ({
                let mid = self@.trains.last().event_id;
                &&& forall|j: int|
                    0 <= j < self@.trains.len() ==> (#[trigger] self@.trains[j]).event_id <= mid
                &&& has_label_id(self@.labels, mid) ==> r == Ok::<_, IntegrityFault>(
                    label_at(self@.labels, mid).offset_to,
                )
                &&& !has_label_id(self@.labels, mid) ==> r == Err::<OffsetId, _>(
                    IntegrityFault::MissingLabel(mid),
                )
            }),
    {
        let n = self.trains.len();
        if n == 0 {
            return Err(IntegrityFault::NoTrainedRows);
        }
        let mid = self.trains[n - 1].event_id;
        proof {
            assert(self@.trains[n - 1] == self.trains@[n - 1]@);
            assert forall|j: int| 0 <= j < self@.trains.len() implies (
            #[trigger] self@.trains[j]).event_id <= mid by {
                if j < n - 1 {
                    assert(self@.trains[j].event_id < self@.trains[n - 1].event_id);
                }
            }
        }
        let lp = find_label_pos(&self.labels, mid);
        proof {
            lemma_lab_find(self@.labels, mid);
            let pf = lab_find(self@.labels, mid);
            if pf < lp {
                assert(self@.labels[pf] == self.labels@[pf]@);
                assert(false);
            }
            if lp < pf {
                assert(self@.labels[lp as int].event_id < mid);
                assert(self@.labels[lp as int] == self.labels@[lp as int]@);
                assert(false);
            }
            if lp < self@.labels.len() {
                assert(self@.labels[lp as int] == self.labels@[lp as int]@);
            }
        }
        let hit = lp < self.labels.len() && self.labels[lp].event_id == mid;
        if hit {
            proof {
                assert(has_label_id(self@.labels, mid)) by {
                    assert(self@.labels[lp as int].event_id == mid);
                }
                assert(label_at(self@.labels, mid) == self@.labels[lp as int]);
            }
            Ok(self.labels[lp].offset_to)
        } else {
            proof {
                if has_label_id(self@.labels, mid) {
                    let w = choose|w: int|
                        0 <= w < self@.labels.len() && (#[trigger] self@.labels[w]).event_id
                            == mid;
                    if w < lp {
                        assert(self@.labels[w].event_id < mid);
                    } else if w > lp {
                        assert(self@.labels[lp as int].event_id < self@.labels[w].event_id);
                    }
                    assert(false);
                }
            }
            Err(IntegrityFault::MissingLabel(mid))
        }
    }

    /// Selects the retraining candidates: the `top_count` highest-loss
    /// examples, then the `old_count` least recently trained ones whose
    /// keys are not already selected, each joined with its stored label
    /// into a self-contained example. A training record with no matching
    /// label is a data-integrity fault: the whole call fails, naming the
    /// first such key in selection order.
    #[verifier::rlimit(60)]
    pub fn retrainers(&self, top_count: usize, old_count: usize) -> (r: Result<
        Vec<TrainStoredWithLabel>,
        IntegrityFault,
    >)
        requires
            self.inv(),
        ensures
            (r is Ok <==> (forall|i: int|
                0 <= i < selection(self@, top_count as int, old_count as int).len()
                    ==> has_label_id(
                    self@.labels,
                    (#[trigger] selection(self@, top_count as int, old_count as int)[i]).event_id,
                ))),
            r matches Ok(out) ==> ({
                let sel = selection(self@, top_count as int, old_count as int);
                out@.len() == sel.len() && forall|i: int|
                    0 <= i < sel.len() ==> out@[i]@ == example_of(
                        train_at(self@.trains, (#[trigger] sel[i]).event_id),
                        label_at(self@.labels, sel[i].event_id),
                    )
            }),
            r matches Err(e) ==> ({
                let sel = selection(self@, top_count as int, old_count as int);
                exists|i: int|
                    0 <= i < sel.len() && !has_label_id(
                        self@.labels,
                        (#[trigger] sel[i]).event_id,
                    ) && (forall|j: int|
                        0 <= j < i ==> has_label_id(self@.labels, (#[trigger] sel[j]).event_id))
                        && e == IntegrityFault::MissingLabel(sel[i].event_id)
            }),
    {
        broadcast use vstd::seq_lib::group_filter_ensures;

        let ghost v = self@;
        let tl = self.top_loss(top_count);
        let res_old = self.top_oldest(old_count);
        let told = res_old.0;
        let ghost tls = top_selection(v, top_count as int);
        let ghost olds = oldest_selection(v, old_count as int);
        // The deduplicated candidate rows, top-loss first.
        let mut sel: Vec<LossEntry> = Vec::new();
        let mut i: usize = 0;
        while i < tl.len()
            invariant
                i <= tl@.len(),
                tl@ == tls,
                sel@ == tls.take(i as int),
            decreases tl@.len() - i,
        {
            sel.push(tl[i]);
            proof {
                assert(tls.take(i + 1) =~= tls.take(i as int).push(tls[i as int]));
            }
            i += 1;
        }
        proof {
            assert(tls.take(tls.len() as int) =~= tls);
        }
        let mut j: usize = 0;
        while j < told.len()
            invariant
                j <= told@.len(),
                tl@ == tls,
                told@ == olds,
                sel@ == tls + dedup_rest(olds.take(j as int), tls),
            decreases told@.len() - j,
        {
            let ghost ev = olds[j as int];
            let ghost dj = dedup_rest(olds.take(j as int), tls);
            proof {
                assert(olds.take(j + 1).drop_last() =~= olds.take(j as int));
                assert(olds.take(j + 1).last() == ev);
                reveal(Seq::filter);
                assert(dedup_rest(olds.take(j + 1), tls) == (if !entry_id_in(tls, ev.event_id) {
                    dj.push(ev)
                } else {
                    dj
                }));
            }
            let e = told[j];
            if !contains_id(&tl, e.event_id) {
                sel.push(e);
            }
            j += 1;
        }
        proof {
            assert(olds.take(olds.len() as int) =~= olds);
            assert(sel@ == selection(v, top_count as int, old_count as int));
        }
        let ghost sels = selection(v, top_count as int, old_count as int);
        // Every selected row mirrors a stored training record.
        proof {
            assert forall|i2: int| 0 <= i2 < sels.len() implies entry_matches_some_train(
                #[trigger] sels[i2],
                v.trains,
            ) by {
                if i2 < tls.len() {
                    assert(sels[i2] == tls[i2]);
                } else {
                    let d = dedup_rest(olds, tls);
                    let i3 = i2 - tls.len();
                    assert(sels[i2] == d[i3]);
                    assert(olds.contains(d[i3])) by {
                        assert(d.contains(d[i3]));
                        Seq::lemma_filter_contains_rev(
                            olds,
                            |e: LossEntry| !entry_id_in(tls, e.event_id),
                            d[i3],
                        );
                    }
                    let w = choose|w: int| 0 <= w < olds.len() && olds[w] == d[i3];
                    assert(entry_matches_some_train(olds[w], v.trains));
                }
            }
        }
        // Join each candidate with its training record and its label.
        let mut out: Vec<TrainStoredWithLabel> = Vec::new();
        let mut m: usize = 0;
        while m < sel.len()
            invariant
                m <= sel@.len(),
                sel@ == sels,
                sels == selection(v, top_count as int, old_count as int),
                self.inv(),
                v == self@,
                forall|i2: int|
                    0 <= i2 < sels.len() ==> entry_matches_some_train(
                        #[trigger] sels[i2],
                        v.trains,
                    ),
                out@.len() == m,
                forall|i2: int|
                    0 <= i2 < m ==> has_label_id(v.labels, (#[trigger] sels[i2]).event_id),
                forall|i2: int|
                    0 <= i2 < m ==> out@[i2]@ == example_of(
                        train_at(v.trains, (#[trigger] sels[i2]).event_id),
                        label_at(v.labels, sels[i2].event_id),
                    ),
            decreases sel@.len() - m,
        {
            let id = sel[m].event_id;
            let ghost se = sels[m as int];
            proof {
                assert(se.event_id == id);
            }
            let tp = find_train_pos(&self.trains, id);
            proof {
                // The selected row mirrors a record, so the scan must hit it.
                assert(entry_matches_some_train(se, v.trains));
                let w = choose|w: int|
                    0 <= w < v.trains.len() && se == entry_of(#[trigger] v.trains[w]);
                assert(v.trains[w].event_id == id);
                if w < tp {
                    assert(self.trains@[w]@.event_id < id);
                    assert(v.trains[w] == self.trains@[w]@);
                    assert(false);
                }
                if tp < w {
                    assert(v.trains[tp as int] == self.trains@[tp as int]@);
                    assert(v.trains[tp as int].event_id >= id);
                    assert(v.trains[tp as int].event_id < v.trains[w].event_id);
                    assert(v.trains[tp as int].event_id != id || w == tp);
                    lemma_train_find(v.trains, id);
                    let pf = train_find(v.trains, id);
                    assert(false) by {
                        assert(v.trains[tp as int].event_id == v.trains[w].event_id || v.trains[tp
                            as int].event_id > id || v.trains[tp as int].event_id == id);
                        if v.trains[tp as int].event_id == id {
                        } else {
                            assert(v.trains[tp as int].event_id > id);
                            assert(w > tp ==> v.trains[w].event_id > v.trains[tp as int].event_id);
                        }
                    }
                }
                assert(w == tp);
                assert(v.trains[tp as int] == self.trains@[tp as int]@);
                // And the scan position is the spec position.
                lemma_train_find(v.trains, id);
                let pf = train_find(v.trains, id);
                if pf < tp {
                    assert(v.trains[pf].event_id >= id);
                    assert(self.trains@[pf]@.event_id < id);
                    assert(v.trains[pf] == self.trains@[pf]@);
                    assert(false);
                }
                if tp < pf {
                    assert(v.trains[tp as int].event_id < id);
                    assert(false);
                }
                assert(train_at(v.trains, id) == v.trains[tp as int]);
            }
            let trec = &self.trains[tp];
            let lp = find_label_pos(&self.labels, id);
            proof {
                lemma_lab_find(v.labels, id);
                let pf = lab_find(v.labels, id);
                if pf < lp {
                    assert(v.labels[pf] == self.labels@[pf]@);
                    assert(false);
                }
                if lp < pf {
                    assert(v.labels[lp as int].event_id < id);
                    assert(v.labels[lp as int] == self.labels@[lp as int]@);
                    assert(false);
                }
                if lp < v.labels.len() {
                    assert(v.labels[lp as int] == self.labels@[lp as int]@);
                }
            }
            let lhit = lp < self.labels.len() && self.labels[lp].event_id == id;
            if !lhit {
                proof {
                    if has_label_id(v.labels, id) {
                        let w = choose|w: int|
                            0 <= w < v.labels.len() && (#[trigger] v.labels[w]).event_id == id;
                        if w < lp {
                            assert(v.labels[w].event_id < id);
                        } else if w > lp {
                            assert(v.labels[lp as int].event_id < v.labels[w].event_id);
                        }
                        assert(false);
                    }
                    assert(!has_label_id(v.labels, sels[m as int].event_id));
                    assert(0 <= m < sels.len());
                    assert(exists|i2: int|
                        0 <= i2 < sels.len() && !has_label_id(
                            v.labels,
                            (#[trigger] sels[i2]).event_id,
                        ) && (forall|j: int|
                            0 <= j < i2 ==> has_label_id(v.labels, (#[trigger] sels[j]).event_id))
                            && IntegrityFault::MissingLabel(id) == IntegrityFault::MissingLabel(
                            sels[i2].event_id,
                        )) by {
                        assert(0 <= m < sels.len() && !has_label_id(
                            v.labels,
                            sels[m as int].event_id,
                        ) && (forall|j: int|
                            0 <= j < m ==> has_label_id(v.labels, (#[trigger] sels[j]).event_id))
                            && IntegrityFault::MissingLabel(id) == IntegrityFault::MissingLabel(
                            sels[m as int].event_id,
                        ));
                    }
                }
                return Err(IntegrityFault::MissingLabel(id));
            }
            let row = TrainStoredWithLabel {
                event_id: trec.event_id,
                timestamp: trec.timestamp,
                offset: trec.offset,
                loss: trec.loss,
                input: (
                    copy_bits(&trec.input.0),
                    copy_bits(&trec.input.1),
                ),
                output: copy_bits(&trec.output),
                label: copy_bits(&self.labels[lp].label),
            };
            proof {
                assert(has_label_id(v.labels, id)) by {
                    assert(v.labels[lp as int].event_id == id);
                }
                assert(label_at(v.labels, id) == v.labels[lp as int]);
                assert(row@ == example_of(train_at(v.trains, id), label_at(v.labels, id)));
            }
            out.push(row);
            m += 1;
        }
        proof {
            assert forall|i2: int| 0 <= i2 < sels.len() implies has_label_id(
                v.labels,
                (#[trigger] sels[i2]).event_id,
            ) by {}
        }
        Ok(out)
    }

    /// Returns the label with the greatest `event_id`, or `None` exactly when
    /// the store holds no labels.
    pub fn label_max(&self) -> (r: Option<LabelStored>)
        requires
            self.inv(),
        ensures
            r is Some <==> self@.labels.len() > 0,
            r matches Some(l) ==> l@ == self@.labels.last() && forall|i: int|
                0 <= i < self@.labels.len() ==> (#[trigger] self@.labels[i]).event_id
                    <= l@.event_id,
    {
        if self.labels.len() == 0 {
            None
        } else {
            let l = self.labels[self.labels.len() - 1].duplicate();
            proof {
                let s = self@.labels;
                assert(l@ == s[s.len() - 1]);
                assert forall|i: int| 0 <= i < s.len() implies (#[trigger] s[i]).event_id
                    <= l@.event_id by {
                    if i < s.len() - 1 {
                        assert(s[i].event_id < s[s.len() - 1].event_id);
                    }
                }
            }
            Some(l)
        }
    }

    /// Returns up to `count` labels whose `offset_from` is at least
    /// `start_offset_id`, ascending by `event_id`: the first page of labels
    /// past the given offset watermark.
    pub fn label_lookup(&self, start_offset_id: OffsetId, count: usize) -> (r: Vec<LabelLookup>)
        requires
            self.inv(),
        ensures
            ({
                let q = labels_from(self@.labels, start_offset_id);
                &&& r@.len() == if q.len() <= count { q.len() as int } else { count as int }
                &&& forall|k: int| 0 <= k < r@.len() ==> r@[k]@ == lookup_of(#[trigger] q[k])
                &&& forall|k: int| 0 <= k < r@.len() ==> (#[trigger] r@[k])@.offset_from
                    >= start_offset_id
                &&& forall|a: int, b: int|
                    #![trigger r@[a], r@[b]]
                    0 <= a < b < r@.len() ==> r@[a]@.event_id < r@[b]@.event_id
            }),
    {
        broadcast use vstd::seq_lib::group_filter_ensures;

        let mut out: Vec<LabelLookup> = Vec::new();
        let mut i: usize = 0;
        while i < self.labels.len()
            invariant
                self.inv(),
                i <= self@.labels.len(),
                ({
                    let qi = labels_from(self@.labels.take(i as int), start_offset_id);
                    &&& out@.len() == if qi.len() <= count { qi.len() as int } else { count as int }
                    &&& forall|k: int| 0 <= k < out@.len() ==> out@[k]@ == lookup_of(
                        #[trigger] qi[k],
                    )
                }),
            decreases self@.labels.len() - i,
        {
            let ghost qi = labels_from(self@.labels.take(i as int), start_offset_id);
            let ghost lv = self@.labels[i as int];
            proof {
                assert(lv == self.labels@[i as int]@);
                assert(self@.labels.take(i + 1).drop_last() =~= self@.labels.take(i as int));
                assert(self@.labels.take(i + 1).last() == lv);
                reveal(Seq::filter);
                assert(labels_from(self@.labels.take(i + 1), start_offset_id) == (
                if label_at_or_past(lv, start_offset_id) {
                    qi.push(lv)
                } else {
                    qi
                }));
            }
            let keep = self.labels[i].offset_from >= start_offset_id;
            proof {
                assert(keep == label_at_or_past(lv, start_offset_id));
            }
            if keep && out.len() < count {
                let row = LabelLookup {
                    event_id: self.labels[i].event_id,
                    offset_from: self.labels[i].offset_from,
                    label: copy_bits(&self.labels[i].label),
                };
                proof {
                    assert(row@ == lookup_of(lv));
                }
                out.push(row);
                proof {
                    let qn = qi.push(lv);
                    assert forall|k: int| 0 <= k < out@.len() implies out@[k]@ == lookup_of(
                        #[trigger] qn[k],
                    ) by {
                        if k < qi.len() {
                            assert(qn[k] == qi[k]);
                        } else {
                            assert(qn[k] == lv);
                        }
                    }
                }
            } else {
                proof {
                    if label_at_or_past(lv, start_offset_id) {
                        let qn = qi.push(lv);
                        assert(out@.len() == count);
                        assert forall|k: int| 0 <= k < out@.len() implies out@[k]@ == lookup_of(
                            #[trigger] qn[k],
                        ) by {
                            assert(qn[k] == qi[k]);
                        }
                    }
                }
            }
            i += 1;
        }
        proof {
            assert(self@.labels.take(self@.labels.len() as int) =~= self@.labels);
            let q = labels_from(self@.labels, start_offset_id);
            assert forall|k: int| 0 <= k < out@.len() implies (#[trigger] out@[k])@.offset_from
                >= start_offset_id by {
                assert(out@[k]@ == lookup_of(q[k]));
                assert(label_at_or_past(q[k], start_offset_id)) by {
                    Seq::lemma_filter_pred(
                        self@.labels,
                        |l: LabelRec| label_at_or_past(l, start_offset_id),
                        k,
                    );
                }
            }
            lemma_labels_from_sorted(self@.labels, start_offset_id);
            assert forall|a: int, b: int|
                #![trigger out@[a], out@[b]]
                0 <= a < b < out@.len() implies out@[a]@.event_id < out@[b]@.event_id by {
                assert(out@[a]@ == lookup_of(q[a]));
                assert(out@[b]@ == lookup_of(q[b]));
            }
        }
        out
    }
}

/// A lookup page keeps the labels strictly ordered by `event_id`.
pub proof fn lemma_labels_from_sorted(s: Seq<LabelRec>, start: OffsetId)
    requires
        labels_sorted(s),
    ensures
        labels_sorted(labels_from(s, start)),
{
    lemma_filter_keeps_label_order(s, |l: LabelRec| label_at_or_past(l, start));
}

/// Filtering labels keeps them strictly ordered by `event_id`.
proof fn lemma_filter_keeps_label_order(s: Seq<LabelRec>, pred: spec_fn(LabelRec) -> bool)
    requires
        labels_sorted(s),
    ensures
        labels_sorted(s.filter(pred)),
    decreases s.len(),
{
    reveal(Seq::filter);
    broadcast use vstd::seq_lib::group_filter_ensures;
    broadcast use Seq::lemma_filter_contains_rev;

    if s.len() > 0 {
        let head = s.drop_last();
        assert(labels_sorted(head)) by {
            assert forall|i: int, j: int|
                #![trigger head[i], head[j]]
                0 <= i < j < head.len() implies head[i].event_id < head[j].event_id by {
                assert(head[i] == s[i] && head[j] == s[j]);
            }
        }
        lemma_filter_keeps_label_order(head, pred);
        let f = s.filter(pred);
        let fh = head.filter(pred);
        if pred(s.last()) {
            assert(f == fh.push(s.last()));
            assert forall|i: int, j: int|
                #![trigger f[i], f[j]]
                0 <= i < j < f.len() implies f[i].event_id < f[j].event_id by {
                if j < f.len() - 1 {
                    assert(f[i] == fh[i] && f[j] == fh[j]);
                } else {
                    assert(f[j] == s.last());
                    assert(f[i] == fh[i]);
                    assert(head.contains(fh[i])) by {
                        assert(fh.contains(fh[i]));
                    }
                    let w = choose|w: int| 0 <= w < head.len() && head[w] == fh[i];
                    assert(s[w] == head[w]);
                    assert(s[w].event_id < s.last().event_id);
                }
            }
        }
    }
}

} // verus!
