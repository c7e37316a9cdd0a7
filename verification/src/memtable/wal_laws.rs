//! What the log gives back of what was written to it.

use vstd::prelude::*;
use crate::entries::EntryView;
use crate::little_endian::{
    le_bytes, le_value, lemma_bits_roundtrip, lemma_byte_spans, lemma_le_bytes_len,
    lemma_le_roundtrip, lemma_le_roundtrip_bytes, lemma_le_value_bound, lemma_ts_roundtrip,
    ts_bits,
};
use crate::memtable::traits::{bytes_of, entry_op, entry_ops, op_entries, op_entry};
use crate::memtable::wal::{
    all_op_bytes, appended, crc32_of, decoded, frame, frame_with, kind_of, kv_bytes,
    left_unsynced, left_unsynced_singly, op_bytes, ops_view, parse_op, parse_ops, payload_bytes,
    policy_count, policy_syncs, recovered, sync_falls_due, OpView, Operation, SyncPolicy, Wal,
    MAX_FRAME_LEN, SYNC_INTERVAL,
};
use crate::types::{Key, KeyView, Value};

verus! {

/// Every operation of the batch fits its length fields, the batch is not
/// empty and its payload is no longer than recovery accepts.
pub open spec fn recoverable(ops: Seq<OpView>) -> bool {
    &&& forall|i: int| 0 <= i < ops.len() ==> (#[trigger] ops[i]).fits()
    &&& 0 < ops.len() < 0x1_0000_0000
    &&& payload_bytes(ops).len() <= MAX_FRAME_LEN
}

/// The log after appending each batch in turn to an empty one.
pub open spec fn log_of(batches: Seq<Seq<OpView>>) -> Seq<u8>
    decreases batches.len(),
{
    if batches.len() == 0 {
        Seq::empty()
    } else {
        appended(batches[0]) + log_of(batches.skip(1))
    }
}

/// All operations of all batches, in order.
pub open spec fn all_ops(batches: Seq<Seq<OpView>>) -> Seq<OpView>
    decreases batches.len(),
{
    if batches.len() == 0 {
        Seq::empty()
    } else {
        batches[0] + all_ops(batches.skip(1))
    }
}

/// Appending one more batch appends its frame.
pub proof fn lemma_log_push(batches: Seq<Seq<OpView>>, more: Seq<OpView>)
    ensures
        log_of(batches.push(more)) == log_of(batches) + appended(more),
    decreases batches.len(),
{
    let all = batches.push(more);
    if batches.len() == 0 {
        assert(all.skip(1) =~= Seq::empty());
        assert(log_of(all.skip(1)) =~= Seq::<u8>::empty());
        assert(log_of(all) =~= log_of(batches) + appended(more));
    } else {
        lemma_log_push(batches.skip(1), more);
        assert(all.skip(1) =~= batches.skip(1).push(more));
        assert(log_of(all) =~= log_of(batches) + appended(more));
    }
}

/// Decoding gives back an encoded operation and its length, whatever follows.
pub proof fn law_operation_roundtrip(op: OpView, rest: Seq<u8>)
    requires
        op.fits(),
    ensures
        parse_op(op_bytes(op) + rest) == Some((op, op_bytes(op).len() as int)),
{
    let key = op.key();
    let t = key.0.len() as int;
    let s = op_bytes(op) + rest;
    lemma_byte_spans();
    lemma_le_roundtrip(key.0.len(), 2);
    lemma_ts_roundtrip(key.1);
    lemma_le_roundtrip(ts_bits(key.1), 8);
    lemma_le_roundtrip(op.seq() as nat, 8);
    assert(s[0] == kind_of(op));
    assert(s.subrange(1, 3) =~= le_bytes(key.0.len(), 2));
    assert(s.subrange(3, 3 + t) =~= key.0);
    assert(s.subrange(3 + t, 11 + t) =~= le_bytes(ts_bits(key.1), 8));
    assert(s.subrange(11 + t, 19 + t) =~= le_bytes(op.seq() as nat, 8));
    match op.value() {
        Some(v) => {
            lemma_le_roundtrip(v.len(), 4);
            assert(s.subrange(19 + t, 23 + t) =~= le_bytes(v.len(), 4));
            assert(s.subrange(23 + t, 23 + t + v.len()) =~= v);
        },
        None => {},
    }
}

proof fn lemma_one_op_more(
    head: Seq<u8>,
    rest: Seq<u8>,
    op: OpView,
    ops: Seq<OpView>,
    count: nat,
)
    requires
        parse_op(head + rest) == Some((op, head.len() as int)),
        parse_ops(rest, count) == ops,
    ensures
        parse_ops(head + rest, count + 1) == seq![op] + ops,
{
    assert((head + rest).skip(head.len() as int) =~= rest);
}

proof fn lemma_all_fit(ops: Seq<OpView>)
    requires
        ops.len() > 0,
        forall|i: int| 0 <= i < ops.len() ==> (#[trigger] ops[i]).fits(),
    ensures
        ops[0].fits(),
        forall|i: int| 0 <= i < ops.skip(1).len() ==> (#[trigger] ops.skip(1)[i]).fits(),
        seq![ops[0]] + ops.skip(1) == ops,
        all_op_bytes(ops) == op_bytes(ops[0]) + all_op_bytes(ops.skip(1)),
{
    assert forall|i: int| 0 <= i < ops.skip(1).len() implies (#[trigger] ops.skip(1)[i]).fits() by {
        assert(ops.skip(1)[i] == ops[i + 1]);
    }
    assert(seq![ops[0]] + ops.skip(1) =~= ops);
}

proof fn lemma_ops_roundtrip(ops: Seq<OpView>)
    requires
        forall|i: int| 0 <= i < ops.len() ==> (#[trigger] ops[i]).fits(),
    ensures
        parse_ops(all_op_bytes(ops), ops.len()) == ops,
    decreases ops.len(),
{
    if ops.len() > 0 {
        lemma_all_fit(ops);
        let rest = all_op_bytes(ops.skip(1));
        law_operation_roundtrip(ops[0], rest);
        lemma_ops_roundtrip(ops.skip(1));
        lemma_one_op_more(op_bytes(ops[0]), rest, ops[0], ops.skip(1), ops.skip(1).len());
    } else {
        assert(parse_ops(all_op_bytes(ops), 0) =~= ops);
    }
}

/// Decoding a payload gives back the operations that it was made of.
pub proof fn law_payload_roundtrip(ops: Seq<OpView>)
    requires
        forall|i: int| 0 <= i < ops.len() ==> (#[trigger] ops[i]).fits(),
        ops.len() < 0x1_0000_0000,
    ensures
        decoded(payload_bytes(ops)) == ops,
{
    lemma_byte_spans();
    lemma_le_roundtrip(ops.len(), 4);
    assert(payload_bytes(ops).take(4) =~= le_bytes(ops.len(), 4));
    assert(payload_bytes(ops).skip(4) =~= all_op_bytes(ops));
    lemma_ops_roundtrip(ops);
}

proof fn lemma_frame_fields(payload: Seq<u8>, crc: u32, tail: Seq<u8>)
    requires
        payload.len() < 0x1_0000_0000,
    ensures
        ({
            let log = frame_with(payload, crc) + tail;
            &&& log.len() == 8 + payload.len() + tail.len()
            &&& le_value(log.take(4)) == payload.len()
            &&& le_value(log.subrange(4, 8)) == crc
            &&& log.subrange(8, 8 + payload.len() as int) == payload
            &&& log.skip(8 + payload.len() as int) == tail
        }),
{
    lemma_byte_spans();
    lemma_le_roundtrip(payload.len(), 4);
    lemma_le_roundtrip(crc as nat, 4);
    let log = frame_with(payload, crc) + tail;
    assert(log.take(4) =~= le_bytes(payload.len(), 4));
    assert(log.subrange(4, 8) =~= le_bytes(crc as nat, 4));
    assert(log.subrange(8, 8 + payload.len() as int) =~= payload);
    assert(log.skip(8 + payload.len() as int) =~= tail);
}

/// Recovery gives back an appended batch, then what follows it.
pub proof fn law_appended_batch_recovered(ops: Seq<OpView>, tail: Seq<u8>)
    requires
        recoverable(ops),
    ensures
        recovered(appended(ops) + tail) == ops + recovered(tail),
{
    let payload = payload_bytes(ops);
    lemma_le_bytes_len(ops.len(), 4);
    lemma_frame_fields(payload, crc32_of(payload), tail);
    law_payload_roundtrip(ops);
}

/// Recovery gives back every batch of a log in order, then what follows.
pub proof fn law_log_recovered(batches: Seq<Seq<OpView>>, tail: Seq<u8>)
    requires
        forall|i: int| 0 <= i < batches.len() ==> recoverable(#[trigger] batches[i]),
    ensures
        recovered(log_of(batches) + tail) == all_ops(batches) + recovered(tail),
    decreases batches.len(),
{
    if batches.len() == 0 {
        assert(log_of(batches) + tail =~= tail);
        assert(all_ops(batches) + recovered(tail) =~= recovered(tail));
    } else {
        let rest = log_of(batches.skip(1)) + tail;
        assert(recoverable(batches[0]));
        assert forall|i: int| 0 <= i < batches.skip(1).len() implies recoverable(
            #[trigger] batches.skip(1)[i],
        ) by {
            assert(batches.skip(1)[i] == batches[i + 1]);
        }
        law_log_recovered(batches.skip(1), tail);
        law_appended_batch_recovered(batches[0], rest);
        assert(log_of(batches) + tail =~= appended(batches[0]) + rest);
        assert(all_ops(batches) + recovered(tail) =~= batches[0] + (all_ops(batches.skip(1))
            + recovered(tail)));
    }
}

/// Nothing is recovered of a frame that is cut off: a batch is logged as a
/// whole or not at all.
pub proof fn law_torn_frame_dropped(ops: Seq<OpView>, n: int)
    requires
        payload_bytes(ops).len() < 0x1_0000_0000,
        0 <= n < appended(ops).len(),
    ensures
        recovered(appended(ops).take(n)) == Seq::<OpView>::empty(),
{
    let payload = payload_bytes(ops);
    let whole = frame(payload) + Seq::<u8>::empty();
    assert(whole =~= frame(payload));
    lemma_frame_fields(payload, crc32_of(payload), Seq::empty());
    if n >= 8 {
        assert(whole.take(n).take(4) =~= whole.take(4));
    }
}

/// A frame with a wrong checksum ends recovery.
pub proof fn law_damaged_frame_dropped(payload: Seq<u8>, crc: u32, tail: Seq<u8>)
    requires
        payload.len() < 0x1_0000_0000,
        crc != crc32_of(payload),
    ensures
        recovered(frame_with(payload, crc) + tail) == Seq::<OpView>::empty(),
{
    lemma_frame_fields(payload, crc, tail);
}

/// Cutting a log off anywhere loses operations at the end only.
pub proof fn law_truncated_log_is_prefix(log: Seq<u8>, n: int)
    requires
        0 <= n <= log.len(),
    ensures
        recovered(log.take(n)).is_prefix_of(recovered(log)),
    decreases log.len(),
{
    let cut = log.take(n);
    if recovered(cut).len() > 0 {
        let size = le_value(cut.take(4)) as int;
        assert(cut.take(4) =~= log.take(4));
        assert(cut.subrange(4, 8) =~= log.subrange(4, 8));
        assert(cut.subrange(8, 8 + size) =~= log.subrange(8, 8 + size));
        assert(cut.skip(8 + size) =~= log.skip(8 + size).take(n - 8 - size));
        law_truncated_log_is_prefix(log.skip(8 + size), n - 8 - size);
        let first = decoded(log.subrange(8, 8 + size));
        let a = recovered(cut.skip(8 + size));
        let b = recovered(log.skip(8 + size));
        assert((first + a) =~= (first + b).subrange(0, (first + a).len() as int));
    }
}

/// By the default policy, fewer operations than its interval are ever left
/// unsynced, however many are appended, together or one by one.
pub proof fn law_few_operations_are_unsynced(unsynced: nat, n: nat)
    requires
        unsynced < SYNC_INTERVAL,
    ensures
        left_unsynced(unsynced, n) < SYNC_INTERVAL,
        left_unsynced_singly(unsynced, n) < SYNC_INTERVAL,
    decreases n,
{
    if n > 0 {
        law_few_operations_are_unsynced(unsynced, (n - 1) as nat);
    }
}

/// What a policy has counted after appends of so many operations each, the
/// first one to an empty log.
pub open spec fn counted(policy: SyncPolicy, appends: Seq<nat>) -> nat
    decreases appends.len(),
{
    if appends.len() == 0 {
        0
    } else {
        policy_count(policy, counted(policy, appends.drop_last()), appends.last())
    }
}

/// Whether the last of some appends is synced.
pub open spec fn last_is_synced(policy: SyncPolicy, appends: Seq<nat>) -> bool {
    appends.len() > 0 && policy_syncs(
        policy,
        counted(policy, appends.drop_last()),
        appends.last(),
    )
}

/// How many operations were appended since the last sync.
pub open spec fn since_sync(policy: SyncPolicy, appends: Seq<nat>) -> nat
    decreases appends.len(),
{
    if appends.len() == 0 || last_is_synced(policy, appends) {
        0
    } else {
        since_sync(policy, appends.drop_last()) + appends.last()
    }
}

/// What every policy promises of any run of appends. `Always` leaves nothing
/// unsynced. An interval leaves fewer operations than it says, and syncs exactly
/// when as many have gathered. `Never`, and an interval of 0, sync nothing.
pub proof fn law_policies_keep_their_promise(policy: SyncPolicy, appends: Seq<nat>)
    ensures
        match policy {
            SyncPolicy::Always => since_sync(policy, appends) == 0 && (appends.len() > 0
                ==> last_is_synced(policy, appends)),
            SyncPolicy::Interval(every) => if every > 0 {
                &&& since_sync(policy, appends) == counted(policy, appends)
                &&& since_sync(policy, appends) < every
                &&& appends.len() > 0 ==> (last_is_synced(policy, appends) <==> since_sync(
                    policy,
                    appends.drop_last(),
                ) + appends.last() >= every)
            } else {
                !last_is_synced(policy, appends)
            },
            SyncPolicy::Never => !last_is_synced(policy, appends),
        },
    decreases appends.len(),
{
    if appends.len() > 0 {
        law_policies_keep_their_promise(policy, appends.drop_last());
    }
}

/// Where everything stands in the bytes of an operation: its kind, the length of the
/// tags in two bytes, the tags, the timestamp and the number in eight bytes each and,
/// unless it is a deletion, the length of the value in four bytes and the value.
pub proof fn law_operation_layout(op: OpView)
    ensures
        ({
            let b = op_bytes(op);
            let t = op.key().0.len() as int;
            &&& b[0] == match op {
                OpView::Insert { .. } => 0u8,
                OpView::Update { .. } => 1u8,
                OpView::Delete { .. } => 2u8,
            }
            &&& b.subrange(1, 3) == le_bytes(op.key().0.len(), 2)
            &&& b.subrange(3, 3 + t) == op.key().0
            &&& b.subrange(3 + t, 11 + t) == le_bytes(ts_bits(op.key().1), 8)
            &&& b.subrange(11 + t, 19 + t) == le_bytes(op.seq() as nat, 8)
            &&& match op {
                OpView::Insert { value, .. } => b.len() == 23 + t + value.len() && b.subrange(
                    19 + t,
                    23 + t,
                ) == le_bytes(value.len(), 4) && b.skip(23 + t) == value,
                OpView::Update { value, .. } => b.len() == 23 + t + value.len() && b.subrange(
                    19 + t,
                    23 + t,
                ) == le_bytes(value.len(), 4) && b.skip(23 + t) == value,
                OpView::Delete { .. } => b.len() == 19 + t,
            }
            &&& b.skip(1) == kv_bytes(op.key(), op.seq(), op.value())
        }),
{
    let b = op_bytes(op);
    let t = op.key().0.len() as int;
    lemma_le_bytes_len(op.key().0.len(), 2);
    lemma_le_bytes_len(ts_bits(op.key().1), 8);
    lemma_le_bytes_len(op.seq() as nat, 8);
    assert(b.subrange(1, 3) =~= le_bytes(op.key().0.len(), 2));
    assert(b.subrange(3, 3 + t) =~= op.key().0);
    assert(b.subrange(3 + t, 11 + t) =~= le_bytes(ts_bits(op.key().1), 8));
    assert(b.subrange(11 + t, 19 + t) =~= le_bytes(op.seq() as nat, 8));
    match op.value() {
        Some(v) => {
            lemma_le_bytes_len(v.len(), 4);
            assert(b.subrange(19 + t, 23 + t) =~= le_bytes(v.len(), 4));
            assert(b.skip(23 + t) =~= v);
        },
        None => {},
    }
    assert(b.skip(1) =~= kv_bytes(op.key(), op.seq(), op.value()));
}

/// Nothing else is read as an operation: the bytes that one takes are those that
/// writing it gives. Bytes with an unknown kind are read as those of an insertion.
pub proof fn law_only_operations_are_read(s: Seq<u8>, op: OpView, n: int)
    requires
        s.len() > 0,
    ensures
        s[0] <= 2 && parse_op(s) == Some((op, n)) ==> op.fits() && 0 <= n <= s.len() && s.take(n)
            == op_bytes(op),
        s[0] > 2 ==> parse_op(s) == parse_op(s.update(0, 0)),
{
    if s[0] > 2 {
        let u = s.update(0, 0);
        if s.len() >= 3 {
            assert(u.subrange(1, 3) =~= s.subrange(1, 3));
            let t = le_value(s.subrange(1, 3)) as int;
            if s.len() >= 19 + t {
                assert(u.subrange(3, 3 + t) =~= s.subrange(3, 3 + t));
                assert(u.subrange(3 + t, 11 + t) =~= s.subrange(3 + t, 11 + t));
                assert(u.subrange(11 + t, 19 + t) =~= s.subrange(11 + t, 19 + t));
                if s.len() >= 23 + t {
                    assert(u.subrange(19 + t, 23 + t) =~= s.subrange(19 + t, 23 + t));
                    let v = le_value(s.subrange(19 + t, 23 + t)) as int;
                    if s.len() >= 23 + t + v {
                        assert(u.subrange(23 + t, 23 + t + v) =~= s.subrange(23 + t, 23 + t + v));
                    }
                }
            }
        }
    } else if parse_op(s) == Some((op, n)) {
        let t = le_value(s.subrange(1, 3)) as int;
        lemma_byte_spans();
        lemma_le_value_bound(s.subrange(1, 3));
        lemma_le_value_bound(s.subrange(3 + t, 11 + t));
        lemma_le_value_bound(s.subrange(11 + t, 19 + t));
        lemma_le_roundtrip_bytes(s.subrange(1, 3));
        lemma_le_roundtrip_bytes(s.subrange(3 + t, 11 + t));
        lemma_le_roundtrip_bytes(s.subrange(11 + t, 19 + t));
        lemma_bits_roundtrip(le_value(s.subrange(3 + t, 11 + t)));
        if s[0] != 2 {
            lemma_le_value_bound(s.subrange(19 + t, 23 + t));
            lemma_le_roundtrip_bytes(s.subrange(19 + t, 23 + t));
        }
        assert(s.take(n) =~= op_bytes(op));
    }
}

/// A payload is the number of its operations in four bytes, then their bytes, one
/// operation after the other.
pub proof fn law_payload_layout(ops: Seq<OpView>, op: OpView)
    ensures
        payload_bytes(ops).take(4) == le_bytes(ops.len(), 4),
        payload_bytes(ops).skip(4) == all_op_bytes(ops),
        all_op_bytes(Seq::<OpView>::empty()) == Seq::<u8>::empty(),
        all_op_bytes(ops.push(op)) == all_op_bytes(ops) + op_bytes(op),
    decreases ops.len(),
{
    lemma_le_bytes_len(ops.len(), 4);
    assert(payload_bytes(ops).take(4) =~= le_bytes(ops.len(), 4));
    assert(payload_bytes(ops).skip(4) =~= all_op_bytes(ops));
    let all = ops.push(op);
    if ops.len() == 0 {
        assert(all_op_bytes(all.skip(1)) =~= Seq::<u8>::empty());
        assert(all_op_bytes(all) == op_bytes(all[0]) + all_op_bytes(all.skip(1)));
        assert(all_op_bytes(all) =~= all_op_bytes(ops) + op_bytes(op));
    } else {
        law_payload_layout(ops.skip(1), op);
        assert(all.skip(1) =~= ops.skip(1).push(op));
        assert(all_op_bytes(all) =~= all_op_bytes(ops) + op_bytes(op));
    }
}

proof fn lemma_op_then(ops: Seq<OpView>, rest: Seq<u8>)
    requires
        ops.len() > 0,
        ops[0].fits(),
    ensures
        all_op_bytes(ops) + rest == op_bytes(ops[0]) + (all_op_bytes(ops.skip(1)) + rest),
        parse_op(op_bytes(ops[0]) + (all_op_bytes(ops.skip(1)) + rest)) == Some(
            (ops[0], op_bytes(ops[0]).len() as int),
        ),
{
    law_operation_roundtrip(ops[0], all_op_bytes(ops.skip(1)) + rest);
    assert(all_op_bytes(ops) + rest =~= op_bytes(ops[0]) + (all_op_bytes(ops.skip(1)) + rest));
}

#[verifier::rlimit(30)]
proof fn lemma_parse_prefix(ops: Seq<OpView>, rest: Seq<u8>, count: nat)
    requires
        forall|i: int| 0 <= i < ops.len() ==> (#[trigger] ops[i]).fits(),
        ops.len() <= count,
        ops.len() == count || parse_op(rest) is None,
    ensures
        parse_ops(all_op_bytes(ops) + rest, count) == ops,
    decreases ops.len(),
{
    if ops.len() == 0 {
        assert(all_op_bytes(ops) + rest =~= rest);
        assert(parse_ops(rest, count) =~= ops);
    } else {
        lemma_all_fit(ops);
        let tail = ops.skip(1);
        lemma_parse_prefix(tail, rest, (count - 1) as nat);
        let head = op_bytes(ops[0]);
        let after = all_op_bytes(tail) + rest;
        lemma_op_then(ops, rest);
        lemma_one_op_more(head, after, ops[0], tail, (count - 1) as nat);
    }
}

/// A payload gives as many operations as it says, or those before the first that is
/// cut off, whatever follows them. One without a number gives none.
pub proof fn law_payload_gives_what_is_whole(ops: Seq<OpView>, count: nat, rest: Seq<u8>)
    requires
        forall|i: int| 0 <= i < ops.len() ==> (#[trigger] ops[i]).fits(),
        ops.len() <= count < 0x1_0000_0000,
        ops.len() == count || parse_op(rest) is None,
    ensures
        decoded(le_bytes(count, 4) + all_op_bytes(ops) + rest) == ops,
        rest.len() < 4 ==> decoded(rest) == Seq::<OpView>::empty(),
{
    lemma_byte_spans();
    lemma_le_roundtrip(count, 4);
    let payload = le_bytes(count, 4) + all_op_bytes(ops) + rest;
    assert(payload.take(4) =~= le_bytes(count, 4));
    assert(payload.skip(4) =~= all_op_bytes(ops) + rest);
    lemma_parse_prefix(ops, rest, count);
}

/// Appending a batch adds one frame: the length of the payload and its checksum in
/// four bytes each, then the payload. An empty batch adds nothing.
pub proof fn law_frame_layout(ops: Seq<OpView>)
    ensures
        ops.len() == 0 ==> appended(ops) == Seq::<u8>::empty(),
        ops.len() > 0 ==> {
            let payload = payload_bytes(ops);
            &&& appended(ops).len() == 8 + payload.len()
            &&& appended(ops).take(4) == le_bytes(payload.len(), 4)
            &&& appended(ops).subrange(4, 8) == le_bytes(crc32_of(payload) as nat, 4)
            &&& appended(ops).skip(8) == payload
        },
{
    if ops.len() > 0 {
        let payload = payload_bytes(ops);
        lemma_le_bytes_len(payload.len(), 4);
        lemma_le_bytes_len(crc32_of(payload) as nat, 4);
        let b = appended(ops);
        assert(b.take(4) =~= le_bytes(payload.len(), 4));
        assert(b.subrange(4, 8) =~= le_bytes(crc32_of(payload) as nat, 4));
        assert(b.skip(8) =~= payload);
    }
}

/// A frame holds the length of its payload and the given checksum in four bytes each,
/// then the payload.
pub proof fn law_frames_hold_their_checksum(payload: Seq<u8>, crc: u32)
    ensures
        frame_with(payload, crc).len() == 8 + payload.len(),
        frame_with(payload, crc).take(4) == le_bytes(payload.len(), 4),
        frame_with(payload, crc).subrange(4, 8) == le_bytes(crc as nat, 4),
        frame_with(payload, crc).skip(8) == payload,
{
    lemma_le_bytes_len(payload.len(), 4);
    lemma_le_bytes_len(crc as nat, 4);
    let b = frame_with(payload, crc);
    assert(b.take(4) =~= le_bytes(payload.len(), 4));
    assert(b.subrange(4, 8) =~= le_bytes(crc as nat, 4));
    assert(b.skip(8) =~= payload);
}

/// Recovery goes frame by frame. It takes the operations of a frame that is whole,
/// neither empty nor longer than 256 MiB, and has the right checksum, and goes on
/// behind it; at any other it stops.
pub proof fn law_frames_are_checked(payload: Seq<u8>, crc: u32, n: nat, rest: Seq<u8>)
    requires
        n < 0x1_0000_0000,
    ensures
        ({
            let log = le_bytes(n, 4) + le_bytes(crc as nat, 4) + payload + rest;
            &&& payload.len() == n && 0 < n <= 0x1000_0000 && crc == crc32_of(payload)
                ==> recovered(log) == decoded(payload) + recovered(rest)
            &&& payload.len() == n && crc != crc32_of(payload) ==> recovered(log) == Seq::<
                OpView,
            >::empty()
            &&& n == 0 || n > 0x1000_0000 || payload.len() + rest.len() < n ==> recovered(log)
                == Seq::<OpView>::empty()
        }),
        rest.len() < 8 ==> recovered(rest) == Seq::<OpView>::empty(),
{
    lemma_byte_spans();
    lemma_le_roundtrip(n, 4);
    lemma_le_roundtrip(crc as nat, 4);
    let log = le_bytes(n, 4) + le_bytes(crc as nat, 4) + payload + rest;
    assert(log.take(4) =~= le_bytes(n, 4));
    assert(log.subrange(4, 8) =~= le_bytes(crc as nat, 4));
    if payload.len() == n {
        assert(log.subrange(8, 8 + n as int) =~= payload);
        assert(log.skip(8 + n as int) =~= rest);
    }
}

/// By the default policy a sync is due when a hundred operations have gathered since
/// the last one; it starts the count anew.
pub proof fn law_every_hundred_operations_are_synced(unsynced: nat, n: nat)
    ensures
        sync_falls_due(unsynced, n) <==> n > 0 && unsynced + n >= 100,
        left_unsynced(unsynced, n) == if n > 0 && unsynced + n >= 100 {
            0
        } else {
            unsynced + n
        },
        left_unsynced_singly(unsynced, 0) == unsynced,
        left_unsynced_singly(unsynced, n + 1) == if left_unsynced_singly(unsynced, n) + 1 >= 100 {
            0
        } else {
            left_unsynced_singly(unsynced, n) + 1
        },
        n > 0 ==> policy_syncs(SyncPolicy::Interval(100), unsynced, n) == sync_falls_due(
            unsynced,
            n,
        ),
{
}

/// What a write stands for in the log: an insertion of its key, number and value, or
/// a deletion of its key; and an operation in the log stands for that write.
pub proof fn law_writes_are_logged_as_operations(
    key: KeyView,
    seq: u64,
    value: Seq<u8>,
    es: Seq<EntryView>,
    ops: Seq<OpView>,
)
    ensures
        entry_op((key, seq, Some(value))) == (OpView::Insert { key, seq, value }),
        entry_op((key, seq, None)) == (OpView::Delete { key, seq }),
        op_entry(OpView::Insert { key, seq, value }) == (key, seq, Some(value)),
        op_entry(OpView::Update { key, seq, value }) == (key, seq, Some(value)),
        op_entry(OpView::Delete { key, seq }) == (key, seq, None::<Seq<u8>>),
        entry_ops(es).len() == es.len(),
        forall|i: int| #![trigger entry_ops(es)[i]]
            0 <= i < es.len() ==> entry_ops(es)[i] == entry_op(es[i]),
        op_entries(ops).len() == ops.len(),
        forall|i: int| #![trigger op_entries(ops)[i]]
            0 <= i < ops.len() ==> op_entries(ops)[i] == op_entry(ops[i]),
        (OpView::Insert { key, seq, value }).key() == key,
        (OpView::Insert { key, seq, value }).seq() == seq,
        (OpView::Insert { key, seq, value }).value() == Some(value),
        (OpView::Update { key, seq, value }).key() == key,
        (OpView::Update { key, seq, value }).seq() == seq,
        (OpView::Update { key, seq, value }).value() == Some(value),
        (OpView::Delete { key, seq }).key() == key,
        (OpView::Delete { key, seq }).seq() == seq,
        (OpView::Delete { key, seq }).value() is None,
{
}

/// A row is estimated at its value and 17 bytes more.
pub proof fn law_rows_are_weighed(h: Seq<EntryView>, key: KeyView, seq: u64, value: Seq<u8>)
    ensures
        bytes_of(Seq::<EntryView>::empty()) == 0,
        bytes_of(h.push((key, seq, Some(value)))) == bytes_of(h) + 17 + value.len(),
        bytes_of(h.push((key, seq, None))) == bytes_of(h) + 17,
{
    assert(h.push((key, seq, Some(value))).drop_last() =~= h);
    assert(h.push((key, seq, None)).drop_last() =~= h);
}

/// When an open log is to be synced: never, always, or when as many operations as its
/// policy says have gathered, which starts the count anew.
pub proof fn law_logs_are_synced_by_policy(wal: Wal, n: u32)
    ensures
        wal.sync_due(n) <==> match wal.spec_policy() {
            SyncPolicy::Never => false,
            SyncPolicy::Always => true,
            SyncPolicy::Interval(every) => every > 0 && wal.unsynced() + n >= every,
        },
        wal.unsynced_after(n) == match wal.spec_policy() {
            SyncPolicy::Interval(every) => if every > 0 && wal.unsynced() + n >= every {
                0int
            } else {
                wal.unsynced() + n
            },
            _ => wal.unsynced() as int,
        },
        wal.can_count(n) <==> (wal.spec_policy() is Interval ==> wal.unsynced() + n <= u32::MAX),
{
}

/// What a list of operations stands for: each in order, with its kind, key, number and
/// value.
pub proof fn law_operations_stand_for_themselves(
    ops: Seq<Operation>,
    key: Key,
    seq: u64,
    value: Value,
)
    ensures
        ops_view(ops).len() == ops.len(),
        forall|i: int| #![trigger ops_view(ops)[i]]
            0 <= i < ops.len() ==> ops_view(ops)[i] == ops[i]@,
        (Operation::Insert { key, seq, value })@ == (OpView::Insert {
            key: (key.0@, key.1),
            seq,
            value: value@,
        }),
        (Operation::Update { key, seq, value })@ == (OpView::Update {
            key: (key.0@, key.1),
            seq,
            value: value@,
        }),
        (Operation::Delete { key, seq })@ == (OpView::Delete { key: (key.0@, key.1), seq }),
{
}

/// Which operations and batches a log can give back: tags shorter than 64 KiB, values
/// shorter than 4 GiB, at least one operation, and no more than 256 MiB of them.
pub proof fn law_what_can_be_recovered(op: OpView, ops: Seq<OpView>)
    ensures
        op.fits() <==> op.key().0.len() < 0x1_0000 && (op.value() matches Some(v) ==> v.len()
            < 0x1_0000_0000),
        recoverable(ops) <==> 0 < ops.len() < 0x1_0000_0000 && payload_bytes(ops).len()
            <= 0x1000_0000 && forall|i: int| 0 <= i < ops.len() ==> (#[trigger] ops[i]).fits(),
{
}

/// A log grows by one frame for each batch, and its operations by those of the batch.
pub proof fn law_logs_grow_batch_by_batch(batches: Seq<Seq<OpView>>, more: Seq<OpView>)
    ensures
        log_of(Seq::<Seq<OpView>>::empty()) == Seq::<u8>::empty(),
        log_of(batches.push(more)) == log_of(batches) + appended(more),
        all_ops(Seq::<Seq<OpView>>::empty()) == Seq::<OpView>::empty(),
        all_ops(batches.push(more)) == all_ops(batches) + more,
    decreases batches.len(),
{
    lemma_log_push(batches, more);
    let all = batches.push(more);
    if batches.len() == 0 {
        assert(all_ops(all.skip(1)) =~= Seq::<OpView>::empty());
        assert(all_ops(all) == all[0] + all_ops(all.skip(1)));
        assert(all_ops(all) =~= all_ops(batches) + more);
    } else {
        law_logs_grow_batch_by_batch(batches.skip(1), more);
        assert(all.skip(1) =~= batches.skip(1).push(more));
        assert(all_ops(all) =~= all_ops(batches) + more);
    }
}

} // verus!
