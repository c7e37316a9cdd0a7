//! The write-ahead log: operations in checksummed frames.
//!
//! A frame is the length of its payload (four bytes), the CRC-32 of the
//! payload (four bytes) and the payload. Recovery reads frames from the start
//! and stops at the first that is cut off, impossibly long or damaged.

use vstd::prelude::*;
use vstd::slice::slice_subrange;
use vstd::slice::slice_to_vec;
use crate::little_endian::{
    bits_to_ts, bits_ts, le_bytes, le_value, lemma_byte_spans, push_le, read_le, ts_bits,
    ts_to_bits,
};
use crate::types::{copy_bytes, copy_key, key_view, Key, KeyView, Value};

verus! {

pub const KIND_INSERT: u8 = 0;

pub const KIND_UPDATE: u8 = 1;

pub const KIND_DELETE: u8 = 2;

/// The longest payload that recovery accepts: 256 MiB.
pub const MAX_FRAME_LEN: usize = 0x1000_0000;

/// One logged change.
#[derive(Debug)]
pub enum Operation {
    Insert { key: Key, seq: u64, value: Value },
    Update { key: Key, seq: u64, value: Value },
    Delete { key: Key, seq: u64 },
}

impl Clone for Operation {
    fn clone(&self) -> (r: Self)
        ensures
            r@ == self@,
    {
        match self {
            Operation::Insert { key, seq, value } => Operation::Insert {
                key: copy_key(key),
                seq: *seq,
                value: copy_bytes(value),
            },
            Operation::Update { key, seq, value } => Operation::Update {
                key: copy_key(key),
                seq: *seq,
                value: copy_bytes(value),
            },
            Operation::Delete { key, seq } => Operation::Delete { key: copy_key(key), seq: *seq },
        }
    }
}

/// What an [`Operation`] stands for.
pub enum OpView {
    Insert { key: KeyView, seq: u64, value: Seq<u8> },
    Update { key: KeyView, seq: u64, value: Seq<u8> },
    Delete { key: KeyView, seq: u64 },
}

impl View for Operation {
    type V = OpView;

    open spec fn view(&self) -> OpView {
        match *self {
            Operation::Insert { key, seq, value } => OpView::Insert {
                key: key_view(key),
                seq,
                value: value@,
            },
            Operation::Update { key, seq, value } => OpView::Update {
                key: key_view(key),
                seq,
                value: value@,
            },
            Operation::Delete { key, seq } => OpView::Delete { key: key_view(key), seq },
        }
    }
}

/// What a list of operations stands for.
pub open spec fn ops_view(ops: Seq<Operation>) -> Seq<OpView> {
    ops.map_values(|op: Operation| op@)
}

impl OpView {
    pub open spec fn key(self) -> KeyView {
        match self {
            OpView::Insert { key, .. } => key,
            OpView::Update { key, .. } => key,
            OpView::Delete { key, .. } => key,
        }
    }

    pub open spec fn seq(self) -> u64 {
        match self {
            OpView::Insert { seq, .. } => seq,
            OpView::Update { seq, .. } => seq,
            OpView::Delete { seq, .. } => seq,
        }
    }

    /// What is written; `None` is a deletion.
    pub open spec fn value(self) -> Option<Seq<u8>> {
        match self {
            OpView::Insert { value, .. } => Some(value),
            OpView::Update { value, .. } => Some(value),
            OpView::Delete { .. } => None,
        }
    }

    /// The lengths of tags and value fit their length fields.
    pub open spec fn fits(self) -> bool {
        &&& self.key().0.len() < 0x1_0000
        &&& self.value() is Some ==> self.value().unwrap().len() < 0x1_0000_0000
    }
}

/// The bytes of key, sequence number and value.
pub open spec fn kv_bytes(key: KeyView, seq: u64, value: Option<Seq<u8>>) -> Seq<u8> {
    le_bytes(key.0.len(), 2) + key.0 + le_bytes(ts_bits(key.1), 8) + le_bytes(seq as nat, 8) + (
    match value {
        Some(v) => le_bytes(v.len(), 4) + v,
        None => Seq::empty(),
    })
}

pub open spec fn kind_of(op: OpView) -> u8 {
    match op {
        OpView::Insert { .. } => KIND_INSERT,
        OpView::Update { .. } => KIND_UPDATE,
        OpView::Delete { .. } => KIND_DELETE,
    }
}

/// The bytes of one operation.
pub open spec fn op_bytes(op: OpView) -> Seq<u8> {
    seq![kind_of(op)] + kv_bytes(op.key(), op.seq(), op.value())
}

/// The bytes of several operations in a row.
pub open spec fn all_op_bytes(ops: Seq<OpView>) -> Seq<u8>
    decreases ops.len(),
{
    if ops.len() == 0 {
        Seq::empty()
    } else {
        op_bytes(ops[0]) + all_op_bytes(ops.skip(1))
    }
}

/// The payload of a frame: the number of operations, then the operations.
pub open spec fn payload_bytes(ops: Seq<OpView>) -> Seq<u8> {
    le_bytes(ops.len(), 4) + all_op_bytes(ops)
}

/// The operation at the start of `s` and how many bytes it takes; `None`
/// where `s` is cut off. An unknown kind reads as an insertion.
pub open spec fn parse_op(s: Seq<u8>) -> Option<(OpView, int)> {
    if s.len() < 3 {
        None
    } else {
        let t = le_value(s.subrange(1, 3)) as int;
        if s.len() < 19 + t {
            None
        } else {
            let key = (s.subrange(3, 3 + t), bits_ts(le_value(s.subrange(3 + t, 11 + t))));
            let seq = le_value(s.subrange(11 + t, 19 + t)) as u64;
            if s[0] == KIND_DELETE {
                Some((OpView::Delete { key, seq }, 19 + t))
            } else if s.len() < 23 + t {
                None
            } else {
                let n = le_value(s.subrange(19 + t, 23 + t)) as int;
                if s.len() < 23 + t + n {
                    None
                } else {
                    let value = s.subrange(23 + t, 23 + t + n);
                    if s[0] == KIND_UPDATE {
                        Some((OpView::Update { key, seq, value }, 23 + t + n))
                    } else {
                        Some((OpView::Insert { key, seq, value }, 23 + t + n))
                    }
                }
            }
        }
    }
}

/// At most `count` operations from the start of `s`, up to the first that is
/// cut off.
pub open spec fn parse_ops(s: Seq<u8>, count: nat) -> Seq<OpView>
    decreases count,
{
    if count == 0 {
        Seq::empty()
    } else {
        match parse_op(s) {
            None => Seq::empty(),
            Some((op, n)) => seq![op] + parse_ops(s.skip(n), (count - 1) as nat),
        }
    }
}

/// The operations of a payload.
pub open spec fn decoded(payload: Seq<u8>) -> Seq<OpView> {
    if payload.len() < 4 {
        Seq::empty()
    } else {
        parse_ops(payload.skip(4), le_value(payload.take(4)))
    }
}

/// The CRC-32 checksum of `data`, as `crc32fast` computes it.
pub uninterp spec fn crc32_of(data: Seq<u8>) -> u32;

/// Calls `crc32fast::hash`. Claimed: the result depends on the bytes alone;
/// it is called `crc32_of`. How the checksum is computed is not stated.
#[verifier::external_body]
fn crc32(data: &[u8]) -> (r: u32)
    ensures
        r == crc32_of(data@),
{
    crc32fast::hash(data)
}

/// A frame whose checksum field holds `crc`.
pub open spec fn frame_with(payload: Seq<u8>, crc: u32) -> Seq<u8> {
    le_bytes(payload.len(), 4) + le_bytes(crc as nat, 4) + payload
}

/// The frame of a payload.
pub open spec fn frame(payload: Seq<u8>) -> Seq<u8> {
    frame_with(payload, crc32_of(payload))
}

/// What appending a batch of operations adds to the log.
pub open spec fn appended(ops: Seq<OpView>) -> Seq<u8> {
    if ops.len() == 0 {
        Seq::empty()
    } else {
        frame(payload_bytes(ops))
    }
}

/// The operations in the sound frames at the start of a log.
pub open spec fn recovered(log: Seq<u8>) -> Seq<OpView>
    decreases log.len(),
{
    if log.len() < 8 {
        Seq::empty()
    } else {
        let n = le_value(log.take(4)) as int;
        if n == 0 || n > MAX_FRAME_LEN || log.len() < 8 + n {
            Seq::empty()
        } else {
            let payload = log.subrange(8, 8 + n);
            if crc32_of(payload) != le_value(log.subrange(4, 8)) {
                Seq::empty()
            } else {
                decoded(payload) + recovered(log.skip(8 + n))
            }
        }
    }
}

/// Appends the bytes of key, sequence number and value.
pub fn encode_kv(key: &Key, seq: u64, value: Option<&Value>, buf: &mut Vec<u8>)
    ensures
        final(buf)@ == old(buf)@ + kv_bytes(
            key_view(*key),
            seq,
            match value {
                Some(v) => Some(v@),
                None => None,
            },
        ),
{
    push_le(buf, key.0.len() as u64, 2);
    append_bytes(buf, &key.0);
    push_le(buf, ts_to_bits(key.1), 8);
    push_le(buf, seq, 8);
    match value {
        Some(v) => {
            push_le(buf, v.len() as u64, 4);
            append_bytes(buf, v);
        },
        None => {},
    }
    assert(buf@ =~= old(buf)@ + kv_bytes(
        key_view(*key),
        seq,
        match value {
            Some(v) => Some(v@),
            None => None,
        },
    ));
}

pub(crate) fn append_bytes(buf: &mut Vec<u8>, more: &Vec<u8>)
    ensures
        final(buf)@ == old(buf)@ + more@,
{
    buf.extend_from_slice(more.as_slice());
    assert(buf@ =~= old(buf)@ + more@);
}

/// Appends the payload that holds `ops`.
pub fn encode_ops(ops: &[Operation], buf: &mut Vec<u8>)
    ensures
        final(buf)@ == old(buf)@ + payload_bytes(ops_view(ops@)),
{
    push_le(buf, ops.len() as u64, 4);
    let mut i: usize = 0;
    let ghost all = ops_view(ops@);
    assert(all.skip(0) =~= all);
    assert(buf@ + all_op_bytes(all.skip(0)) =~= old(buf)@ + payload_bytes(all));
    while i < ops.len()
        invariant
            i <= ops.len(),
            all == ops_view(ops@),
            buf@ + all_op_bytes(all.skip(i as int)) == old(buf)@ + payload_bytes(all),
        decreases ops.len() - i,
    {
        let ghost before = buf@;
        match &ops[i] {
            Operation::Insert { key, seq, value } => {
                buf.push(KIND_INSERT);
                encode_kv(key, *seq, Some(value), buf);
            },
            Operation::Update { key, seq, value } => {
                buf.push(KIND_UPDATE);
                encode_kv(key, *seq, Some(value), buf);
            },
            Operation::Delete { key, seq } => {
                buf.push(KIND_DELETE);
                encode_kv(key, *seq, None, buf);
            },
        }
        proof {
            let rest = all.skip(i as int);
            assert(rest[0] == ops@[i as int]@);
            assert(buf@ =~= before + op_bytes(rest[0]));
            assert(rest.skip(1) =~= all.skip(i + 1));
            assert(before + all_op_bytes(rest) =~= buf@ + all_op_bytes(all.skip(i + 1)));
        }
        i += 1;
    }
    assert(buf@ + all_op_bytes(all.skip(i as int)) =~= buf@);
}

fn read_u8(d: &mut &[u8]) -> (r: Option<u8>)
    ensures
        match r {
            None => (*old(d))@.len() == 0 && *final(d) == *old(d),
            Some(x) => (*old(d))@.len() >= 1 && x == (*old(d))@[0] && (*final(d))@ == (*old(
                d,
            ))@.skip(1),
        },
{
    if d.len() < 1 {
        return None;
    }
    let x: u8 = d[0];
    *d = slice_subrange(*d, 1, d.len());
    Some(x)
}

fn read_u16(d: &mut &[u8]) -> (r: Option<u16>)
    ensures
        match r {
            None => (*old(d))@.len() < 2 && *final(d) == *old(d),
            Some(x) => {
                &&& (*old(d))@.len() >= 2
                &&& x == le_value((*old(d))@.subrange(0, 2))
                &&& (*final(d))@ == (*old(d))@.skip(2)
            },
        },
{
    if d.len() < 2 {
        return None;
    }
    proof {
        lemma_byte_spans();
    }
    let x: u64 = read_le(*d, 0, 2);
    *d = slice_subrange(*d, 2, d.len());
    Some(x as u16)
}

fn read_u32(d: &mut &[u8]) -> (r: Option<u32>)
    ensures
        match r {
            None => (*old(d))@.len() < 4 && *final(d) == *old(d),
            Some(x) => {
                &&& (*old(d))@.len() >= 4
                &&& x == le_value((*old(d))@.subrange(0, 4))
                &&& (*final(d))@ == (*old(d))@.skip(4)
            },
        },
{
    if d.len() < 4 {
        return None;
    }
    proof {
        lemma_byte_spans();
    }
    let x: u64 = read_le(*d, 0, 4);
    *d = slice_subrange(*d, 4, d.len());
    Some(x as u32)
}

fn read_u64(d: &mut &[u8]) -> (r: Option<u64>)
    ensures
        match r {
            None => (*old(d))@.len() < 8 && *final(d) == *old(d),
            Some(x) => {
                &&& (*old(d))@.len() >= 8
                &&& x == le_value((*old(d))@.subrange(0, 8))
                &&& (*final(d))@ == (*old(d))@.skip(8)
            },
        },
{
    if d.len() < 8 {
        return None;
    }
    let x: u64 = read_le(*d, 0, 8);
    *d = slice_subrange(*d, 8, d.len());
    Some(x)
}

fn read_vec(d: &mut &[u8], n: usize) -> (r: Option<Vec<u8>>)
    ensures
        match r {
            None => (*old(d))@.len() < n && *final(d) == *old(d),
            Some(x) => {
                &&& (*old(d))@.len() >= n
                &&& x@ == (*old(d))@.subrange(0, n as int)
                &&& (*final(d))@ == (*old(d))@.skip(n as int)
            },
        },
{
    if d.len() < n {
        return None;
    }
    let x = slice_to_vec(slice_subrange(*d, 0, n));
    *d = slice_subrange(*d, n, d.len());
    Some(x)
}

/// Reads the operation at the front of `d` and moves past it.
fn decode_op(d: &mut &[u8]) -> (r: Option<Operation>)
    ensures
        match r {
            None => parse_op((*old(d))@) is None,
            Some(op) => parse_op((*old(d))@) matches Some((v, n)) && op@ == v && (*final(d))@
                == (*old(d))@.skip(n),
        },
{
    let ghost s = (*d)@;
    let kind: u8 = match read_u8(d) {
        Some(x) => x,
        None => return None,
    };
    let tag_len: u16 = match read_u16(d) {
        Some(x) => x,
        None => return None,
    };
    let ghost t = tag_len as int;
    assert(s.skip(1).subrange(0, 2) =~= s.subrange(1, 3));
    assert((*d)@ =~= s.skip(3));
    let tags = match read_vec(d, tag_len as usize) {
        Some(x) => x,
        None => return None,
    };
    assert(s.skip(3).subrange(0, t) =~= s.subrange(3, 3 + t));
    assert((*d)@ =~= s.skip(3 + t));
    let ts: i64 = match read_u64(d) {
        Some(x) => bits_to_ts(x),
        None => return None,
    };
    assert(s.skip(3 + t).subrange(0, 8) =~= s.subrange(3 + t, 11 + t));
    assert((*d)@ =~= s.skip(11 + t));
    let seq: u64 = match read_u64(d) {
        Some(x) => x,
        None => return None,
    };
    assert(s.skip(11 + t).subrange(0, 8) =~= s.subrange(11 + t, 19 + t));
    assert((*d)@ =~= s.skip(19 + t));
    if kind == KIND_DELETE {
        return Some(Operation::Delete { key: (tags, ts), seq });
    }
    let value_len: u32 = match read_u32(d) {
        Some(x) => x,
        None => return None,
    };
    let ghost n = value_len as int;
    assert(s.skip(19 + t).subrange(0, 4) =~= s.subrange(19 + t, 23 + t));
    assert((*d)@ =~= s.skip(23 + t));
    let value = match read_vec(d, value_len as usize) {
        Some(x) => x,
        None => return None,
    };
    assert(s.skip(23 + t).subrange(0, n) =~= s.subrange(23 + t, 23 + t + n));
    assert((*d)@ =~= s.skip(23 + t + n));
    if kind == KIND_UPDATE {
        Some(Operation::Update { key: (tags, ts), seq, value })
    } else {
        Some(Operation::Insert { key: (tags, ts), seq, value })
    }
}

/// Reads the operations of a payload, up to the first that is cut off.
pub fn decode_ops(payload: &[u8]) -> (out: Vec<Operation>)
    ensures
        ops_view(out@) == decoded(payload@),
{
    let mut d = payload;
    let mut out: Vec<Operation> = Vec::new();
    assert(ops_view(out@) =~= Seq::empty());
    let count: u32 = match read_u32(&mut d) {
        Some(x) => x,
        None => return out,
    };
    assert(payload@.take(4) =~= payload@.subrange(0, 4));
    let mut i: u32 = 0;
    assert(ops_view(out@) + parse_ops(d@, count as nat) =~= decoded(payload@));
    while i < count
        invariant
            i <= count,
            ops_view(out@) + parse_ops(d@, (count - i) as nat) == decoded(payload@),
        decreases count - i,
    {
        let ghost before = ops_view(out@);
        let ghost rest = d@;
        match decode_op(&mut d) {
            None => {
                assert(before + parse_ops(rest, (count - i) as nat) =~= before);
                return out;
            },
            Some(op) => {
                out.push(op);
                assert(ops_view(out@) =~= before.push(op@));
                assert(before + parse_ops(rest, (count - i) as nat) =~= ops_view(out@) + parse_ops(
                    d@,
                    (count - i - 1) as nat,
                ));
            },
        }
        i += 1;
    }
    assert(ops_view(out@) + parse_ops(d@, 0) =~= ops_view(out@));
    out
}

/// Builds the frame of a payload from the payload's checksum.
pub fn frame_bytes(payload: &Vec<u8>, crc: u32) -> (out: Vec<u8>)
    ensures
        out@ == frame_with(payload@, crc),
{
    let mut out: Vec<u8> = Vec::new();
    push_le(&mut out, payload.len() as u64, 4);
    push_le(&mut out, crc as u64, 4);
    append_bytes(&mut out, payload);
    assert(out@ =~= frame_with(payload@, crc));
    out
}

/// The operations of a payload if its checksum is the stored one.
pub fn accept_frame(payload: &[u8], stored: u32, computed: u32) -> (r: Option<Vec<Operation>>)
    ensures
        r is Some <==> stored == computed,
        r matches Some(ops) ==> ops_view(ops@) == decoded(payload@),
{
    if stored == computed {
        Some(decode_ops(payload))
    } else {
        None
    }
}

/// How many operations the default policy lets pass between two syncs.
pub const SYNC_INTERVAL: u32 = 100;

/// Appending `n` operations, after `unsynced` since the last sync, calls for a
/// sync by the default policy.
pub open spec fn sync_falls_due(unsynced: nat, n: nat) -> bool {
    n > 0 && unsynced + n >= SYNC_INTERVAL
}

/// How many operations are not synced by the default policy after `n` more.
pub open spec fn left_unsynced(unsynced: nat, n: nat) -> nat {
    if sync_falls_due(unsynced, n) {
        0
    } else {
        unsynced + n
    }
}

/// How many operations are not synced after `n` more, appended one by one.
pub open spec fn left_unsynced_singly(unsynced: nat, n: nat) -> nat
    decreases n,
{
    if n == 0 {
        unsynced
    } else {
        left_unsynced(left_unsynced_singly(unsynced, (n - 1) as nat), 1)
    }
}

/// When appended frames are forced to disk.
#[derive(Clone, Copy, Debug, PartialEq, Eq, Structural)]
pub enum SyncPolicy {
    Never,
    Interval(u32),
    Always,
}

/// Whether the policy calls for a sync when `n` operations are appended after
/// it has counted `count`.
pub open spec fn policy_syncs(policy: SyncPolicy, count: nat, n: nat) -> bool {
    match policy {
        SyncPolicy::Never => false,
        SyncPolicy::Always => true,
        SyncPolicy::Interval(every) => every > 0 && count + n >= every,
    }
}

/// What the policy has counted after `n` more operations.
pub open spec fn policy_count(policy: SyncPolicy, count: nat, n: nat) -> nat {
    match policy {
        SyncPolicy::Interval(_) => if policy_syncs(policy, count, n) {
            0
        } else {
            count + n
        },
        _ => count,
    }
}

impl Default for SyncPolicy {
    fn default() -> (r: Self)
        ensures
            r == SyncPolicy::Interval(SYNC_INTERVAL),
    {
        SyncPolicy::Interval(SYNC_INTERVAL)
    }
}

/// What the caller does to carry out an append: write `bytes` at the end of
/// the log file and, where `sync` is set, force the file to disk.
pub struct Append {
    pub bytes: Vec<u8>,
    pub sync: bool,
}

/// The state of an open log.
pub struct Wal {
    path: String,
    sync_policy: SyncPolicy,
    ops_since_sync: u32,
}

impl Wal {
    /// Where the log is kept.
    pub closed spec fn spec_path(&self) -> Seq<char> {
        self.path@
    }

    pub closed spec fn spec_policy(&self) -> SyncPolicy {
        self.sync_policy
    }

    /// How many operations were appended since the last sync, where the
    /// policy counts them.
    pub closed spec fn unsynced(&self) -> u32 {
        self.ops_since_sync
    }

    /// Counting `n` more operations does not overflow the counter.
    pub open spec fn can_count(&self, n: u32) -> bool {
        self.spec_policy() is Interval ==> self.unsynced() + n <= u32::MAX
    }

    /// Whether appending `n` operations calls for a sync.
    pub open spec fn sync_due(&self, n: u32) -> bool {
        policy_syncs(self.spec_policy(), self.unsynced() as nat, n as nat)
    }

    /// The counter after appending `n` operations.
    pub open spec fn unsynced_after(&self, n: u32) -> int {
        policy_count(self.spec_policy(), self.unsynced() as nat, n as nat) as int
    }

    /// A log at `path` that syncs by the default policy.
    pub fn new(path: String) -> (r: Self)
        ensures
            r.spec_path() == path@,
            r.spec_policy() == SyncPolicy::Interval(SYNC_INTERVAL),
            r.spec_policy() == SyncPolicy::Interval(100),
            r.unsynced() == 0,
    {
        Self::with_sync_policy(path, SyncPolicy::default())
    }

    /// A log at `path` that syncs by `sync_policy`.
    pub fn with_sync_policy(path: String, sync_policy: SyncPolicy) -> (r: Self)
        ensures
            r.spec_path() == path@,
            r.spec_policy() == sync_policy,
            r.unsynced() == 0,
    {
        Wal { path, sync_policy, ops_since_sync: 0 }
    }

    /// Where the log is kept.
    pub fn path(&self) -> (r: &String)
        ensures
            r@ == self.spec_path(),
    {
        &self.path
    }

    /// Appends one operation in a frame of its own.
    pub fn append(&mut self, op: &Operation) -> (r: Append)
        requires
            old(self).can_count(1),
        ensures
            r.bytes@ == appended(seq![op@]),
            r.sync == old(self).sync_due(1),
            final(self).unsynced() == old(self).unsynced_after(1),
            final(self).spec_policy() == old(self).spec_policy(),
            final(self).spec_path() == old(self).spec_path(),
    {
        let mut ops: Vec<Operation> = Vec::new();
        ops.push(op.clone());
        assert(ops_view(ops@) =~= seq![op@]);
        self.append_batch(ops.as_slice())
    }

    /// Appends all of `ops` in one frame; an empty batch appends nothing.
    pub fn append_batch(&mut self, ops: &[Operation]) -> (r: Append)
        requires
            ops@.len() > 0 ==> old(self).can_count(ops@.len() as u32),
        ensures
            r.bytes@ == appended(ops_view(ops@)),
            r.sync == (ops@.len() > 0 && old(self).sync_due(ops@.len() as u32)),
            final(self).unsynced() == if ops@.len() > 0 {
                old(self).unsynced_after(ops@.len() as u32)
            } else {
                old(self).unsynced() as int
            },
            final(self).spec_policy() == old(self).spec_policy(),
            final(self).spec_path() == old(self).spec_path(),
    {
        if ops.len() == 0 {
            return Append { bytes: Vec::new(), sync: false };
        }
        let mut payload: Vec<u8> = Vec::new();
        encode_ops(ops, &mut payload);
        assert(payload@ =~= payload_bytes(ops_view(ops@)));
        let crc: u32 = crc32(payload.as_slice());
        let bytes = frame_bytes(&payload, crc);
        let sync = self.maybe_sync(ops.len() as u32);
        Append { bytes, sync }
    }

    fn maybe_sync(&mut self, n_ops: u32) -> (sync: bool)
        requires
            old(self).can_count(n_ops),
        ensures
            sync == old(self).sync_due(n_ops),
            final(self).unsynced() == old(self).unsynced_after(n_ops),
            final(self).spec_policy() == old(self).spec_policy(),
            final(self).spec_path() == old(self).spec_path(),
    {
        match self.sync_policy {
            SyncPolicy::Never => false,
            SyncPolicy::Always => true,
            SyncPolicy::Interval(n) => {
                self.ops_since_sync = self.ops_since_sync + n_ops;
                if n > 0 && self.ops_since_sync >= n {
                    self.ops_since_sync = 0;
                    true
                } else {
                    false
                }
            },
        }
    }

    /// The operations in the sound frames at the start of a log.
    pub fn recover(log: &[u8]) -> (out: Vec<Operation>)
        ensures
            ops_view(out@) == recovered(log@),
    {
        let mut out: Vec<Operation> = Vec::new();
        let mut d = log;
        assert(ops_view(out@) + recovered(d@) =~= recovered(log@));
        loop
            invariant
                ops_view(out@) + recovered(d@) == recovered(log@),
            decreases d@.len(),
        {
            let ghost s = d@;
            let ghost before = ops_view(out@);
            let frame_len: u32 = match read_u32(&mut d) {
                Some(x) => x,
                None => {
                    assert(before + recovered(s) =~= before);
                    return out;
                },
            };
            assert(s.take(4) =~= s.subrange(0, 4));
            if frame_len == 0 || frame_len as usize > MAX_FRAME_LEN {
                assert(before + recovered(s) =~= before);
                return out;
            }
            let stored: u32 = match read_u32(&mut d) {
                Some(x) => x,
                None => {
                    assert(before + recovered(s) =~= before);
                    return out;
                },
            };
            assert(s.skip(4).subrange(0, 4) =~= s.subrange(4, 8));
            assert(d@ =~= s.skip(8));
            let ghost n = frame_len as int;
            let payload = match read_vec(&mut d, frame_len as usize) {
                Some(x) => x,
                None => {
                    assert(before + recovered(s) =~= before);
                    return out;
                },
            };
            assert(s.skip(8).subrange(0, n) =~= s.subrange(8, 8 + n));
            assert(d@ =~= s.skip(8 + n));
            let computed: u32 = crc32(payload.as_slice());
            match accept_frame(payload.as_slice(), stored, computed) {
                None => {
                    assert(before + recovered(s) =~= before);
                    return out;
                },
                Some(ops) => {
                    let mut ops = ops;
                    let ghost added = ops_view(ops@);
                    out.append(&mut ops);
                    assert(ops_view(out@) =~= before + added);
                    assert(before + recovered(s) =~= ops_view(out@) + recovered(d@));
                },
            }
        }
    }
}

} // verus!
