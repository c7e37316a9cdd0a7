//! The index of a table: a filter, the key and time ranges of its row groups.

use vstd::prelude::*;
use base64::Engine;
use crate::entries::{entries_view, entry_view, is_run, max_seq_of, Entry, EntryView};
use crate::order::{group_key_order, key_le, key_lt};
use crate::sstable::bloom::{bit_at, bits_for, hashes_for, key_has_bit, BloomFilter};
use crate::sstable::hex::{from_hex, hex_of, law_hex_roundtrip, to_hex, unhexed};
use crate::types::{copy_key, key_view, Key};

verus! {

broadcast use group_key_order;

/// How many rows a row group has at most.
pub const CHUNK_ROWS: usize = 8192;

/// The version of the stored form.
pub const INDEX_VERSION: u32 = 2;

/// What is known of a row group without reading it.
#[derive(Debug)]
pub struct RowGroupMeta {
    pub num_rows: usize,
    pub min_key: Key,
    pub max_key: Key,
    pub min_ts: i64,
    pub max_ts: i64,
}

/// What is known of a table without reading it.
#[derive(Debug)]
pub struct SstableIndex {
    pub bloom: BloomFilter,
    pub row_groups: Vec<RowGroupMeta>,
    pub max_seq: u64,
}

/// The stored form of an index.
pub struct IndexDto {
    pub version: u32,
    pub bloom: BloomDto,
    pub row_groups: Vec<RowGroupDto>,
    pub max_seq: u64,
}

/// The stored form of a filter; the bits are in base64.
pub struct BloomDto {
    pub m: u64,
    pub k: u32,
    pub seed: u64,
    pub bits: String,
}

/// The stored form of what is known of a row group.
pub struct RowGroupDto {
    pub num_rows: usize,
    pub min_key: HexKeyDto,
    pub max_key: HexKeyDto,
    pub min_ts: i64,
    pub max_ts: i64,
}

/// The stored form of a key; the tags are in hexadecimal.
pub struct HexKeyDto {
    pub tag: String,
    pub ts: i64,
}

/// Why a stored index cannot be used.
#[derive(Debug, Clone, Copy, PartialEq, Eq, Structural)]
pub enum IndexError {
    /// The version is unknown.
    Version,
    /// The bits of the filter are not base64.
    Base64,
    /// The filter is too small, sets no bits or has the wrong number of them.
    BloomParams,
    /// Some tags are not hexadecimal.
    Hex,
}

/// The error of the outside crate's decoder.
#[verifier::external_type_specification]
#[verifier::external_body]
pub struct ExDecodeError(base64::DecodeError);

/// Bytes in standard base64, as `base64` encodes them.
pub uninterp spec fn base64_of(bytes: Seq<u8>) -> Seq<char>;

/// The bytes that `base64` decodes from text; `None` where it refuses.
pub uninterp spec fn base64_decoded(text: Seq<char>) -> Option<Seq<u8>>;

/// Calls `Engine::encode` of `base64::engine::general_purpose::STANDARD`.
/// Claimed: the text depends on the bytes alone, and decoding it with the same
/// engine gives the bytes back. How bytes are encoded is not stated.
#[verifier::external_body]
fn base64_encode(bytes: &Vec<u8>) -> (r: String)
    ensures
        r@ == base64_of(bytes@),
        base64_decoded(r@) == Some(bytes@),
{
    base64::engine::general_purpose::STANDARD.encode(bytes)
}

/// Calls `Engine::decode` of `base64::engine::general_purpose::STANDARD`.
/// Claimed: whether and what it decodes depends on the text alone. Which text
/// is refused is not stated.
#[verifier::external_body]
fn base64_decode(text: &String) -> (r: Result<Vec<u8>, base64::DecodeError>)
    ensures
        match r {
            Ok(bytes) => base64_decoded(text@) == Some(bytes@),
            Err(_) => base64_decoded(text@) is None,
        },
{
    base64::engine::general_purpose::STANDARD.decode(text)
}

/// Where row group `g` starts.
#[verifier::opaque]
pub open spec fn group_start(groups: Seq<RowGroupMeta>, g: int) -> int
    decreases g,
{
    if g <= 0 {
        0
    } else {
        group_start(groups, g - 1) + groups[g - 1].num_rows
    }
}

/// The rows of row group `g`.
pub open spec fn group_rows(groups: Seq<RowGroupMeta>, rows: Seq<EntryView>, g: int) -> Seq<
    EntryView,
> {
    rows.subrange(group_start(groups, g), group_start(groups, g + 1))
}

/// The row groups cut `n` rows into chunks of [`CHUNK_ROWS`]: each starts where
/// its chunk does, and the last one is not longer than a chunk.
pub open spec fn in_chunks(groups: Seq<RowGroupMeta>, n: nat) -> bool {
    &&& n <= groups.len() * CHUNK_ROWS
    &&& forall|g: int|
        0 <= g < groups.len() ==> #[trigger] group_start(groups, g) == g * CHUNK_ROWS
}

/// Chunk `g` of some rows.
pub open spec fn chunk<T>(rows: Seq<T>, g: int) -> Seq<T> {
    let end = if (g + 1) * CHUNK_ROWS <= rows.len() {
        (g + 1) * CHUNK_ROWS
    } else {
        rows.len() as int
    };
    rows.subrange(g * CHUNK_ROWS, end)
}

/// The lowest and the highest timestamp of some rows.
pub open spec fn has_extent(rows: Seq<EntryView>, low: i64, high: i64) -> bool {
    &&& forall|i: int| 0 <= i < rows.len() ==> low <= (#[trigger] rows[i]).0.1 <= high
    &&& exists|i: int| 0 <= i < rows.len() && (#[trigger] rows[i]).0.1 == low
    &&& exists|i: int| 0 <= i < rows.len() && (#[trigger] rows[i]).0.1 == high
}

/// Row group `g` has the stated rows, ends and timestamps.
pub open spec fn group_matches(groups: Seq<RowGroupMeta>, rows: Seq<EntryView>, g: int) -> bool {
    let own = group_rows(groups, rows, g);
    &&& 0 <= group_start(groups, g) < group_start(groups, g + 1) <= rows.len()
    &&& key_view(groups[g].min_key) == own[0].0
    &&& key_view(groups[g].max_key) == own[own.len() - 1].0
    &&& has_extent(own, groups[g].min_ts, groups[g].max_ts)
}

/// The row groups come in the order of their keys and do not overlap.
pub open spec fn groups_ordered(groups: Seq<RowGroupMeta>) -> bool {
    &&& forall|i: int| #![trigger groups[i]]
        0 <= i < groups.len() ==> key_le(
            key_view(groups[i].min_key),
            key_view(groups[i].max_key),
        )
    &&& forall|i: int, j: int| #![trigger groups[i], groups[j]]
        0 <= i < j < groups.len() ==> key_lt(
            key_view(groups[i].max_key),
            key_view(groups[j].min_key),
        )
}

pub proof fn lemma_group_start(groups: Seq<RowGroupMeta>, a: int, b: int)
    requires
        0 <= a <= b,
    ensures
        0 <= group_start(groups, a) <= group_start(groups, b),
    decreases b,
{
    reveal_with_fuel(group_start, 2);
    if a < b {
        lemma_group_start(groups, a, b - 1);
    } else if a > 0 {
        lemma_group_start(groups, a - 1, a - 1);
    }
}

impl SstableIndex {
    /// The index is one of the given rows.
    pub open spec fn describes(&self, rows: Seq<EntryView>) -> bool {
        &&& self.bloom.wf()
        &&& forall|i: int| 0 <= i < rows.len() ==> self.bloom.may_contain((#[trigger] rows[i]).0)
        &&& group_start(self.row_groups@, self.row_groups@.len() as int) == rows.len()
        &&& forall|g: int|
            0 <= g < self.row_groups@.len() ==> #[trigger] group_matches(
                self.row_groups@,
                rows,
                g,
            )
        &&& self.max_seq == max_seq_of(rows)
    }

    /// The first and last key and the number of rows.
    pub fn bounds(&self) -> (r: (Key, Key, usize))
        ensures
            self.row_groups@.len() == 0 ==> key_view(r.0) == (Seq::<u8>::empty(), 0i64)
                && key_view(r.1) == (Seq::<u8>::empty(), 0i64),
            self.row_groups@.len() > 0 ==> key_view(r.0) == key_view(
                self.row_groups@[0].min_key,
            ) && key_view(r.1) == key_view(self.row_groups@[self.row_groups@.len() - 1].max_key),
            r.2 == crate::counters::wrapped(
                group_start(self.row_groups@, self.row_groups@.len() as int) as nat,
            ),
    {
        let n: usize = self.row_groups.len();
        let mut count: usize = 0;
        let mut g: usize = 0;
        proof {
            crate::counters::lemma_wrapped_small(0);
            reveal_with_fuel(group_start, 2);
        }
        while g < n
            invariant
                g <= n,
                n == self.row_groups@.len(),
                group_start(self.row_groups@, g as int) >= 0,
                count == crate::counters::wrapped(group_start(self.row_groups@, g as int) as nat),
            decreases n - g,
        {
            proof {
                reveal_with_fuel(group_start, 2);
                crate::counters::lemma_wrapped_step(
                    group_start(self.row_groups@, g as int) as nat,
                    self.row_groups@[g as int].num_rows,
                );
            }
            count = count.wrapping_add(self.row_groups[g].num_rows);
            g += 1;
        }
        if n == 0 {
            let r: (Key, Key, usize) = ((Vec::new(), 0), (Vec::new(), 0), count);
            return r;
        }
        (copy_key(&self.row_groups[0].min_key), copy_key(&self.row_groups[n - 1].max_key), count)
    }

    /// The lowest and highest timestamp; `None` where there are no rows.
    pub fn ts_extent(&self) -> (r: Option<(i64, i64)>)
        ensures
            r is None <==> self.row_groups@.len() == 0,
            r matches Some((low, high)) ==> {
                &&& forall|g: int| #![trigger self.row_groups@[g]]
                    0 <= g < self.row_groups@.len() ==> low <= self.row_groups@[g].min_ts
                        && self.row_groups@[g].max_ts <= high
                &&& exists|g: int| #![trigger self.row_groups@[g]]
                    0 <= g < self.row_groups@.len() && self.row_groups@[g].min_ts == low
                &&& exists|g: int| #![trigger self.row_groups@[g]]
                    0 <= g < self.row_groups@.len() && self.row_groups@[g].max_ts == high
            },
    {
        if self.row_groups.len() == 0 {
            return None;
        }
        let mut low: i64 = self.row_groups[0].min_ts;
        let mut high: i64 = self.row_groups[0].max_ts;
        let mut g: usize = 1;
        while g < self.row_groups.len()
            invariant
                1 <= g <= self.row_groups@.len(),
                forall|x: int| #![trigger self.row_groups@[x]]
                    0 <= x < g ==> low <= self.row_groups@[x].min_ts && self.row_groups@[x].max_ts
                        <= high,
                exists|x: int| #![trigger self.row_groups@[x]]
                    0 <= x < g && self.row_groups@[x].min_ts == low,
                exists|x: int| #![trigger self.row_groups@[x]]
                    0 <= x < g && self.row_groups@[x].max_ts == high,
            decreases self.row_groups@.len() - g,
        {
            let ghost at = self.row_groups@[g as int];
            let rg = &self.row_groups[g];
            if rg.min_ts < low {
                low = rg.min_ts;
            }
            if rg.max_ts > high {
                high = rg.max_ts;
            }
            g += 1;
        }
        Some((low, high))
    }

    /// The stored form.
    pub fn to_dto(&self) -> (r: IndexDto)
        ensures
            stores(r, *self),
            r.bloom.bits@ == base64_of(self.bloom.bits@),
    {
        let mut row_groups: Vec<RowGroupDto> = Vec::new();
        let mut g: usize = 0;
        while g < self.row_groups.len()
            invariant
                g <= self.row_groups@.len(),
                row_groups@.len() == g,
                forall|x: int| #![trigger row_groups@[x]]
                    0 <= x < g ==> stored_group(row_groups@[x], self.row_groups@[x]),
            decreases self.row_groups@.len() - g,
        {
            let rg = &self.row_groups[g];
            row_groups.push(
                RowGroupDto {
                    num_rows: rg.num_rows,
                    min_key: hex_key(&rg.min_key),
                    max_key: hex_key(&rg.max_key),
                    min_ts: rg.min_ts,
                    max_ts: rg.max_ts,
                },
            );
            g += 1;
        }
        IndexDto {
            version: INDEX_VERSION,
            bloom: BloomDto {
                m: self.bloom.m,
                k: self.bloom.k,
                seed: self.bloom.seed,
                bits: base64_encode(&self.bloom.bits),
            },
            row_groups,
            max_seq: self.max_seq,
        }
    }

    /// The index that a stored form stands for.
    pub fn from_dto(dto: IndexDto) -> (r: Result<Self, IndexError>)
        ensures
            restores(dto, r),
    {
        if dto.version != INDEX_VERSION {
            return Err(IndexError::Version);
        }
        let bits = match base64_decode(&dto.bloom.bits) {
            Ok(bits) => bits,
            Err(_) => return Err(IndexError::Base64),
        };
        let m: u64 = dto.bloom.m;
        if m < 1024 || dto.bloom.k == 0 || m > u64::MAX - 7 || bits.len() as u64 != (m + 7) / 8 {
            return Err(IndexError::BloomParams);
        }
        let mut row_groups: Vec<RowGroupMeta> = Vec::new();
        let mut g: usize = 0;
        while g < dto.row_groups.len()
            invariant
                g <= dto.row_groups@.len(),
                dto.version == INDEX_VERSION,
                base64_decoded(dto.bloom.bits@) is Some,
                good_filter(dto.bloom),
                row_groups@.len() == g,
                forall|x: int| #![trigger dto.row_groups@[x]]
                    0 <= x < g ==> good_group(dto.row_groups@[x]),
                forall|x: int| #![trigger row_groups@[x]]
                    0 <= x < g ==> read_group(row_groups@[x], dto.row_groups@[x]),
            decreases dto.row_groups@.len() - g,
        {
            match from_row_group_dto(&dto.row_groups[g]) {
                Some(rg) => {
                    row_groups.push(rg);
                },
                None => {
                    assert(!good_group(dto.row_groups@[g as int]));
                    return Err(IndexError::Hex);
                },
            }
            g += 1;
        }
        let bloom = BloomFilter { m, k: dto.bloom.k, seed: dto.bloom.seed, bits };
        Ok(SstableIndex { bloom, row_groups, max_seq: dto.max_seq })
    }
}

/// The stored form is that of an index.
pub open spec fn stores(dto: IndexDto, index: SstableIndex) -> bool {
    &&& dto.version == INDEX_VERSION
    &&& dto.bloom.m == index.bloom.m
    &&& dto.bloom.k == index.bloom.k
    &&& dto.bloom.seed == index.bloom.seed
    &&& base64_decoded(dto.bloom.bits@) == Some(index.bloom.bits@)
    &&& dto.max_seq == index.max_seq
    &&& dto.row_groups@.len() == index.row_groups@.len()
    &&& forall|g: int| #![trigger dto.row_groups@[g]]
        0 <= g < dto.row_groups@.len() ==> stored_group(dto.row_groups@[g], index.row_groups@[g])
}

/// What reading a stored form gives: the first thing that is wrong with it, or
/// the index that it stands for.
pub open spec fn restores(dto: IndexDto, r: Result<SstableIndex, IndexError>) -> bool {
    match r {
        Err(IndexError::Version) => dto.version != INDEX_VERSION,
        Err(IndexError::Base64) => dto.version == INDEX_VERSION && base64_decoded(
            dto.bloom.bits@,
        ) is None,
        Err(IndexError::BloomParams) => dto.version == INDEX_VERSION && base64_decoded(
            dto.bloom.bits@,
        ) is Some && !good_filter(dto.bloom),
        Err(IndexError::Hex) => dto.version == INDEX_VERSION && good_filter(dto.bloom)
            && !good_groups(dto.row_groups@),
        Ok(index) => {
            &&& dto.version == INDEX_VERSION
            &&& good_filter(dto.bloom)
            &&& good_groups(dto.row_groups@)
            &&& index.bloom.wf()
            &&& index.bloom.m == dto.bloom.m
            &&& index.bloom.k == dto.bloom.k
            &&& index.bloom.seed == dto.bloom.seed
            &&& base64_decoded(dto.bloom.bits@) == Some(index.bloom.bits@)
            &&& index.max_seq == dto.max_seq
            &&& index.row_groups@.len() == dto.row_groups@.len()
            &&& forall|g: int| #![trigger index.row_groups@[g]]
                0 <= g < dto.row_groups@.len() ==> read_group(
                    index.row_groups@[g],
                    dto.row_groups@[g],
                )
        },
    }
}

/// The stored form of what is known of a row group.
pub open spec fn stored_group(d: RowGroupDto, rg: RowGroupMeta) -> bool {
    &&& d.num_rows == rg.num_rows
    &&& d.min_key.tag@ == hex_of(rg.min_key.0@)
    &&& d.min_key.ts == rg.min_key.1
    &&& d.max_key.tag@ == hex_of(rg.max_key.0@)
    &&& d.max_key.ts == rg.max_key.1
    &&& d.min_ts == rg.min_ts
    &&& d.max_ts == rg.max_ts
}

/// The tags of a stored row group are hexadecimal.
pub open spec fn good_group(d: RowGroupDto) -> bool {
    unhexed(d.min_key.tag@) is Some && unhexed(d.max_key.tag@) is Some
}

pub open spec fn good_groups(groups: Seq<RowGroupDto>) -> bool {
    forall|g: int| #![trigger groups[g]] 0 <= g < groups.len() ==> good_group(groups[g])
}

/// A stored filter has enough bits and sets some.
pub open spec fn good_filter(d: BloomDto) -> bool {
    &&& 1024 <= d.m <= u64::MAX - 7
    &&& d.k != 0
    &&& base64_decoded(d.bits@) matches Some(bits) && bits.len() == (d.m + 7) / 8
}

/// What was read from the stored form of a row group.
pub open spec fn read_group(rg: RowGroupMeta, d: RowGroupDto) -> bool {
    &&& rg.num_rows == d.num_rows
    &&& unhexed(d.min_key.tag@) == Some(rg.min_key.0@)
    &&& rg.min_key.1 == d.min_key.ts
    &&& unhexed(d.max_key.tag@) == Some(rg.max_key.0@)
    &&& rg.max_key.1 == d.max_key.ts
    &&& rg.min_ts == d.min_ts
    &&& rg.max_ts == d.max_ts
}

fn hex_key(k: &Key) -> (r: HexKeyDto)
    ensures
        r.tag@ == hex_of(k.0@),
        r.ts == k.1,
{
    HexKeyDto { tag: to_hex(&k.0), ts: k.1 }
}

fn from_row_group_dto(d: &RowGroupDto) -> (r: Option<RowGroupMeta>)
    ensures
        match r {
            None => !good_group(*d),
            Some(rg) => good_group(*d) && read_group(rg, *d),
        },
{
    match (from_hex(d.min_key.tag.as_str()), from_hex(d.max_key.tag.as_str())) {
        (Some(min), Some(max)) => Some(
            RowGroupMeta {
                num_rows: d.num_rows,
                min_key: (min, d.min_key.ts),
                max_key: (max, d.max_key.ts),
                min_ts: d.min_ts,
                max_ts: d.max_ts,
            },
        ),
        _ => None,
    }
}

/// Two indexes that say the same.
pub open spec fn same_index(a: SstableIndex, b: SstableIndex) -> bool {
    &&& a.bloom.m == b.bloom.m
    &&& a.bloom.k == b.bloom.k
    &&& a.bloom.seed == b.bloom.seed
    &&& a.bloom.bits@ == b.bloom.bits@
    &&& a.max_seq == b.max_seq
    &&& a.row_groups@.len() == b.row_groups@.len()
    &&& forall|g: int| #![trigger a.row_groups@[g]]
        0 <= g < a.row_groups@.len() ==> {
            &&& a.row_groups@[g].num_rows == b.row_groups@[g].num_rows
            &&& key_view(a.row_groups@[g].min_key) == key_view(b.row_groups@[g].min_key)
            &&& key_view(a.row_groups@[g].max_key) == key_view(b.row_groups@[g].max_key)
            &&& a.row_groups@[g].min_ts == b.row_groups@[g].min_ts
            &&& a.row_groups@[g].max_ts == b.row_groups@[g].max_ts
        }
}

/// The filter has the number of bits that it says, enough of them, and sets
/// some: it is accepted when it is read back.
pub open spec fn exact_filter(b: BloomFilter) -> bool {
    1024 <= b.m <= u64::MAX - 7 && b.k != 0 && b.bits@.len() == (b.m + 7) / 8
}

/// Bit `p` is a bit of the key of one of the first `n` rows.
pub open spec fn rows_have_bit(b: BloomFilter, rows: Seq<EntryView>, n: int, p: int) -> bool {
    exists|j: int|
        0 <= j < n && key_has_bit(b.m, b.k, b.seed, (#[trigger] rows[j]).0, p)
}

/// The filter is one of the size that was asked for, and the bits that are set
/// are exactly those of the keys of the rows.
pub open spec fn filter_of(b: BloomFilter, rows: Seq<EntryView>, m: u64, k: u32) -> bool {
    &&& exact_filter(b)
    &&& b.m == bits_for(m)
    &&& b.k == hashes_for(k)
    &&& forall|p: int|
        0 <= p < b.bits@.len() * 8 ==> (#[trigger] bit_at(b.bits@, p) <==> rows_have_bit(
            b,
            rows,
            rows.len() as int,
            p,
        ))
}

/// An index survives being stored: its stored form is accepted, and what is
/// read from it says the same.
pub proof fn law_index_roundtrip(
    index: SstableIndex,
    dto: IndexDto,
    r: Result<SstableIndex, IndexError>,
)
    requires
        exact_filter(index.bloom),
        stores(dto, index),
        restores(dto, r),
    ensures
        r matches Ok(back) && same_index(back, index),
{
    assert forall|g: int| #![trigger dto.row_groups@[g]]
        0 <= g < dto.row_groups@.len() implies good_group(dto.row_groups@[g]) by {
        law_hex_roundtrip(index.row_groups@[g].min_key.0@);
        law_hex_roundtrip(index.row_groups@[g].max_key.0@);
    }
    assert(good_filter(dto.bloom));
    assert(good_groups(dto.row_groups@));
    match r {
        Ok(back) => {
            assert forall|g: int| #![trigger back.row_groups@[g]]
                0 <= g < back.row_groups@.len() implies key_view(back.row_groups@[g].min_key)
                == key_view(index.row_groups@[g].min_key) && key_view(back.row_groups@[g].max_key)
                == key_view(index.row_groups@[g].max_key) by {
                let d = dto.row_groups@[g];
                assert(read_group(back.row_groups@[g], d));
                assert(stored_group(d, index.row_groups@[g]));
                law_hex_roundtrip(index.row_groups@[g].min_key.0@);
                law_hex_roundtrip(index.row_groups@[g].max_key.0@);
            }
        },
        Err(_) => {},
    }
}

proof fn lemma_same_start(a: Seq<RowGroupMeta>, b: Seq<RowGroupMeta>, g: int)
    requires
        a.len() == b.len(),
        g <= a.len(),
        forall|i: int| #![trigger a[i]] 0 <= i < a.len() ==> a[i].num_rows == b[i].num_rows,
    ensures
        group_start(a, g) == group_start(b, g),
    decreases g,
{
    reveal_with_fuel(group_start, 2);
    if g > 0 {
        lemma_same_start(a, b, g - 1);
        assert(a[g - 1].num_rows == b[g - 1].num_rows);
    }
}

/// An index that says the same is an index of the same rows.
pub proof fn law_same_index_describes(a: SstableIndex, b: SstableIndex, rows: Seq<EntryView>)
    requires
        same_index(a, b),
        b.describes(rows),
    ensures
        a.describes(rows),
        in_chunks(b.row_groups@, rows.len()) ==> in_chunks(a.row_groups@, rows.len()),
{
    let x = a.row_groups@;
    let y = b.row_groups@;
    assert forall|g: int| g <= x.len() implies #[trigger] group_start(x, g) == group_start(y, g) by {
        lemma_same_start(x, y, g);
    }
    assert forall|i: int| 0 <= i < rows.len() implies a.bloom.may_contain(
        (#[trigger] rows[i]).0,
    ) by {
        assert(b.bloom.may_contain(rows[i].0));
    }
    assert forall|g: int| 0 <= g < x.len() implies #[trigger] group_matches(x, rows, g) by {
        assert(group_matches(y, rows, g));
        assert(x[g].num_rows == y[g].num_rows);
    }
}

/// The row groups of an index that cuts its rows into chunks are these chunks,
/// and there are no more of them than it takes.
pub proof fn law_row_groups_are_chunks(index: SstableIndex, rows: Seq<EntryView>)
    requires
        index.describes(rows),
        in_chunks(index.row_groups@, rows.len()),
    ensures
        rows.len() <= index.row_groups@.len() * CHUNK_ROWS < rows.len() + CHUNK_ROWS,
        forall|g: int|
            0 <= g < index.row_groups@.len() ==> #[trigger] group_rows(index.row_groups@, rows, g)
                == chunk(rows, g),
{
    let groups = index.row_groups@;
    let n = groups.len() as int;
    if n > 0 {
        assert(group_matches(groups, rows, n - 1));
        assert(group_start(groups, n - 1) == (n - 1) * CHUNK_ROWS);
        assert((n - 1) * CHUNK_ROWS == n * CHUNK_ROWS - CHUNK_ROWS) by (nonlinear_arith);
    }
    assert forall|g: int| 0 <= g < n implies #[trigger] group_rows(groups, rows, g) == chunk(
        rows,
        g,
    ) by {
        assert(group_matches(groups, rows, g));
        assert(group_start(groups, g) == g * CHUNK_ROWS);
        if g < n - 1 {
            assert(group_start(groups, g + 1) == (g + 1) * CHUNK_ROWS);
        }
        assert(group_rows(groups, rows, g) =~= chunk(rows, g));
    }
}

/// In a run the row groups come in order and do not overlap.
pub proof fn lemma_groups_ordered(index: SstableIndex, rows: Seq<EntryView>)
    requires
        index.describes(rows),
        is_run(rows),
    ensures
        groups_ordered(index.row_groups@),
{
    let groups = index.row_groups@;
    assert forall|i: int| #![trigger groups[i]] 0 <= i < groups.len() implies key_le(
        key_view(groups[i].min_key),
        key_view(groups[i].max_key),
    ) by {
        assert(group_matches(groups, rows, i));
        let own = group_rows(groups, rows, i);
        assert(own[0] == rows[group_start(groups, i)]);
        assert(own[own.len() - 1] == rows[group_start(groups, i + 1) - 1]);
    }
    assert forall|i: int, j: int| #![trigger groups[i], groups[j]]
        0 <= i < j < groups.len() implies key_lt(
        key_view(groups[i].max_key),
        key_view(groups[j].min_key),
    ) by {
        assert(group_matches(groups, rows, i));
        assert(group_matches(groups, rows, j));
        let a = group_rows(groups, rows, i);
        let b = group_rows(groups, rows, j);
        lemma_group_start(groups, i + 1, j);
        assert(a[a.len() - 1] == rows[group_start(groups, i + 1) - 1]);
        assert(b[0] == rows[group_start(groups, j)]);
    }
}

/// Every row lies in some row group.
pub proof fn lemma_row_in_group(index: SstableIndex, rows: Seq<EntryView>, i: int) -> (g: int)
    requires
        index.describes(rows),
        0 <= i < rows.len(),
    ensures
        0 <= g < index.row_groups@.len(),
        group_start(index.row_groups@, g) <= i < group_start(index.row_groups@, g + 1),
{
    lemma_find_group(index.row_groups@, index.row_groups@.len() as int, i)
}

proof fn lemma_find_group(groups: Seq<RowGroupMeta>, n: int, i: int) -> (g: int)
    requires
        0 <= n <= groups.len(),
        0 <= i < group_start(groups, n),
    ensures
        0 <= g < n,
        group_start(groups, g) <= i < group_start(groups, g + 1),
    decreases n,
{
    reveal_with_fuel(group_start, 2);
    if i >= group_start(groups, n - 1) {
        n - 1
    } else {
        lemma_find_group(groups, n - 1, i)
    }
}

/// In a run the keys of a row group lie between its ends.
pub proof fn lemma_group_keys(index: SstableIndex, rows: Seq<EntryView>, g: int, i: int)
    requires
        index.describes(rows),
        is_run(rows),
        0 <= g < index.row_groups@.len(),
        group_start(index.row_groups@, g) <= i < group_start(index.row_groups@, g + 1),
    ensures
        0 <= i < rows.len(),
        key_le(key_view(index.row_groups@[g].min_key), rows[i].0),
        key_le(rows[i].0, key_view(index.row_groups@[g].max_key)),
{
    let groups = index.row_groups@;
    assert(group_matches(groups, rows, g));
    let own = group_rows(groups, rows, g);
    let a = group_start(groups, g);
    let b = group_start(groups, g + 1);
    assert(own[0] == rows[a]);
    assert(own[own.len() - 1] == rows[b - 1]);
    if a < i {
        assert(key_lt(rows[a].0, rows[i].0));
    }
    if i < b - 1 {
        assert(key_lt(rows[i].0, rows[b - 1].0));
    }
}

/// Builds the index of rows.
pub fn build_index(rows: &[Entry], m: u64, k: u32, seed: u64) -> (r: SstableIndex)
    requires
        m <= u64::MAX - 7,
        (m + 7) / 8 <= usize::MAX,
    ensures
        r.describes(entries_view(rows@)),
        filter_of(r.bloom, entries_view(rows@), m, k),
        r.bloom.seed == seed,
        in_chunks(r.row_groups@, rows@.len()),
        rows@.len() == 0 <==> r.row_groups@.len() == 0,
{
    let ghost all = entries_view(rows@);
    let mut bloom = BloomFilter::new(m, k, seed);
    let mut row_groups: Vec<RowGroupMeta> = Vec::new();
    let mut max_seq: u64 = 0;
    let mut start: usize = 0;
    assert(all.take(0) =~= Seq::empty());
    proof {
        reveal_with_fuel(group_start, 2);
    }
    while start < rows.len()
        invariant
            start <= rows@.len(),
            all == entries_view(rows@),
            bloom.wf(),
            exact_filter(bloom),
            bloom.m == bits_for(m),
            bloom.k == hashes_for(k),
            forall|p: int|
                0 <= p < bloom.bits@.len() * 8 ==> (#[trigger] bit_at(bloom.bits@, p)
                    <==> rows_have_bit(bloom, all, start as int, p)),
            bloom.seed == seed,
            forall|i: int| 0 <= i < start ==> bloom.may_contain((#[trigger] all[i]).0),
            max_seq == max_seq_of(all.take(start as int)),
            group_start(row_groups@, row_groups@.len() as int) == start,
            start < rows@.len() ==> start == row_groups@.len() * CHUNK_ROWS,
            start <= row_groups@.len() * CHUNK_ROWS,
            start > 0 <==> row_groups@.len() > 0,
            forall|g: int|
                0 <= g < row_groups@.len() ==> #[trigger] group_matches(row_groups@, all, g),
            forall|g: int|
                0 <= g < row_groups@.len() ==> #[trigger] group_start(row_groups@, g) == g
                    * CHUNK_ROWS,
        decreases rows@.len() - start,
    {
        let end: usize = if rows.len() - start > CHUNK_ROWS {
            start + CHUNK_ROWS
        } else {
            rows.len()
        };
        let mut low: i64 = rows[start].0.1;
        let mut high: i64 = rows[start].0.1;
        let mut i: usize = start;
        assert(all[start as int] == entry_view(rows@[start as int]));
        while i < end
            invariant
                start <= i <= end <= rows@.len(),
                start < end,
                all == entries_view(rows@),
                bloom.wf(),
                exact_filter(bloom),
                bloom.m == bits_for(m),
                bloom.k == hashes_for(k),
                forall|p: int|
                    0 <= p < bloom.bits@.len() * 8 ==> (#[trigger] bit_at(bloom.bits@, p)
                        <==> rows_have_bit(bloom, all, i as int, p)),
                bloom.seed == seed,
                forall|j: int| 0 <= j < i ==> bloom.may_contain((#[trigger] all[j]).0),
                max_seq == max_seq_of(all.take(i as int)),
                forall|j: int| start <= j < i ==> low <= (#[trigger] all[j]).0.1 <= high,
                i == start ==> low == all[start as int].0.1 && high == all[start as int].0.1,
                exists|j: int|
                    start <= j < (if i == start { i + 1 } else { i as int }) && (
                    #[trigger] all[j]).0.1 == low,
                exists|j: int|
                    start <= j < (if i == start { i + 1 } else { i as int }) && (
                    #[trigger] all[j]).0.1 == high,
            decreases end - i,
        {
            let e = &rows[i];
            let ghost before = bloom;
            proof {
                assert(all[i as int] == entry_view(rows@[i as int]));
                assert(all.take(i + 1).drop_last() =~= all.take(i as int));
                assert(all.take(i + 1).last() == all[i as int]);
            }
            bloom.insert(&e.0);
            proof {
                assert forall|p: int|
                    0 <= p < bloom.bits@.len() * 8 implies (#[trigger] bit_at(bloom.bits@, p)
                    <==> rows_have_bit(bloom, all, i + 1, p)) by {
                    lemma_one_row_more(before, bloom, all, i as int, p);
                    assert(bit_at(before.bits@, p) <==> rows_have_bit(before, all, i as int, p));
                }
                assert forall|j: int| 0 <= j < i + 1 implies bloom.may_contain(
                    (#[trigger] all[j]).0,
                ) by {
                    if j < i {
                        assert(before.may_contain(all[j].0));
                    }
                }
            }
            if max_seq < e.1 {
                max_seq = e.1;
            }
            let ts: i64 = e.0.1;
            let ghost old_low = low;
            let ghost old_high = high;
            if ts < low {
                low = ts;
            }
            if ts > high {
                high = ts;
            }
            proof {
                let l = choose|j: int|
                    start <= j < (if i == start { i + 1 } else { i as int }) && (
                    #[trigger] all[j]).0.1 == old_low;
                let h = choose|j: int|
                    start <= j < (if i == start { i + 1 } else { i as int }) && (
                    #[trigger] all[j]).0.1 == old_high;
                assert(all[l].0.1 == old_low);
                assert(all[h].0.1 == old_high);
                assert(all[i as int].0.1 == ts);
            }
            i += 1;
        }
        let ghost before = row_groups@;
        row_groups.push(
            RowGroupMeta {
                num_rows: end - start,
                min_key: copy_key(&rows[start].0),
                max_key: copy_key(&rows[end - 1].0),
                min_ts: low,
                max_ts: high,
            },
        );
        proof {
            let groups = row_groups@;
            let n = before.len() as int;
            lemma_start_prefix(before, groups, n);
            assert(group_start(groups, n + 1) == end) by {
                reveal_with_fuel(group_start, 2);
            }
            let own = group_rows(groups, all, n);
            assert(own =~= all.subrange(start as int, end as int));
            assert(all[end - 1] == entry_view(rows@[end - 1]));
            assert(has_extent(own, low, high)) by {
                assert forall|j: int| 0 <= j < own.len() implies low <= (#[trigger] own[j]).0.1
                    <= high by {
                    assert(own[j] == all[start + j]);
                }
                let l = choose|j: int| start <= j < end && (#[trigger] all[j]).0.1 == low;
                assert(own[l - start] == all[l]);
                let h = choose|j: int| start <= j < end && (#[trigger] all[j]).0.1 == high;
                assert(own[h - start] == all[h]);
            }
            assert(group_matches(groups, all, n));
            assert forall|g: int| 0 <= g < groups.len() implies #[trigger] group_matches(
                groups,
                all,
                g,
            ) by {
                if g < n {
                    assert(groups[g] == before[g]);
                    assert(group_matches(before, all, g));
                    lemma_start_prefix(before, groups, g);
                    lemma_start_prefix(before, groups, g + 1);
                }
            }
            assert forall|g: int| 0 <= g < groups.len() implies #[trigger] group_start(groups, g)
                == g * CHUNK_ROWS by {
                lemma_start_prefix(before, groups, g);
                assert(g < n ==> group_start(before, g) == g * CHUNK_ROWS);
            }
            assert(end <= (n + 1) * CHUNK_ROWS) by (nonlinear_arith)
                requires
                    end <= start + CHUNK_ROWS,
                    start == n * CHUNK_ROWS,
            ;
            if end < rows@.len() {
                assert(end == (n + 1) * CHUNK_ROWS) by (nonlinear_arith)
                    requires
                        end == start + CHUNK_ROWS,
                        start == n * CHUNK_ROWS,
                ;
            }
        }
        start = end;
    }
    assert(all.take(start as int) =~= all);
    SstableIndex { bloom, row_groups, max_seq }
}

proof fn lemma_one_row_more(
    a: BloomFilter,
    b: BloomFilter,
    rows: Seq<EntryView>,
    n: int,
    p: int,
)
    requires
        0 <= n < rows.len(),
        a.m == b.m,
        a.k == b.k,
        a.seed == b.seed,
    ensures
        rows_have_bit(b, rows, n + 1, p) <==> rows_have_bit(a, rows, n, p) || key_has_bit(
            b.m,
            b.k,
            b.seed,
            rows[n].0,
            p,
        ),
{
    if rows_have_bit(a, rows, n, p) {
        let j = choose|j: int|
            0 <= j < n && key_has_bit(a.m, a.k, a.seed, (#[trigger] rows[j]).0, p);
        assert(key_has_bit(b.m, b.k, b.seed, rows[j].0, p));
    }
    if rows_have_bit(b, rows, n + 1, p) {
        let j = choose|j: int|
            0 <= j < n + 1 && key_has_bit(b.m, b.k, b.seed, (#[trigger] rows[j]).0, p);
        if j < n {
            assert(key_has_bit(a.m, a.k, a.seed, rows[j].0, p));
        }
    }
}

/// Where a row group starts depends on the groups before it alone.
proof fn lemma_start_prefix(a: Seq<RowGroupMeta>, b: Seq<RowGroupMeta>, g: int)
    requires
        0 <= g <= a.len() <= b.len(),
        forall|i: int| 0 <= i < a.len() ==> a[i] == #[trigger] b[i],
    ensures
        group_start(a, g) == group_start(b, g),
    decreases g,
{
    reveal_with_fuel(group_start, 2);
    if g > 0 {
        lemma_start_prefix(a, b, g - 1);
        assert(a[g - 1] == b[g - 1]);
    }
}

/// Row groups follow each other: each starts where the rows of the one before end,
/// and all but the last hold 8192 rows where rows are cut into chunks.
pub proof fn law_row_groups_follow_each_other<T>(
    groups: Seq<RowGroupMeta>,
    rows: Seq<T>,
    g: int,
    n: nat,
)
    requires
        g >= 0,
    ensures
        group_start(groups, 0) == 0,
        group_start(groups, g + 1) == group_start(groups, g) + groups[g].num_rows,
        in_chunks(groups, n) && g < groups.len() ==> group_start(groups, g) == g * 8192,
        in_chunks(groups, n) ==> n <= groups.len() * 8192,
        (g + 1) * 8192 <= rows.len() ==> chunk(rows, g) == rows.subrange(g * 8192, g * 8192 + 8192),
        g * 8192 <= rows.len() < (g + 1) * 8192 ==> chunk(rows, g) == rows.skip(g * 8192),
{
    reveal_with_fuel(group_start, 2);
    if g * 8192 <= rows.len() < (g + 1) * 8192 {
        assert(chunk(rows, g) =~= rows.skip(g * 8192));
    }
}

/// The stored form of an index: its version is 2, sizes, seed, numbers and timestamps
/// are as they are, tags in hexadecimal and the bits of the filter in base64.
pub proof fn law_stored_form(dto: IndexDto, index: SstableIndex, g: int)
    requires
        stores(dto, index),
        0 <= g < index.row_groups@.len(),
    ensures
        dto.version == 2,
        dto.bloom.m == index.bloom.m,
        dto.bloom.k == index.bloom.k,
        dto.bloom.seed == index.bloom.seed,
        base64_decoded(dto.bloom.bits@) == Some(index.bloom.bits@),
        dto.max_seq == index.max_seq,
        dto.row_groups@.len() == index.row_groups@.len(),
        dto.row_groups@[g].num_rows == index.row_groups@[g].num_rows,
        dto.row_groups@[g].min_key.tag@ == hex_of(index.row_groups@[g].min_key.0@),
        dto.row_groups@[g].min_key.ts == index.row_groups@[g].min_key.1,
        dto.row_groups@[g].max_key.tag@ == hex_of(index.row_groups@[g].max_key.0@),
        dto.row_groups@[g].max_key.ts == index.row_groups@[g].max_key.1,
        dto.row_groups@[g].min_ts == index.row_groups@[g].min_ts,
        dto.row_groups@[g].max_ts == index.row_groups@[g].max_ts,
{
    assert(stored_group(dto.row_groups@[g], index.row_groups@[g]));
}

/// Which stored forms are refused, and why: an unknown version before bits that are
/// no base64, before a filter that is too small, sets no bits or has the wrong number
/// of them, before tags that are not hexadecimal. All others are accepted, and what
/// they say is taken as it is.
pub proof fn law_stored_forms_are_checked(
    dto: IndexDto,
    r: Result<SstableIndex, IndexError>,
)
    requires
        restores(dto, r),
    ensures
        r == Err::<SstableIndex, _>(IndexError::Version) <==> dto.version != 2,
        r == Err::<SstableIndex, _>(IndexError::Base64) <==> dto.version == 2 && base64_decoded(
            dto.bloom.bits@,
        ) is None,
        r == Err::<SstableIndex, _>(IndexError::BloomParams) <==> dto.version == 2 && (
        base64_decoded(dto.bloom.bits@) matches Some(bits) && (dto.bloom.m < 1024 || dto.bloom.m
            > u64::MAX - 7 || dto.bloom.k == 0 || bits.len() != (dto.bloom.m + 7) / 8)),
        r == Err::<SstableIndex, _>(IndexError::Hex) <==> dto.version == 2 && (base64_decoded(
            dto.bloom.bits@,
        ) matches Some(bits) && 1024 <= dto.bloom.m <= u64::MAX - 7 && dto.bloom.k != 0
            && bits.len() == (dto.bloom.m + 7) / 8) && !(forall|g: int|
            #![trigger dto.row_groups@[g]]
            0 <= g < dto.row_groups@.len() ==> unhexed(dto.row_groups@[g].min_key.tag@) is Some
                && unhexed(dto.row_groups@[g].max_key.tag@) is Some),
        r matches Ok(index) ==> {
            &&& index.bloom.m == dto.bloom.m
            &&& index.bloom.k == dto.bloom.k
            &&& index.bloom.seed == dto.bloom.seed
            &&& base64_decoded(dto.bloom.bits@) == Some(index.bloom.bits@)
            &&& index.max_seq == dto.max_seq
            &&& index.row_groups@.len() == dto.row_groups@.len()
            &&& forall|g: int| #![trigger index.row_groups@[g]]
                0 <= g < index.row_groups@.len() ==> {
                    let a = index.row_groups@[g];
                    let b = dto.row_groups@[g];
                    &&& a.num_rows == b.num_rows
                    &&& Some(a.min_key.0@) == unhexed(b.min_key.tag@)
                    &&& a.min_key.1 == b.min_key.ts
                    &&& Some(a.max_key.0@) == unhexed(b.max_key.tag@)
                    &&& a.max_key.1 == b.max_key.ts
                    &&& a.min_ts == b.min_ts
                    &&& a.max_ts == b.max_ts
                }
        },
{
    if r matches Err(e) && e is Hex {
        if forall|g: int| #![trigger dto.row_groups@[g]]
            0 <= g < dto.row_groups@.len() ==> unhexed(dto.row_groups@[g].min_key.tag@) is Some
                && unhexed(dto.row_groups@[g].max_key.tag@) is Some {
            assert(good_groups(dto.row_groups@));
        }
    }
    if good_groups(dto.row_groups@) {
        assert forall|g: int| #![trigger dto.row_groups@[g]]
            0 <= g < dto.row_groups@.len() implies unhexed(dto.row_groups@[g].min_key.tag@) is Some
            && unhexed(dto.row_groups@[g].max_key.tag@) is Some by {
            assert(good_group(dto.row_groups@[g]));
        }
    }
}

/// An index tells of every row group how many rows it has, its first and last key and
/// its lowest and highest timestamp, and of all rows the highest number; its filter
/// lets every key of them pass.
pub proof fn law_index_tells_of_row_groups(
    index: SstableIndex,
    rows: Seq<EntryView>,
    g: int,
    i: int,
)
    requires
        index.describes(rows),
        0 <= g < index.row_groups@.len(),
        group_start(index.row_groups@, g) <= i < group_start(index.row_groups@, g + 1),
    ensures
        ({
            let a = group_start(index.row_groups@, g);
            let b = group_start(index.row_groups@, g + 1);
            let own = index.row_groups@[g];
            &&& 0 <= a < b <= rows.len()
            &&& b - a == own.num_rows
            &&& rows[a].0.0 == own.min_key.0@ && rows[a].0.1 == own.min_key.1
            &&& rows[b - 1].0.0 == own.max_key.0@ && rows[b - 1].0.1 == own.max_key.1
            &&& own.min_ts <= rows[i].0.1 <= own.max_ts
            &&& index.bloom.may_contain(rows[i].0)
            &&& rows[i].1 <= index.max_seq
        }),
        group_start(index.row_groups@, index.row_groups@.len() as int) == rows.len(),
{
    reveal_with_fuel(group_start, 2);
    assert(group_matches(index.row_groups@, rows, g));
    let a = group_start(index.row_groups@, g);
    let own = group_rows(index.row_groups@, rows, g);
    assert(own[i - a] == rows[i]);
    assert(own[0] == rows[a]);
    crate::entries::lemma_max_seq(rows, i);
}

/// The bits of a filter are those of the keys of the rows and no others; it has the
/// size that was asked for, within limits, and a byte for every eight bits.
pub proof fn law_filters_have_the_bits_of_keys(
    b: BloomFilter,
    rows: Seq<EntryView>,
    m: u64,
    k: u32,
    p: int,
)
    requires
        filter_of(b, rows, m, k),
        0 <= p < b.bits@.len() * 8,
    ensures
        bit_at(b.bits@, p) <==> exists|j: int|
            0 <= j < rows.len() && key_has_bit(b.m, b.k, b.seed, (#[trigger] rows[j]).0, p),
        b.m == bits_for(m),
        b.k == hashes_for(k),
        b.bits@.len() == (b.m + 7) / 8,
{
}

} // verus!
