//! What the columns of a table are, and how keys and values are made of cells.

use vstd::prelude::*;
use vstd::slice::slice_subrange;
use vstd::slice::slice_to_vec;
use crate::little_endian::{
    bits_to_ts, bits_ts, le_bytes, le_value, lemma_byte_spans, lemma_le_bytes_len,
    lemma_le_roundtrip, lemma_le_roundtrip_bytes, lemma_bits_roundtrip, lemma_ts_roundtrip,
    lemma_le_value_bound, push_le, read_le, ts_bits, ts_to_bits,
};
use crate::types::{copy_bytes, key_view, Key, Value};

verus! {

/// What a column plays in the key or value of a row.
#[derive(Clone, Copy, PartialEq, Eq, Debug, Structural)]
pub enum SemanticType {
    Tag,
    Timestamp,
    Field,
}

/// The types of columns.
#[derive(Clone, Copy, PartialEq, Eq, Debug, Structural)]
pub enum DataType {
    Binary,
    Utf8,
    Int64,
    Float64,
    Boolean,
    Timestamp,
    /// The type of the operation column that is stored beside the user's.
    Int8,
}

/// One column of a table.
#[derive(Debug)]
pub struct ColumnDef {
    pub name: String,
    pub data_type: DataType,
    pub semantic: SemanticType,
}

/// The columns of a table, the positions of the tags and of the timestamp.
#[derive(Debug)]
pub struct TableSchema {
    pub columns: Vec<ColumnDef>,
    pub primary_key: Vec<usize>,
    pub time_index: usize,
}

/// Two columns with the same name, type and role.
pub open spec fn same_column(a: ColumnDef, b: ColumnDef) -> bool {
    a.name@ == b.name@ && a.data_type == b.data_type && a.semantic == b.semantic
}

/// Two schemas with the same columns, key and time positions.
pub open spec fn same_schema(a: TableSchema, b: TableSchema) -> bool {
    &&& a.columns@.len() == b.columns@.len()
    &&& forall|i: int| #![trigger a.columns@[i]] #![trigger b.columns@[i]]
        0 <= i < a.columns@.len() ==> same_column(a.columns@[i], b.columns@[i])
    &&& a.primary_key@ == b.primary_key@
    &&& a.time_index == b.time_index
}

impl Clone for ColumnDef {
    fn clone(&self) -> (r: Self)
        ensures
            same_column(r, *self),
    {
        ColumnDef { name: self.name.clone(), data_type: self.data_type, semantic: self.semantic }
    }
}

impl Clone for TableSchema {
    fn clone(&self) -> (r: Self)
        ensures
            same_schema(r, *self),
    {
        let mut columns: Vec<ColumnDef> = Vec::new();
        let mut i: usize = 0;
        while i < self.columns.len()
            invariant
                i <= self.columns@.len(),
                columns@.len() == i,
                forall|j: int| #![trigger columns@[j]] #![trigger self.columns@[j]]
                    0 <= j < i ==> same_column(columns@[j], self.columns@[j]),
            decreases self.columns@.len() - i,
        {
            columns.push(self.columns[i].clone());
            i += 1;
        }
        let primary_key = self.primary_key.clone();
        assert(primary_key@ =~= self.primary_key@);
        TableSchema { columns, primary_key, time_index: self.time_index }
    }
}

/// One column as it is stored.
pub struct FieldDef {
    pub name: String,
    pub data_type: DataType,
    pub nullable: bool,
}

/// The cells of a row.
pub open spec fn cells_view(cells: Seq<Vec<u8>>) -> Seq<Seq<u8>> {
    Seq::new(cells.len(), |i: int| cells[i]@)
}

/// Bytes after their length.
pub open spec fn prefixed(b: Seq<u8>) -> Seq<u8> {
    le_bytes(b.len(), 4) + b
}

/// Several byte strings in a row, each after its length.
pub open spec fn packed(parts: Seq<Seq<u8>>) -> Seq<u8>
    decreases parts.len(),
{
    if parts.len() == 0 {
        Seq::empty()
    } else {
        prefixed(parts[0]) + packed(parts.skip(1))
    }
}

/// The first `n` byte strings of packed ones; `None` where `data` is cut off.
pub open spec fn unpacked(data: Seq<u8>, n: nat) -> Option<Seq<Seq<u8>>>
    decreases n,
{
    if n == 0 {
        Some(Seq::empty())
    } else if data.len() < 4 {
        None
    } else {
        let len = le_value(data.take(4)) as int;
        if data.len() < 4 + len {
            None
        } else {
            match unpacked(data.skip(4 + len), (n - 1) as nat) {
                None => None,
                Some(rest) => Some(seq![data.subrange(4, 4 + len)] + rest),
            }
        }
    }
}

/// One byte string for several: a single one stands for itself.
pub open spec fn joined(parts: Seq<Seq<u8>>) -> Seq<u8> {
    if parts.len() == 1 {
        parts[0]
    } else {
        packed(parts)
    }
}

/// The `n` byte strings that were joined; `None` where `data` is cut off.
pub open spec fn split(data: Seq<u8>, n: nat) -> Option<Seq<Seq<u8>>> {
    if n == 1 {
        Some(seq![data])
    } else {
        unpacked(data, n)
    }
}

/// `data` is what joining some `n` byte strings gives.
pub open spec fn is_joined(data: Seq<u8>, n: nat) -> bool {
    split(data, n) is Some && joined(split(data, n).unwrap()) == data
}

/// The cells at the given positions.
pub open spec fn picked(cells: Seq<Seq<u8>>, at: Seq<usize>) -> Seq<Seq<u8>> {
    Seq::new(at.len(), |j: int| cells[at[j] as int])
}

/// `n` empty cells, the first `count` of `parts` put at the positions `at`.
pub open spec fn placed(n: nat, at: Seq<usize>, parts: Seq<Seq<u8>>, count: nat) -> Seq<Seq<u8>>
    decreases count,
{
    if count == 0 {
        Seq::new(n, |i: int| Seq::<u8>::empty())
    } else {
        placed(n, at, parts, (count - 1) as nat).update(
            at[count - 1] as int,
            parts[count - 1],
        )
    }
}

/// The positions below `n` of the field columns.
pub open spec fn fields_below(columns: Seq<ColumnDef>, n: nat) -> Seq<usize>
    decreases n,
{
    if n == 0 {
        Seq::empty()
    } else {
        let before = fields_below(columns, (n - 1) as nat);
        if columns[n - 1].semantic == SemanticType::Field {
            before.push((n - 1) as usize)
        } else {
            before
        }
    }
}

/// The positions of the field columns rise, and they are all of them.
pub proof fn lemma_fields_below(columns: Seq<ColumnDef>, n: nat)
    requires
        n <= columns.len() <= usize::MAX,
    ensures
        fields_below(columns, n).len() <= n,
        forall|a: int|
            0 <= a < fields_below(columns, n).len() ==> (#[trigger] fields_below(columns, n)[a]) < n
                && columns[fields_below(columns, n)[a] as int].semantic == SemanticType::Field,
        forall|a: int, b: int|
            0 <= a < b < fields_below(columns, n).len() ==> (#[trigger] fields_below(columns, n)[a])
                < (#[trigger] fields_below(columns, n)[b]),
        forall|c: int|
            0 <= c < n && (#[trigger] columns[c]).semantic == SemanticType::Field ==> fields_below(
                columns,
                n,
            ).contains(c as usize),
    decreases n,
{
    if n > 0 {
        let m = (n - 1) as nat;
        lemma_fields_below(columns, m);
        let before = fields_below(columns, m);
        let all = fields_below(columns, n);
        assert forall|c: int|
            0 <= c < n && (#[trigger] columns[c]).semantic
                == SemanticType::Field implies all.contains(c as usize) by {
            if c < m {
                assert(before.contains(c as usize));
                let a = choose|a: int| 0 <= a < before.len() && before[a] == c as usize;
                assert(all[a] == c as usize);
            } else {
                assert(all[all.len() - 1] == c as usize);
            }
        }
    }
}

fn lists_position(list: &[usize], c: usize) -> (r: bool)
    ensures
        r == list@.contains(c),
        r == (exists|j: int| 0 <= j < list@.len() && (#[trigger] list@[j]) == c),
{
    let mut j: usize = 0;
    while j < list.len()
        invariant
            j <= list@.len(),
            forall|x: int| 0 <= x < j ==> (#[trigger] list@[x]) != c,
        decreases list@.len() - j,
    {
        if list[j] == c {
            assert(list@[j as int] == c);
            return true;
        }
        j += 1;
    }
    false
}

impl TableSchema {
    /// The positions of the field columns.
    pub open spec fn fields(&self) -> Seq<usize> {
        fields_below(self.columns@, self.columns@.len())
    }

    /// The key positions and the time position are positions of columns.
    pub open spec fn in_range(&self) -> bool {
        &&& self.time_index < self.columns@.len()
        &&& forall|j: int|
            0 <= j < self.primary_key@.len() ==> (#[trigger] self.primary_key@[j])
                < self.columns@.len()
    }

    /// Column `c` is a part of the primary key.
    pub open spec fn is_key_column(&self, c: int) -> bool {
        exists|j: int| 0 <= j < self.primary_key@.len() && (#[trigger] self.primary_key@[j]) == c
    }

    /// Every column is one part of the key, or the timestamp, or a field.
    pub open spec fn is_sound(&self) -> bool {
        &&& self.in_range()
        &&& forall|a: int, b: int|
            0 <= a < b < self.primary_key@.len() ==> (#[trigger] self.primary_key@[a]) != (
            #[trigger] self.primary_key@[b])
        &&& forall|c: int| #![trigger self.columns@[c]]
            0 <= c < self.columns@.len() ==> {
                let is_field = self.columns@[c].semantic == SemanticType::Field;
                &&& self.is_key_column(c) ==> c != self.time_index && !is_field
                &&& c == self.time_index ==> !is_field
                &&& self.is_key_column(c) || c == self.time_index || is_field
            }
    }

    /// The tags of a row that is given by its cells.
    pub open spec fn tags_of(&self, cells: Seq<Seq<u8>>) -> Seq<Seq<u8>> {
        picked(cells, self.primary_key@)
    }

    /// The fields of a row that is given by its cells.
    pub open spec fn fields_of(&self, cells: Seq<Seq<u8>>) -> Seq<Seq<u8>> {
        picked(cells, self.fields())
    }

    /// Cells that hold the given tags and timestamp and are empty otherwise.
    pub open spec fn key_cells(&self, tags: Seq<Seq<u8>>, ts: i64) -> Seq<Seq<u8>> {
        placed(
            self.columns@.len(),
            self.primary_key@,
            tags,
            self.primary_key@.len(),
        ).update(self.time_index as int, le_bytes(ts_bits(ts), 8))
    }

    /// The positions below `n` of the columns that a query for the given
    /// columns reads: those of the key, the timestamp, and the given ones.
    pub open spec fn needed_below(&self, cols: Seq<usize>, n: nat) -> Seq<usize>
        decreases n,
    {
        if n == 0 {
            Seq::empty()
        } else {
            let before = self.needed_below(cols, (n - 1) as nat);
            if self.is_key_column(n - 1) || n - 1 == self.time_index || cols.contains(
                (n - 1) as usize,
            ) {
                before.push((n - 1) as usize)
            } else {
                before
            }
        }
    }

    /// A table with one binary tag, a timestamp and one binary field.
    pub fn default_table() -> (r: Self)
        ensures
            r.columns@.len() == 3,
            r.columns@[0].name@ == "tags"@,
            r.columns@[0].data_type == DataType::Binary,
            r.columns@[0].semantic == SemanticType::Tag,
            r.columns@[1].name@ == "timestamp"@,
            r.columns@[1].data_type == DataType::Int64,
            r.columns@[1].semantic == SemanticType::Timestamp,
            r.columns@[2].name@ == "fields"@,
            r.columns@[2].data_type == DataType::Binary,
            r.columns@[2].semantic == SemanticType::Field,
            r.primary_key@ == seq![0usize],
            r.time_index == 1,
            r.is_sound(),
            r.fields() == seq![2usize],
    {
        let mut columns: Vec<ColumnDef> = Vec::new();
        columns.push(
            ColumnDef {
                name: "tags".to_owned(),
                data_type: DataType::Binary,
                semantic: SemanticType::Tag,
            },
        );
        columns.push(
            ColumnDef {
                name: "timestamp".to_owned(),
                data_type: DataType::Int64,
                semantic: SemanticType::Timestamp,
            },
        );
        columns.push(
            ColumnDef {
                name: "fields".to_owned(),
                data_type: DataType::Binary,
                semantic: SemanticType::Field,
            },
        );
        let mut primary_key: Vec<usize> = Vec::new();
        primary_key.push(0);
        let r = TableSchema { columns, primary_key, time_index: 1 };
        proof {
            assert(r.primary_key@ =~= seq![0usize]);
            assert(r.primary_key@[0] == 0);
            assert(r.is_key_column(0));
            reveal_with_fuel(fields_below, 4);
            assert(r.fields() =~= seq![2usize]);
        }
        r
    }

    /// The user's columns as they are stored: fields may be null.
    pub fn arrow_schema(&self) -> (r: Vec<FieldDef>)
        ensures
            r@.len() == self.columns@.len(),
            forall|i: int| #![trigger r@[i]]
                0 <= i < r@.len() ==> {
                    &&& r@[i].name@ == self.columns@[i].name@
                    &&& r@[i].data_type == self.columns@[i].data_type
                    &&& r@[i].nullable == (self.columns@[i].semantic == SemanticType::Field)
                },
    {
        let mut r: Vec<FieldDef> = Vec::new();
        let mut i: usize = 0;
        while i < self.columns.len()
            invariant
                i <= self.columns@.len(),
                r@.len() == i,
                forall|j: int| #![trigger r@[j]]
                    0 <= j < i ==> {
                        &&& r@[j].name@ == self.columns@[j].name@
                        &&& r@[j].data_type == self.columns@[j].data_type
                        &&& r@[j].nullable == (self.columns@[j].semantic == SemanticType::Field)
                    },
            decreases self.columns@.len() - i,
        {
            let c = &self.columns[i];
            r.push(
                FieldDef {
                    name: c.name.clone(),
                    data_type: c.data_type,
                    nullable: c.semantic == SemanticType::Field,
                },
            );
            i += 1;
        }
        r
    }

    /// The name of the time column.
    pub fn time_index_name(&self) -> (r: &String)
        requires
            self.time_index < self.columns@.len(),
        ensures
            r@ == self.columns@[self.time_index as int].name@,
    {
        &self.columns[self.time_index].name
    }

    /// The positions of the field columns.
    pub fn field_cols(&self) -> (r: Vec<usize>)
        ensures
            r@ == self.fields(),
    {
        let mut r: Vec<usize> = Vec::new();
        let mut i: usize = 0;
        while i < self.columns.len()
            invariant
                i <= self.columns@.len(),
                r@ == fields_below(self.columns@, i as nat),
            decreases self.columns@.len() - i,
        {
            if self.columns[i].semantic == SemanticType::Field {
                r.push(i);
            }
            i += 1;
        }
        r
    }

    /// The positions of the columns that a query for the given columns reads.
    pub fn needed_columns(&self, cols: &[usize]) -> (r: Vec<usize>)
        ensures
            r@ == self.needed_below(cols@, self.columns@.len()),
    {
        let n: usize = self.columns.len();
        let mut r: Vec<usize> = Vec::new();
        let mut c: usize = 0;
        while c < n
            invariant
                c <= n,
                n == self.columns@.len(),
                r@ == self.needed_below(cols@, c as nat),
            decreases n - c,
        {
            if c == self.time_index || lists_position(self.primary_key.as_slice(), c)
                || lists_position(cols, c) {
                r.push(c);
            }
            c += 1;
        }
        r
    }

    /// Whether the key and time positions are positions of columns.
    pub fn check_in_range(&self) -> (r: bool)
        ensures
            r == self.in_range(),
    {
        if self.time_index >= self.columns.len() {
            return false;
        }
        let mut j: usize = 0;
        while j < self.primary_key.len()
            invariant
                j <= self.primary_key@.len(),
                self.time_index < self.columns@.len(),
                forall|i: int|
                    0 <= i < j ==> (#[trigger] self.primary_key@[i]) < self.columns@.len(),
            decreases self.primary_key@.len() - j,
        {
            if self.primary_key[j] >= self.columns.len() {
                assert(!(self.primary_key@[j as int] < self.columns@.len()));
                return false;
            }
            j += 1;
        }
        true
    }

    fn key_column(&self, c: usize) -> (r: bool)
        ensures
            r == self.is_key_column(c as int),
    {
        let mut j: usize = 0;
        while j < self.primary_key.len()
            invariant
                j <= self.primary_key@.len(),
                forall|i: int| 0 <= i < j ==> (#[trigger] self.primary_key@[i]) != c,
            decreases self.primary_key@.len() - j,
        {
            if self.primary_key[j] == c {
                assert(self.primary_key@[j as int] == c);
                return true;
            }
            j += 1;
        }
        false
    }

    fn distinct_key(&self) -> (r: bool)
        ensures
            r == (forall|a: int, b: int|
                0 <= a < b < self.primary_key@.len() ==> (#[trigger] self.primary_key@[a]) != (
                #[trigger] self.primary_key@[b])),
    {
        let mut b: usize = 0;
        while b < self.primary_key.len()
            invariant
                b <= self.primary_key@.len(),
                forall|x: int, y: int|
                    0 <= x < y < b ==> (#[trigger] self.primary_key@[x]) != (
                    #[trigger] self.primary_key@[y]),
            decreases self.primary_key@.len() - b,
        {
            let mut a: usize = 0;
            while a < b
                invariant
                    a <= b < self.primary_key@.len(),
                    forall|x: int|
                        0 <= x < a ==> (#[trigger] self.primary_key@[x])
                            != self.primary_key@[b as int],
                decreases b - a,
            {
                if self.primary_key[a] == self.primary_key[b] {
                    assert(self.primary_key@[a as int] == self.primary_key@[b as int]);
                    return false;
                }
                a += 1;
            }
            b += 1;
        }
        true
    }

    /// Whether every column is one part of the key, or the timestamp, or a
    /// field.
    pub fn check_sound(&self) -> (r: bool)
        ensures
            r == self.is_sound(),
    {
        if !self.check_in_range() || !self.distinct_key() {
            return false;
        }
        let mut c: usize = 0;
        while c < self.columns.len()
            invariant
                c <= self.columns@.len(),
                forall|d: int| #![trigger self.columns@[d]]
                    0 <= d < c ==> {
                        let is_field = self.columns@[d].semantic == SemanticType::Field;
                        &&& self.is_key_column(d) ==> d != self.time_index && !is_field
                        &&& d == self.time_index ==> !is_field
                        &&& self.is_key_column(d) || d == self.time_index || is_field
                    },
            decreases self.columns@.len() - c,
        {
            let is_field = self.columns[c].semantic == SemanticType::Field;
            let is_key = self.key_column(c);
            let is_time = c == self.time_index;
            let good = if is_key {
                !is_time && !is_field
            } else {
                is_time != is_field
            };
            if !good {
                assert(self.columns@[c as int].semantic == SemanticType::Field <==> is_field);
                return false;
            }
            c += 1;
        }
        true
    }

    fn push_len_perfixed(out: &mut Vec<u8>, bytes: &Vec<u8>)
        ensures
            final(out)@ == old(out)@ + prefixed(bytes@),
    {
        push_le(out, bytes.len() as u64, 4);
        out.extend_from_slice(bytes.as_slice());
        assert(out@ =~= old(out)@ + prefixed(bytes@));
    }

    /// Reads bytes after their length; `None` where `data` is cut off.
    fn take_len_prefixed(data: &[u8], pos: &mut usize) -> (r: Option<Vec<u8>>)
        requires
            *old(pos) <= data@.len(),
        ensures
            *final(pos) <= data@.len(),
            ({
                let rest = data@.skip(*old(pos) as int);
                let len = le_value(rest.take(4)) as int;
                match r {
                    None => rest.len() < 4 || rest.len() < 4 + len,
                    Some(v) => {
                        &&& rest.len() >= 4 + len
                        &&& v@ == rest.subrange(4, 4 + len)
                        &&& *final(pos) == *old(pos) + 4 + len
                    },
                }
            }),
    {
        let p: usize = *pos;
        if data.len() - p < 4 {
            return None;
        }
        let ghost rest = data@.skip(p as int);
        assert(data@.subrange(p as int, p + 4) =~= rest.take(4));
        proof {
            lemma_byte_spans();
        }
        let len: u64 = read_le(data, p, 4);
        if ((data.len() - p - 4) as u64) < len {
            return None;
        }
        let n: usize = len as usize;
        let v = slice_to_vec(slice_subrange(data, p + 4, p + 4 + n));
        assert(v@ =~= rest.subrange(4, 4 + n));
        *pos = p + 4 + n;
        Some(v)
    }

    /// The first `n` byte strings of packed ones, if `data` is not cut off.
    fn unpack(data: &[u8], n: usize) -> (r: Option<Vec<Vec<u8>>>)
        ensures
            match r {
                None => unpacked(data@, n as nat) is None,
                Some(parts) => unpacked(data@, n as nat) == Some(cells_view(parts@)),
            },
    {
        let mut out: Vec<Vec<u8>> = Vec::new();
        let mut pos: usize = 0;
        let mut i: usize = 0;
        assert(data@.skip(0) =~= data@);
        assert(cells_view(out@) =~= Seq::empty());
        proof {
            match unpacked(data@, n as nat) {
                Some(x) => {
                    assert(cells_view(out@) + x =~= x);
                },
                None => {},
            }
        }
        while i < n
            invariant
                i <= n,
                pos <= data@.len(),
                match unpacked(data@.skip(pos as int), (n - i) as nat) {
                    None => unpacked(data@, n as nat) is None,
                    Some(rest) => unpacked(data@, n as nat) == Some(cells_view(out@) + rest),
                },
            decreases n - i,
        {
            let ghost start = pos as int;
            let ghost before = cells_view(out@);
            match Self::take_len_prefixed(data, &mut pos) {
                None => {
                    return None;
                },
                Some(v) => {
                    out.push(v);
                    proof {
                        let here = data@.skip(start);
                        let len = le_value(here.take(4)) as int;
                        assert(here.skip(4 + len) =~= data@.skip(pos as int));
                        assert(cells_view(out@) =~= before.push(v@));
                        match unpacked(data@.skip(pos as int), (n - i - 1) as nat) {
                            Some(rest) => {
                                assert(before + (seq![v@] + rest) =~= cells_view(out@) + rest);
                            },
                            None => {},
                        }
                    }
                },
            }
            i += 1;
        }
        assert(cells_view(out@) + Seq::<Seq<u8>>::empty() =~= cells_view(out@));
        Some(out)
    }

    fn join_at(cells: &[Vec<u8>], at: &Vec<usize>) -> (r: Vec<u8>)
        requires
            forall|j: int| 0 <= j < at@.len() ==> (#[trigger] at@[j]) < cells@.len(),
        ensures
            r@ == joined(picked(cells_view(cells@), at@)),
    {
        let ghost parts = picked(cells_view(cells@), at@);
        if at.len() == 1 {
            return copy_bytes(&cells[at[0]]);
        }
        let mut out: Vec<u8> = Vec::new();
        let mut j: usize = 0;
        assert(parts.skip(0) =~= parts);
        assert(out@ + packed(parts) =~= packed(parts));
        while j < at.len()
            invariant
                j <= at@.len(),
                parts == picked(cells_view(cells@), at@),
                forall|i: int| 0 <= i < at@.len() ==> (#[trigger] at@[i]) < cells@.len(),
                out@ + packed(parts.skip(j as int)) == packed(parts),
            decreases at@.len() - j,
        {
            let ghost before = out@;
            Self::push_len_perfixed(&mut out, &cells[at[j]]);
            proof {
                let rest = parts.skip(j as int);
                assert(rest[0] == cells@[at@[j as int] as int]@);
                assert(rest.skip(1) =~= parts.skip(j + 1));
                assert(before + packed(rest) =~= out@ + packed(parts.skip(j + 1)));
            }
            j += 1;
        }
        assert(out@ + packed(parts.skip(j as int)) =~= out@);
        out
    }

    /// The encoded tags of a row.
    pub fn encode_tags(&self, cells: &[Vec<u8>]) -> (r: Vec<u8>)
        requires
            forall|j: int|
                0 <= j < self.primary_key@.len() ==> (#[trigger] self.primary_key@[j])
                    < cells@.len(),
        ensures
            r@ == joined(self.tags_of(cells_view(cells@))),
    {
        Self::join_at(cells, &self.primary_key)
    }

    /// Whether encoded tags can be decoded.
    pub fn can_decode_tags(&self, bytes: &[u8]) -> (r: bool)
        ensures
            r == (split(bytes@, self.primary_key@.len()) is Some),
    {
        self.primary_key.len() == 1 || Self::unpack(bytes, self.primary_key.len()).is_some()
    }

    /// The tags that were encoded.
    pub fn decode_tags(&self, bytes: &[u8]) -> (r: Vec<Vec<u8>>)
        requires
            split(bytes@, self.primary_key@.len()) is Some,
        ensures
            cells_view(r@) == split(bytes@, self.primary_key@.len()).unwrap(),
    {
        Self::split_into(bytes, self.primary_key.len())
    }

    fn split_into(bytes: &[u8], n: usize) -> (r: Vec<Vec<u8>>)
        requires
            split(bytes@, n as nat) is Some,
        ensures
            cells_view(r@) == split(bytes@, n as nat).unwrap(),
    {
        if n == 1 {
            let mut out: Vec<Vec<u8>> = Vec::new();
            out.push(slice_to_vec(bytes));
            assert(cells_view(out@) =~= seq![bytes@]);
            return out;
        }
        match Self::unpack(bytes, n) {
            Some(out) => out,
            None => Vec::new(),
        }
    }

    /// The encoded fields of a row.
    pub fn encode_fields(&self, cells: &[Vec<u8>]) -> (r: Vec<u8>)
        requires
            forall|j: int|
                0 <= j < self.fields().len() ==> (#[trigger] self.fields()[j]) < cells@.len(),
        ensures
            r@ == joined(self.fields_of(cells_view(cells@))),
    {
        let at = self.field_cols();
        Self::join_at(cells, &at)
    }

    /// Whether encoded fields can be decoded.
    pub fn can_decode_fields(&self, bytes: &[u8]) -> (r: bool)
        ensures
            r == (split(bytes@, self.fields().len()) is Some),
    {
        let n: usize = self.field_cols().len();
        n == 1 || Self::unpack(bytes, n).is_some()
    }

    /// The fields that were encoded.
    pub fn decode_fields(&self, bytes: &[u8]) -> (r: Vec<Vec<u8>>)
        requires
            split(bytes@, self.fields().len()) is Some,
        ensures
            cells_view(r@) == split(bytes@, self.fields().len()).unwrap(),
    {
        let n: usize = self.field_cols().len();
        Self::split_into(bytes, n)
    }

    fn place(&self, at: &Vec<usize>, parts: &[Vec<u8>]) -> (r: Vec<Vec<u8>>)
        requires
            parts@.len() >= at@.len(),
            forall|j: int| 0 <= j < at@.len() ==> (#[trigger] at@[j]) < self.columns@.len(),
        ensures
            cells_view(r@) == placed(
                self.columns@.len(),
                at@,
                cells_view(parts@),
                at@.len(),
            ),
    {
        let mut cells: Vec<Vec<u8>> = Vec::new();
        while cells.len() < self.columns.len()
            invariant
                cells@.len() <= self.columns@.len(),
                forall|i: int|
                    0 <= i < cells@.len() ==> (#[trigger] cells@[i])@ == Seq::<u8>::empty(),
            decreases self.columns@.len() - cells@.len(),
        {
            cells.push(Vec::new());
        }
        let mut j: usize = 0;
        assert(cells_view(cells@) =~= placed(self.columns@.len(), at@, cells_view(parts@), 0));
        while j < at.len()
            invariant
                j <= at@.len() <= parts@.len(),
                cells@.len() == self.columns@.len(),
                forall|i: int| 0 <= i < at@.len() ==> (#[trigger] at@[i]) < self.columns@.len(),
                cells_view(cells@) == placed(
                    self.columns@.len(),
                    at@,
                    cells_view(parts@),
                    j as nat,
                ),
            decreases at@.len() - j,
        {
            let ghost before = cells_view(cells@);
            cells.set(at[j], copy_bytes(&parts[j]));
            assert(cells_view(cells@) =~= before.update(at@[j as int] as int, parts@[j as int]@));
            j += 1;
        }
        cells
    }

    fn ts_cell(ts: i64) -> (r: Vec<u8>)
        ensures
            r@ == le_bytes(ts_bits(ts), 8),
    {
        let mut r: Vec<u8> = Vec::new();
        push_le(&mut r, ts_to_bits(ts), 8);
        assert(r@ =~= le_bytes(ts_bits(ts), 8));
        r
    }

    /// The cells of a key; those of other columns are empty.
    pub fn key_to_cells(&self, key: &Key) -> (r: Vec<Vec<u8>>)
        requires
            self.in_range(),
            split(key.0@, self.primary_key@.len()) is Some,
        ensures
            cells_view(r@) == self.key_cells(
                split(key.0@, self.primary_key@.len()).unwrap(),
                key.1,
            ),
    {
        let tags = self.decode_tags(key.0.as_slice());
        proof {
            lemma_split_len(key.0@, self.primary_key@.len());
            assert(tags@.len() == cells_view(tags@).len());
        }
        let mut cells = self.place(&self.primary_key, tags.as_slice());
        let ghost before = cells_view(cells@);
        proof {
            lemma_placed_len(
                self.columns@.len(),
                self.primary_key@,
                cells_view(tags@),
                self.primary_key@.len(),
            );
            assert(cells@.len() == before.len());
        }
        cells.set(self.time_index, Self::ts_cell(key.1));
        assert(cells_view(cells@) =~= before.update(
            self.time_index as int,
            le_bytes(ts_bits(key.1), 8),
        ));
        cells
    }

    /// The key of a row that is given by its cells.
    pub fn cells_to_key(&self, cells: &[Vec<u8>]) -> (r: Key)
        requires
            forall|j: int|
                0 <= j < self.primary_key@.len() ==> (#[trigger] self.primary_key@[j])
                    < cells@.len(),
            self.time_index < cells@.len(),
            cells@[self.time_index as int]@.len() == 8,
        ensures
            key_view(r) == (
                joined(self.tags_of(cells_view(cells@))),
                bits_ts(le_value(cells@[self.time_index as int]@)),
            ),
    {
        let tags = self.encode_tags(cells);
        let cell = &cells[self.time_index];
        assert(cell@.subrange(0, 8) =~= cell@);
        let ts: i64 = bits_to_ts(read_le(cell.as_slice(), 0, 8));
        (tags, ts)
    }

    /// The key with the given tags and timestamp.
    pub fn key(&self, tags: &[Vec<u8>], ts: i64) -> (r: Key)
        requires
            self.in_range(),
            tags@.len() >= self.primary_key@.len(),
        ensures
            key_view(r) == (joined(self.tags_of(self.key_cells(cells_view(tags@), ts))), ts),
    {
        let mut cells = self.place(&self.primary_key, tags);
        let ghost before = cells_view(cells@);
        proof {
            lemma_placed_len(
                self.columns@.len(),
                self.primary_key@,
                cells_view(tags@),
                self.primary_key@.len(),
            );
            assert(cells@.len() == before.len());
            lemma_le_bytes_len(ts_bits(ts), 8);
            lemma_ts_roundtrip(ts);
            lemma_le_roundtrip(ts_bits(ts), 8);
        }
        cells.set(self.time_index, Self::ts_cell(ts));
        assert(cells_view(cells@) =~= before.update(
            self.time_index as int,
            le_bytes(ts_bits(ts), 8),
        ));
        self.cells_to_key(cells.as_slice())
    }

    /// The value with the given fields.
    pub fn value(&self, fields: &[Vec<u8>]) -> (r: Value)
        requires
            fields@.len() >= self.fields().len(),
        ensures
            r@ == joined(cells_view(fields@).take(self.fields().len() as int)),
    {
        let at = self.field_cols();
        let n: usize = self.columns.len();
        proof {
            assert(n == self.columns@.len());
            lemma_fields_below(self.columns@, self.columns@.len());
        }
        let cells = self.place(&at, fields);
        proof {
            let parts = cells_view(fields@);
            lemma_placed_len(self.columns@.len(), at@, parts, at@.len());
            assert(cells@.len() == cells_view(cells@).len());
            lemma_placed_cells(self.columns@.len(), at@, parts, at@.len());
            assert(self.fields_of(cells_view(cells@)) =~= parts.take(at@.len() as int));
        }
        self.encode_fields(cells.as_slice())
    }
}

pub proof fn lemma_placed_len(n: nat, at: Seq<usize>, parts: Seq<Seq<u8>>, count: nat)
    requires
        count <= at.len(),
        forall|j: int| 0 <= j < at.len() ==> (#[trigger] at[j]) < n,
    ensures
        placed(n, at, parts, count).len() == n,
    decreases count,
{
    if count > 0 {
        lemma_placed_len(n, at, parts, (count - 1) as nat);
    }
}

/// At different positions every cell is where it was put.
pub proof fn lemma_placed_cells(n: nat, at: Seq<usize>, parts: Seq<Seq<u8>>, count: nat)
    requires
        count <= at.len(),
        forall|j: int| 0 <= j < at.len() ==> (#[trigger] at[j]) < n,
        forall|a: int, b: int|
            0 <= a < b < at.len() ==> (#[trigger] at[a]) != (#[trigger] at[b]),
    ensures
        forall|j: int|
            0 <= j < count ==> placed(n, at, parts, count)[(#[trigger] at[j]) as int] == parts[j],
    decreases count,
{
    lemma_placed_len(n, at, parts, count);
    if count > 0 {
        lemma_placed_len(n, at, parts, (count - 1) as nat);
        lemma_placed_cells(n, at, parts, (count - 1) as nat);
    }
}

pub proof fn lemma_unpacked_len(data: Seq<u8>, n: nat)
    ensures
        unpacked(data, n) is Some ==> unpacked(data, n).unwrap().len() == n,
    decreases n,
{
    if n > 0 && data.len() >= 4 {
        lemma_unpacked_len(data.skip(4 + le_value(data.take(4)) as int), (n - 1) as nat);
    }
}

pub proof fn lemma_split_len(data: Seq<u8>, n: nat)
    ensures
        split(data, n) is Some ==> split(data, n).unwrap().len() == n,
{
    lemma_unpacked_len(data, n);
}

proof fn lemma_unpack_packed(parts: Seq<Seq<u8>>)
    requires
        forall|j: int| 0 <= j < parts.len() ==> (#[trigger] parts[j]).len() < 0x1_0000_0000,
    ensures
        unpacked(packed(parts), parts.len()) == Some(parts),
    decreases parts.len(),
{
    if parts.len() == 0 {
        assert(parts =~= Seq::empty());
    } else {
        let data = packed(parts);
        let len = parts[0].len();
        assert forall|j: int| 0 <= j < parts.skip(1).len() implies (#[trigger] parts.skip(
            1,
        )[j]).len() < 0x1_0000_0000 by {
            assert(parts.skip(1)[j] == parts[j + 1]);
        }
        lemma_unpack_packed(parts.skip(1));
        lemma_byte_spans();
        lemma_le_roundtrip(len, 4);
        assert(data.take(4) =~= le_bytes(len, 4));
        assert(data.subrange(4, 4 + len as int) =~= parts[0]);
        assert(data.skip(4 + len as int) =~= packed(parts.skip(1)));
        assert(seq![parts[0]] + parts.skip(1) =~= parts);
    }
}

/// Splitting gives back what was joined.
pub proof fn law_split_joined(parts: Seq<Seq<u8>>)
    requires
        forall|j: int| 0 <= j < parts.len() ==> (#[trigger] parts[j]).len() < 0x1_0000_0000,
    ensures
        split(joined(parts), parts.len()) == Some(parts),
        is_joined(joined(parts), parts.len()),
{
    if parts.len() == 1 {
        assert(seq![parts[0]] =~= parts);
    } else {
        lemma_unpack_packed(parts);
    }
}

/// Tags survive encoding and decoding.
pub proof fn law_tags_roundtrip(schema: TableSchema, cells: Seq<Seq<u8>>)
    requires
        forall|j: int|
            0 <= j < schema.primary_key@.len() ==> cells[(
            #[trigger] schema.primary_key@[j]) as int].len() < 0x1_0000_0000,
    ensures
        split(joined(schema.tags_of(cells)), schema.primary_key@.len()) == Some(
            schema.tags_of(cells),
        ),
{
    let parts = schema.tags_of(cells);
    assert forall|j: int| 0 <= j < parts.len() implies (#[trigger] parts[j]).len()
        < 0x1_0000_0000 by {
        assert(parts[j] == cells[schema.primary_key@[j] as int]);
    }
    law_split_joined(parts);
}

/// Fields survive encoding and decoding.
pub proof fn law_fields_roundtrip(schema: TableSchema, cells: Seq<Seq<u8>>)
    requires
        forall|j: int|
            0 <= j < schema.fields().len() ==> cells[(#[trigger] schema.fields()[j]) as int].len()
                < 0x1_0000_0000,
    ensures
        split(joined(schema.fields_of(cells)), schema.fields().len()) == Some(
            schema.fields_of(cells),
        ),
{
    let parts = schema.fields_of(cells);
    assert forall|j: int| 0 <= j < parts.len() implies (#[trigger] parts[j]).len()
        < 0x1_0000_0000 by {
        assert(parts[j] == cells[schema.fields()[j] as int]);
    }
    law_split_joined(parts);
}

/// In a sound schema a key holds exactly the given tags and timestamp.
pub proof fn law_key_holds_tags(schema: TableSchema, tags: Seq<Seq<u8>>, ts: i64)
    requires
        schema.is_sound(),
        tags.len() == schema.primary_key@.len(),
    ensures
        schema.tags_of(schema.key_cells(tags, ts)) == tags,
        schema.key_cells(tags, ts)[schema.time_index as int] == le_bytes(ts_bits(ts), 8),
{
    let n = schema.columns@.len();
    let at = schema.primary_key@;
    lemma_placed_len(n, at, tags, at.len());
    lemma_placed_cells(n, at, tags, at.len());
    assert forall|j: int| 0 <= j < tags.len() implies schema.key_cells(
        tags,
        ts,
    )[at[j] as int] == tags[j] by {
        assert(schema.is_key_column(at[j] as int));
        let c = schema.columns@[at[j] as int];
        assert(at[j] != schema.time_index);
    }
    assert(schema.tags_of(schema.key_cells(tags, ts)) =~= tags);
}

/// In a sound schema the cells of a key lead back to the key.
pub proof fn law_key_cells_roundtrip(schema: TableSchema, tags: Seq<u8>, ts: i64)
    requires
        schema.is_sound(),
        is_joined(tags, schema.primary_key@.len()),
    ensures
        ({
            let cells = schema.key_cells(split(tags, schema.primary_key@.len()).unwrap(), ts);
            &&& joined(schema.tags_of(cells)) == tags
            &&& bits_ts(le_value(cells[schema.time_index as int])) == ts
        }),
{
    lemma_split_len(tags, schema.primary_key@.len());
    law_key_holds_tags(schema, split(tags, schema.primary_key@.len()).unwrap(), ts);
    lemma_ts_roundtrip(ts);
    lemma_le_roundtrip(ts_bits(ts), 8);
}

/// In a sound schema the key of a row leads back to its tag and time cells.
pub proof fn law_cells_key_roundtrip(schema: TableSchema, cells: Seq<Seq<u8>>, c: int)
    requires
        schema.is_sound(),
        cells.len() == schema.columns@.len(),
        cells[schema.time_index as int].len() == 8,
        forall|j: int|
            0 <= j < schema.primary_key@.len() ==> cells[(
            #[trigger] schema.primary_key@[j]) as int].len() < 0x1_0000_0000,
        schema.is_key_column(c) || c == schema.time_index,
    ensures
        ({
            let tags = joined(schema.tags_of(cells));
            let ts = bits_ts(le_value(cells[schema.time_index as int]));
            &&& split(tags, schema.primary_key@.len()) is Some
            &&& schema.key_cells(split(tags, schema.primary_key@.len()).unwrap(), ts)[c]
                == cells[c]
        }),
{
    let ts = bits_ts(le_value(cells[schema.time_index as int]));
    let tags = schema.tags_of(cells);
    law_tags_roundtrip(schema, cells);
    law_key_holds_tags(schema, tags, ts);
    lemma_le_value_bound(cells[schema.time_index as int]);
    lemma_bits_roundtrip(le_value(cells[schema.time_index as int]));
    lemma_le_roundtrip_bytes(cells[schema.time_index as int]);
    if schema.is_key_column(c) {
        let j = choose|j: int|
            0 <= j < schema.primary_key@.len() && (#[trigger] schema.primary_key@[j]) == c;
        assert(tags[j] == cells[c]);
        assert(schema.tags_of(schema.key_cells(tags, ts))[j] == tags[j]);
    }
}

/// How several byte strings become one: a single one stands for itself; of no or
/// several, each follows the one before it, after its length in four bytes.
pub proof fn law_parts_follow_their_lengths(parts: Seq<Seq<u8>>, more: Seq<u8>)
    ensures
        joined(seq![more]) == more,
        joined(Seq::<Seq<u8>>::empty()) == Seq::<u8>::empty(),
        parts.len() > 0 ==> joined(parts.push(more)) == (if parts.len() == 1 {
            le_bytes(parts[0].len(), 4) + parts[0]
        } else {
            joined(parts)
        }) + le_bytes(more.len(), 4) + more,
{
    lemma_packed_push(parts, more);
    if parts.len() == 1 {
        assert(packed(parts.skip(1)) =~= Seq::<u8>::empty());
        assert(packed(parts) == prefixed(parts[0]) + packed(parts.skip(1)));
        assert(packed(parts) =~= prefixed(parts[0]));
    }
    assert(packed(parts.push(more)) =~= packed(parts) + le_bytes(more.len(), 4) + more);
}

proof fn lemma_packed_push(parts: Seq<Seq<u8>>, more: Seq<u8>)
    ensures
        packed(parts.push(more)) == packed(parts) + prefixed(more),
    decreases parts.len(),
{
    let all = parts.push(more);
    if parts.len() == 0 {
        assert(all[0] == more);
        assert(packed(all.skip(1)) =~= Seq::<u8>::empty());
        assert(packed(all) == prefixed(all[0]) + packed(all.skip(1)));
        assert(packed(all) =~= packed(parts) + prefixed(more));
    } else {
        lemma_packed_push(parts.skip(1), more);
        assert(all.skip(1) =~= parts.skip(1).push(more));
        assert(packed(all) =~= packed(parts) + prefixed(more));
    }
}

/// What can be taken apart, and into what: one part is all that is there; of none or
/// several, exactly those whose lengths and bytes stand at the start. What follows
/// them does not matter, and nothing comes of what is cut off before.
pub proof fn law_only_parts_are_split(data: Seq<u8>, n: nat, parts: Seq<Seq<u8>>)
    ensures
        split(data, 1) == Some(seq![data]),
        n != 1 ==> (split(data, n) == Some(parts) <==> {
            &&& parts.len() == n
            &&& forall|j: int| 0 <= j < n ==> (#[trigger] parts[j]).len() < 0x1_0000_0000
            &&& joined(parts).is_prefix_of(data)
        }),
{
    if n != 1 {
        lemma_unpacked_exactly(data, n, parts);
        if parts.len() == n {
            assert(joined(parts) == packed(parts));
        }
        lemma_unpacked_len(data, n);
    }
}

proof fn lemma_unpacked_exactly(data: Seq<u8>, n: nat, parts: Seq<Seq<u8>>)
    ensures
        unpacked(data, n) == Some(parts) <==> {
            &&& parts.len() == n
            &&& forall|j: int| 0 <= j < n ==> (#[trigger] parts[j]).len() < 0x1_0000_0000
            &&& packed(parts).is_prefix_of(data)
        },
    decreases n,
{
    lemma_unpacked_len(data, n);
    if n == 0 {
        if parts.len() == 0 {
            assert(parts =~= Seq::<Seq<u8>>::empty());
            assert(packed(parts) =~= Seq::<u8>::empty());
        }
    } else if parts.len() == n {
        let tail = parts.skip(1);
        lemma_byte_spans();
        assert(seq![parts[0]] + tail =~= parts);
        if unpacked(data, n) == Some(parts) {
            let len = le_value(data.take(4));
            let rest = data.skip(4 + len as int);
            let got = unpacked(rest, (n - 1) as nat).unwrap();
            assert(parts[0] == data.subrange(4, 4 + len as int));
            assert(tail =~= got);
            lemma_unpacked_exactly(rest, (n - 1) as nat, tail);
            lemma_le_value_bound(data.take(4));
            lemma_le_roundtrip_bytes(data.take(4));
            assert(parts[0].len() == len);
            assert(le_bytes(len, 4) == data.take(4));
            assert forall|j: int| 0 <= j < n implies (#[trigger] parts[j]).len()
                < 0x1_0000_0000 by {
                if j > 0 {
                    assert(tail[j - 1] == parts[j]);
                }
            }
            let p = packed(parts);
            assert(p =~= data.take(p.len() as int)) by {
                assert(p == prefixed(parts[0]) + packed(tail));
                assert(packed(tail) == rest.take(packed(tail).len() as int));
                assert(prefixed(parts[0]) =~= data.take(4 + len as int));
                assert forall|i: int| 0 <= i < p.len() implies p[i] == data[i] by {
                    if i >= 4 + len {
                        assert(packed(tail)[i - 4 - len] == rest[i - 4 - len]);
                    } else {
                        assert(prefixed(parts[0])[i] == data.take(4 + len as int)[i]);
                    }
                }
            }
        }
        if (forall|j: int| 0 <= j < n ==> (#[trigger] parts[j]).len() < 0x1_0000_0000) && packed(
            parts,
        ).is_prefix_of(data) {
            let len = parts[0].len();
            let p = packed(parts);
            assert(p == prefixed(parts[0]) + packed(tail));
            lemma_le_roundtrip(len, 4);
            assert(p == data.take(p.len() as int));
            assert forall|i: int| 0 <= i < p.len() implies data[i] == p[i] by {
                assert(data.take(p.len() as int)[i] == p[i]);
            }
            assert(data.take(4) =~= le_bytes(len, 4));
            assert(data.subrange(4, 4 + len as int) =~= parts[0]);
            let rest = data.skip(4 + len as int);
            assert(packed(tail) =~= rest.take(packed(tail).len() as int));
            assert forall|j: int| 0 <= j < n - 1 implies (#[trigger] tail[j]).len()
                < 0x1_0000_0000 by {
                assert(tail[j] == parts[j + 1]);
            }
            lemma_unpacked_exactly(rest, (n - 1) as nat, tail);
        }
    }
}

/// The tags of a row are its cells in the key columns, in the order of the key, and
/// its fields those in the field columns, from the first to the last.
pub proof fn law_tags_and_fields_are_cells(schema: TableSchema, cells: Seq<Seq<u8>>)
    ensures
        schema.tags_of(cells).len() == schema.primary_key@.len(),
        forall|j: int| #![trigger schema.tags_of(cells)[j]]
            0 <= j < schema.primary_key@.len() ==> schema.tags_of(cells)[j]
                == cells[schema.primary_key@[j] as int],
        schema.fields_of(cells).len() == schema.fields().len(),
        forall|j: int| #![trigger schema.fields_of(cells)[j]]
            0 <= j < schema.fields().len() ==> schema.fields_of(cells)[j]
                == cells[schema.fields()[j] as int],
{
}

/// The field columns are exactly those that are said to be fields, in order.
pub proof fn law_fields_are_field_columns(schema: TableSchema, c: int)
    requires
        0 <= c < schema.columns@.len() <= usize::MAX,
    ensures
        schema.fields().contains(c as usize) <==> schema.columns@[c].semantic is Field,
        forall|a: int, b: int| #![trigger schema.fields()[a], schema.fields()[b]]
            0 <= a < b < schema.fields().len() ==> schema.fields()[a] < schema.fields()[b],
        forall|a: int| #![trigger schema.fields()[a]]
            0 <= a < schema.fields().len() ==> schema.fields()[a] < schema.columns@.len(),
{
    lemma_fields_below(schema.columns@, schema.columns@.len());
    let f = fields_below(schema.columns@, schema.columns@.len());
    if f.contains(c as usize) {
        let a = choose|a: int| 0 <= a < f.len() && f[a] == c as usize;
        assert(f[a] < schema.columns@.len());
    }
}

proof fn lemma_placed_elsewhere(
    n: nat,
    at: Seq<usize>,
    parts: Seq<Seq<u8>>,
    count: nat,
    c: int,
)
    requires
        0 <= c < n,
        count <= at.len(),
        forall|j: int| 0 <= j < at.len() ==> (#[trigger] at[j]) < n,
        forall|j: int| 0 <= j < count ==> (#[trigger] at[j]) != c,
    ensures
        placed(n, at, parts, count).len() == n,
        placed(n, at, parts, count)[c] == Seq::<u8>::empty(),
    decreases count,
{
    if count > 0 {
        lemma_placed_elsewhere(n, at, parts, (count - 1) as nat, c);
        assert(at[count - 1] != c);
    }
}

/// The cells of a key: one for every column, the timestamp in eight bytes in the time
/// column, the tags in the columns of the key, and nothing in the others.
pub proof fn law_key_cells_hold_nothing_else(
    schema: TableSchema,
    tags: Seq<Seq<u8>>,
    ts: i64,
    c: int,
)
    requires
        schema.is_sound(),
        tags.len() == schema.primary_key@.len(),
        0 <= c < schema.columns@.len(),
    ensures
        schema.key_cells(tags, ts).len() == schema.columns@.len(),
        forall|j: int| #![trigger schema.primary_key@[j]]
            0 <= j < schema.primary_key@.len() ==> schema.key_cells(
                tags,
                ts,
            )[schema.primary_key@[j] as int] == tags[j],
        schema.key_cells(tags, ts)[schema.time_index as int] == le_bytes(ts_bits(ts), 8),
        c != schema.time_index && (forall|j: int|
            0 <= j < schema.primary_key@.len() ==> (#[trigger] schema.primary_key@[j]) != c)
            ==> schema.key_cells(tags, ts)[c] == Seq::<u8>::empty(),
{
    let n = schema.columns@.len();
    let at = schema.primary_key@;
    lemma_placed_len(n, at, tags, at.len());
    law_key_holds_tags(schema, tags, ts);
    assert forall|j: int| #![trigger at[j]] 0 <= j < at.len() implies schema.key_cells(
        tags,
        ts,
    )[at[j] as int] == tags[j] by {
        assert(schema.tags_of(schema.key_cells(tags, ts))[j] == tags[j]);
    }
    if c != schema.time_index && forall|j: int|
        0 <= j < at.len() ==> (#[trigger] at[j]) != c {
        lemma_placed_elsewhere(n, at, tags, at.len(), c);
    }
}

/// A query reads, in order, the columns of the key, the timestamp and those that it
/// asks for, and no others.
pub proof fn law_needed_columns(schema: TableSchema, cols: Seq<usize>, n: nat)
    requires
        n <= usize::MAX + 1,
    ensures
        forall|c: int| #![trigger schema.needed_below(cols, n).contains(c as usize)]
            0 <= c <= usize::MAX ==> (schema.needed_below(cols, n).contains(c as usize) <==> c < n
                && (schema.primary_key@.contains(c as usize) || c == schema.time_index
                || cols.contains(c as usize))),
        forall|x: int, y: int|
            #![trigger schema.needed_below(cols, n)[x], schema.needed_below(cols, n)[y]]
            0 <= x < y < schema.needed_below(cols, n).len() ==> schema.needed_below(cols, n)[x]
                < schema.needed_below(cols, n)[y],
        forall|x: int| #![trigger schema.needed_below(cols, n)[x]]
            0 <= x < schema.needed_below(cols, n).len() ==> schema.needed_below(cols, n)[x] < n,
    decreases n,
{
    if n > 0 {
        let m = (n - 1) as nat;
        law_needed_columns(schema, cols, m);
        let r = schema.needed_below(cols, n);
        let q = schema.needed_below(cols, m);
        let hit = schema.is_key_column(m as int) || m == schema.time_index || cols.contains(
            m as usize,
        );
        assert(r == if hit {
            q.push(m as usize)
        } else {
            q
        });
        assert(schema.is_key_column(m as int) <==> schema.primary_key@.contains(m as usize)) by {
            if schema.primary_key@.contains(m as usize) {
                let j = choose|j: int|
                    0 <= j < schema.primary_key@.len() && schema.primary_key@[j] == m as usize;
                assert(schema.primary_key@[j] == m);
            }
        }
        assert forall|c: int| #![trigger r.contains(c as usize)] 0 <= c <= usize::MAX implies (
        r.contains(c as usize) <==> c < n && (schema.primary_key@.contains(c as usize) || c
            == schema.time_index || cols.contains(c as usize))) by {
            assert(q.contains(c as usize) <==> c < m && (schema.primary_key@.contains(c as usize)
                || c == schema.time_index || cols.contains(c as usize)));
            if q.contains(c as usize) {
                let x = choose|x: int| 0 <= x < q.len() && q[x] == c as usize;
                assert(r[x] == c as usize);
            }
            if hit {
                assert(r[q.len() as int] == m as usize);
            }
            if r.contains(c as usize) {
                let x = choose|x: int| 0 <= x < r.len() && r[x] == c as usize;
                if x < q.len() {
                    assert(q[x] == c as usize);
                }
            }
        }
    }
}

/// A schema is sound exactly where its positions are those of columns, no column is
/// twice in the key, and every column plays one part and no other: it is a tag, or
/// the timestamp, or a field.
pub proof fn law_sound_schemas(schema: TableSchema)
    requires
        schema.columns@.len() <= usize::MAX,
    ensures
        schema.is_sound() <==> {
            let key = schema.primary_key@;
            &&& schema.time_index < schema.columns@.len()
            &&& forall|j: int| 0 <= j < key.len() ==> (#[trigger] key[j]) < schema.columns@.len()
            &&& key.no_duplicates()
            &&& forall|c: int| #![trigger schema.columns@[c]]
                0 <= c < schema.columns@.len() ==> {
                    let tag = key.contains(c as usize);
                    let time = c == schema.time_index;
                    let field = schema.columns@[c].semantic is Field;
                    (tag || time || field) && !(tag && time) && !(tag && field) && !(time && field)
                }
        },
        schema.in_range() <==> schema.time_index < schema.columns@.len() && forall|j: int|
            0 <= j < schema.primary_key@.len() ==> (#[trigger] schema.primary_key@[j])
                < schema.columns@.len(),
{
    let key = schema.primary_key@;
    assert forall|c: int| #![trigger schema.columns@[c]] 0 <= c
        < schema.columns@.len() implies schema.is_key_column(c) == key.contains(c as usize) by {
        if key.contains(c as usize) {
            let j = choose|j: int| 0 <= j < key.len() && key[j] == c as usize;
            assert(key[j] == c);
        }
        if schema.is_key_column(c) {
            let j = choose|j: int| 0 <= j < key.len() && (#[trigger] key[j]) == c;
            assert(key[j] == c as usize);
        }
    }
    if schema.is_sound() {
        assert forall|i: int, j: int| 0 <= i < key.len() && 0 <= j < key.len() && i
            != j implies key[i] != key[j] by {
            if i < j {
                assert(key[i] != key[j]);
            } else {
                assert(key[j] != key[i]);
            }
        }
    }
}

/// What a list of cells stands for: the bytes of each, in order.
pub proof fn law_cells_stand_for_themselves(cells: Seq<Vec<u8>>)
    ensures
        cells_view(cells).len() == cells.len(),
        forall|i: int| #![trigger cells_view(cells)[i]]
            0 <= i < cells.len() ==> cells_view(cells)[i] == cells[i]@,
{
}

/// A copy of a schema has the same columns, in order, and the same positions.
pub proof fn law_copies_are_the_same(a: TableSchema, b: TableSchema, c: int)
    requires
        same_schema(a, b),
        0 <= c < a.columns@.len(),
    ensures
        a.columns@.len() == b.columns@.len(),
        a.columns@[c].name@ == b.columns@[c].name@,
        a.columns@[c].data_type == b.columns@[c].data_type,
        a.columns@[c].semantic == b.columns@[c].semantic,
        a.primary_key@ == b.primary_key@,
        a.time_index == b.time_index,
{
}

} // verus!
