//! The bytes of single cells and the typed values that they stand for.

use vstd::prelude::*;
use vstd::arithmetic::power::pow;
use crate::little_endian::{
    bits_to_ts, bits_ts, law_lowest_byte_first, le_bytes, le_value, lemma_bits_roundtrip,
    lemma_byte_spans,
    lemma_le_roundtrip, lemma_le_roundtrip_bytes, lemma_le_value_bound, lemma_ts_roundtrip, push_le,
    read_le, ts_bits, ts_to_bits,
};
use crate::schema::DataType;
use crate::types::{copy_bytes, value_view};

verus! {

/// A typed value. Text is given by its bytes, a floating-point number by its
/// bits.
#[derive(Debug)]
pub enum Datum {
    Bytes(Vec<u8>),
    Int(i64),
    Float(u64),
    Bool(bool),
}

/// What a [`Datum`] stands for.
pub enum DatumView {
    Bytes(Seq<u8>),
    Int(i64),
    Float(u64),
    Bool(bool),
}

impl View for Datum {
    type V = DatumView;

    open spec fn view(&self) -> DatumView {
        match *self {
            Datum::Bytes(b) => DatumView::Bytes(b@),
            Datum::Int(x) => DatumView::Int(x),
            Datum::Float(x) => DatumView::Float(x),
            Datum::Bool(x) => DatumView::Bool(x),
        }
    }
}

/// The value is one of the column type.
pub open spec fn has_type(d: DatumView, dt: DataType) -> bool {
    match dt {
        DataType::Binary => d is Bytes,
        DataType::Utf8 => d is Bytes,
        DataType::Int64 => d is Int,
        DataType::Timestamp => d is Int,
        DataType::Float64 => d is Float,
        DataType::Boolean => d is Bool,
        DataType::Int8 => false,
    }
}

/// The bytes of a cell that holds the value.
pub open spec fn datum_cell(d: DatumView) -> Seq<u8> {
    match d {
        DatumView::Bytes(b) => b,
        DatumView::Int(x) => le_bytes(ts_bits(x), 8),
        DatumView::Float(x) => le_bytes(x as nat, 8),
        DatumView::Bool(x) => seq![
            if x {
                1u8
            } else {
                0u8
            },
        ],
    }
}

/// The bytes can be read as a value of the column type.
pub open spec fn is_cell_of(b: Seq<u8>, dt: DataType) -> bool {
    match dt {
        DataType::Binary => true,
        DataType::Utf8 => true,
        DataType::Int64 => b.len() == 8,
        DataType::Timestamp => b.len() == 8,
        DataType::Float64 => b.len() == 8,
        DataType::Boolean => b.len() > 0,
        DataType::Int8 => false,
    }
}

/// The value that the bytes stand for in a column of the type.
pub open spec fn cell_datum(b: Seq<u8>, dt: DataType) -> DatumView {
    match dt {
        DataType::Int64 => DatumView::Int(bits_ts(le_value(b))),
        DataType::Timestamp => DatumView::Int(bits_ts(le_value(b))),
        DataType::Float64 => DatumView::Float(le_value(b) as u64),
        DataType::Boolean => DatumView::Bool(b[0] != 0),
        _ => DatumView::Bytes(b),
    }
}

fn encode_cell(d: &Datum) -> (r: Vec<u8>)
    ensures
        r@ == datum_cell(d@),
{
    let mut out: Vec<u8> = Vec::new();
    match d {
        Datum::Bytes(b) => {
            return copy_bytes(b);
        },
        Datum::Int(x) => {
            push_le(&mut out, ts_to_bits(*x), 8);
        },
        Datum::Float(x) => {
            push_le(&mut out, *x, 8);
        },
        Datum::Bool(x) => {
            if *x {
                out.push(1);
            } else {
                out.push(0);
            }
        },
    }
    assert(out@ =~= datum_cell(d@));
    out
}

fn decode_cell(dt: DataType, b: &Vec<u8>) -> (r: Datum)
    requires
        is_cell_of(b@, dt),
    ensures
        r@ == cell_datum(b@, dt),
{
    assert(b@.len() == 8 ==> b@.subrange(0, 8) =~= b@);
    match dt {
        DataType::Int64 => Datum::Int(bits_to_ts(read_le(b.as_slice(), 0, 8))),
        DataType::Timestamp => Datum::Int(bits_to_ts(read_le(b.as_slice(), 0, 8))),
        DataType::Float64 => Datum::Float(read_le(b.as_slice(), 0, 8)),
        DataType::Boolean => Datum::Bool(b[0] != 0),
        DataType::Binary => Datum::Bytes(copy_bytes(b)),
        DataType::Utf8 => Datum::Bytes(copy_bytes(b)),
        DataType::Int8 => Datum::Bytes(copy_bytes(b)),
    }
}

/// The cells of a column of values; a null stays null.
pub fn parse_column_cells(dt: DataType, column: &[Option<Datum>]) -> (r: Vec<Option<Vec<u8>>>)
    requires
        forall|i: int| #![trigger column@[i]]
            0 <= i < column@.len() ==> (column@[i] matches Some(d) ==> has_type(d@, dt)),
    ensures
        r@.len() == column@.len(),
        forall|i: int| #![trigger r@[i]]
            0 <= i < r@.len() ==> value_view(r@[i]) == match column@[i] {
                None => None,
                Some(d) => Some(datum_cell(d@)),
            },
{
    let mut out: Vec<Option<Vec<u8>>> = Vec::new();
    let mut i: usize = 0;
    while i < column.len()
        invariant
            i <= column@.len(),
            out@.len() == i,
            forall|j: int| #![trigger out@[j]]
                0 <= j < i ==> value_view(out@[j]) == match column@[j] {
                    None => None,
                    Some(d) => Some(datum_cell(d@)),
                },
        decreases column@.len() - i,
    {
        match &column[i] {
            None => {
                out.push(None);
            },
            Some(d) => {
                out.push(Some(encode_cell(d)));
            },
        }
        i += 1;
    }
    out
}

/// The column of values that cells stand for; a null stays null.
pub fn cells_to_array(dt: DataType, rows: &[Option<Vec<u8>>]) -> (r: Vec<Option<Datum>>)
    requires
        forall|i: int| #![trigger rows@[i]]
            0 <= i < rows@.len() ==> (rows@[i] matches Some(b) ==> is_cell_of(b@, dt)),
    ensures
        r@.len() == rows@.len(),
        forall|i: int| #![trigger r@[i]]
            0 <= i < r@.len() ==> match (r@[i], rows@[i]) {
                (None, None) => true,
                (Some(d), Some(b)) => d@ == cell_datum(b@, dt),
                _ => false,
            },
{
    let mut out: Vec<Option<Datum>> = Vec::new();
    let mut i: usize = 0;
    while i < rows.len()
        invariant
            i <= rows@.len(),
            out@.len() == i,
            forall|j: int| #![trigger rows@[j]]
                0 <= j < rows@.len() ==> (rows@[j] matches Some(b) ==> is_cell_of(b@, dt)),
            forall|j: int| #![trigger out@[j]]
                0 <= j < i ==> match (out@[j], rows@[j]) {
                    (None, None) => true,
                    (Some(d), Some(b)) => d@ == cell_datum(b@, dt),
                    _ => false,
                },
        decreases rows@.len() - i,
    {
        match &rows[i] {
            None => {
                out.push(None);
            },
            Some(b) => {
                assert(is_cell_of(rows@[i as int]->0@, dt));
                out.push(Some(decode_cell(dt, b)));
            },
        }
        i += 1;
    }
    out
}

/// Whether the bytes can be read as a value of the column type.
pub fn check_cell(dt: DataType, b: &Vec<u8>) -> (r: bool)
    ensures
        r == is_cell_of(b@, dt),
{
    match dt {
        DataType::Binary => true,
        DataType::Utf8 => true,
        DataType::Int64 => b.len() == 8,
        DataType::Timestamp => b.len() == 8,
        DataType::Float64 => b.len() == 8,
        DataType::Boolean => b.len() > 0,
        DataType::Int8 => false,
    }
}

/// A value survives the way through its cell.
pub proof fn law_datum_roundtrip(d: DatumView, dt: DataType)
    requires
        has_type(d, dt),
    ensures
        is_cell_of(datum_cell(d), dt),
        cell_datum(datum_cell(d), dt) == d,
{
    lemma_byte_spans();
    match d {
        DatumView::Int(x) => {
            lemma_ts_roundtrip(x);
            lemma_le_roundtrip(ts_bits(x), 8);
        },
        DatumView::Float(x) => {
            lemma_le_roundtrip(x as nat, 8);
        },
        _ => {},
    }
}

/// A cell survives the way through its value; a boolean cell that is neither
/// zero nor one comes back as one.
pub proof fn law_cell_roundtrip(b: Seq<u8>, dt: DataType)
    requires
        is_cell_of(b, dt),
        dt == DataType::Boolean ==> b == seq![0u8] || b == seq![1u8],
    ensures
        datum_cell(cell_datum(b, dt)) == b,
{
    lemma_byte_spans();
    lemma_le_value_bound(b);
    lemma_le_roundtrip_bytes(b);
    if b.len() == 8 {
        lemma_bits_roundtrip(le_value(b));
    }
}

/// What the bytes of a cell are: those of a text or byte string are its own, a whole
/// number has eight, the lowest first and negative ones in two's complement, and so
/// have the bits of a floating-point number; a boolean has one, 1 or 0.
pub proof fn law_cells_are_little_endian(
    b: Seq<u8>,
    x: i64,
    bits: u64,
    truth: bool,
    i: int,
)
    requires
        0 <= i < 8,
    ensures
        datum_cell(DatumView::Bytes(b)) == b,
        datum_cell(DatumView::Int(x)).len() == 8,
        datum_cell(DatumView::Int(x))[i] as int == ((if x < 0 {
            x + 0x1_0000_0000_0000_0000
        } else {
            x as int
        }) / pow(256, i as nat)) % 256,
        datum_cell(DatumView::Float(bits)).len() == 8,
        datum_cell(DatumView::Float(bits))[i] as int == (bits as int / pow(256, i as nat)) % 256,
        datum_cell(DatumView::Bool(truth)).len() == 1,
        datum_cell(DatumView::Bool(truth))[0] == if truth {
            1u8
        } else {
            0u8
        },
{
    law_lowest_byte_first(ts_bits(x), 8, i);
    law_lowest_byte_first(bits as nat, 8, i);
}

/// Which bytes are a cell of a column, and what they stand for there. A boolean cell
/// that is not zero is true.
pub proof fn law_cells_are_read_by_type(b: Seq<u8>, dt: DataType)
    ensures
        dt is Binary || dt is Utf8 ==> is_cell_of(b, dt) && cell_datum(b, dt) == DatumView::Bytes(
            b,
        ),
        dt is Int64 || dt is Timestamp || dt is Float64 ==> (is_cell_of(b, dt) <==> b.len() == 8),
        dt is Boolean ==> (is_cell_of(b, dt) <==> b.len() > 0) && cell_datum(b, dt)
            == DatumView::Bool(b[0] != 0),
        dt is Int8 ==> !is_cell_of(b, dt),
        (dt is Int64 || dt is Timestamp) && b.len() == 8 ==> (cell_datum(
            b,
            dt,
        ) matches DatumView::Int(x) && datum_cell(DatumView::Int(x)) == b),
        dt is Float64 && b.len() == 8 ==> (cell_datum(b, dt) matches DatumView::Float(x)
            && datum_cell(DatumView::Float(x)) == b),
{
    if (dt is Int64 || dt is Timestamp || dt is Float64) && b.len() == 8 {
        law_cell_roundtrip(b, dt);
    }
}

/// Which values a column can hold.
pub proof fn law_columns_hold_their_type(d: DatumView, dt: DataType)
    ensures
        has_type(d, dt) <==> match d {
            DatumView::Bytes(_) => dt is Binary || dt is Utf8,
            DatumView::Int(_) => dt is Int64 || dt is Timestamp,
            DatumView::Float(_) => dt is Float64,
            DatumView::Bool(_) => dt is Boolean,
        },
{
}

/// What a value stands for: itself, with its bytes.
pub proof fn law_values_stand_for_themselves(b: Vec<u8>, x: i64, bits: u64, truth: bool)
    ensures
        Datum::Bytes(b)@ == DatumView::Bytes(b@),
        Datum::Int(x)@ == DatumView::Int(x),
        Datum::Float(bits)@ == DatumView::Float(bits),
        Datum::Bool(truth)@ == DatumView::Bool(truth),
{
}

} // verus!
