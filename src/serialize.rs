//! Writing a column as `<index><values><index length: u32>` and opening it
//! back by its trailing length.
use vstd::prelude::*;
use vstd::slice::slice_subrange;
use crate::codec::{
    BLOCKWISE_LINEAR_TAG,
    chosen_codec, open_u64_based_column_values, parse_values, serialize_u64_based_column_values,
    values_bytes, lemma_values_round_trip,
};
use crate::column::Column;
use crate::error::ColumnarError;
use crate::index::{
    kind_of_tag, open_column_index, parse_index, model_num_vals, lemma_index_round_trip, Cardinality,
    ColumnIndex,
};
use crate::mapping::{
    all_in_image, map_from_u64, map_to_u128, map_to_u64, to_u128_seq, to_u64_seq, MonotonicallyMappableToU128,
    MonotonicallyMappableToU64,
};
use crate::le::{le_bytes, le_value, lemma_le_round_trip, lemma_pow256_values, read_u32, write_u32};
use crate::wide::{open_u128_values, parse_u128_values, serialize_column_values_u128, u128_values_bytes, lemma_u128_round_trip};

verus! {

/// `head`, then `tail`, then the length of `head` in four bytes: the
/// trailing length lets a reader find where `head` ends.
pub open spec fn framed(head: Seq<u8>, tail: Seq<u8>) -> Seq<u8> {
    head + tail + le_bytes(head.len(), 4)
}

/// Splits a framed blob into its head and its tail.
pub open spec fn unframe(b: Seq<u8>) -> Option<(Seq<u8>, Seq<u8>)> {
    if b.len() < 4 {
        None
    } else {
        let body = (b.len() - 4) as int;
        let l = le_value(b.subrange(body, b.len() as int));
        if l > body {
            None
        } else {
            Some((b.subrange(0, l as int), b.subrange(l as int, body)))
        }
    }
}

/// The trailing four bytes of a framed blob spell the length of its head,
/// and the blob is exactly head, tail and those four bytes.
pub proof fn lemma_footer(head: Seq<u8>, tail: Seq<u8>)
    requires
        head.len() <= u32::MAX,
    ensures
        framed(head, tail).len() == head.len() + tail.len() + 4,
        le_value(framed(head, tail).subrange(head.len() + tail.len() as int, head.len() + tail.len() + 4 as int))
            == head.len(),
        unframe(framed(head, tail)) == Some((head, tail)),
{
    let b = framed(head, tail);
    lemma_pow256_values();
    lemma_le_round_trip(head.len(), 4);
    let body = head.len() + tail.len() as int;
    assert(b.subrange(body, body + 4) =~= le_bytes(head.len(), 4));
    assert(b.subrange(0, head.len() as int) =~= head);
    assert(b.subrange(head.len() as int, body) =~= tail);
}

/// Appends the trailing length of a framed blob.
pub fn write_footer(out: &mut Vec<u8>, head_len: usize)
    requires
        head_len <= u32::MAX,
    ensures
        final(out)@ == old(out)@ + le_bytes(head_len as nat, 4),
{
    write_u32(out, head_len as u32);
}

/// Finds where the head of a framed blob ends.
pub fn split_framed(data: &[u8]) -> (r: Result<usize, ColumnarError>)
    ensures
        data@.len() < 4 ==> r == Err::<usize, ColumnarError>(ColumnarError::Truncated),
        match unframe(data@) {
            None => r is Err,
            Some((head, tail)) => r == Ok::<usize, ColumnarError>(head.len() as usize)
                && head.len() + tail.len() + 4 == data@.len(),
        },
        data@.len() >= 4 && unframe(data@) is None ==> r == Err::<usize, ColumnarError>(
            ColumnarError::LengthOutOfBounds,
        ),
{
    let len = data.len();
    if len < 4 {
        return Err(ColumnarError::Truncated);
    }
    let l = read_u32(data, len - 4);
    if l as u64 > (len - 4) as u64 {
        return Err(ColumnarError::LengthOutOfBounds);
    }
    Ok(l as usize)
}

/// The blob written for a `u64` column.
pub open spec fn column_bytes_u64(idx: ColumnIndex, vals: Seq<u64>) -> Seq<u8> {
    framed(idx.spec_bytes(), values_bytes(vals))
}

/// The blob written for a `u128` column.
pub open spec fn column_bytes_u128(idx: ColumnIndex, vals: Seq<u128>) -> Seq<u8> {
    framed(idx.spec_bytes(), u128_values_bytes(vals))
}

/// What a `u64` column blob holds: the index's shape, document count and
/// offsets, and the values; `None` where it is malformed or its index
/// hands out an ordinal past the values.
pub open spec fn parse_column_u64(b: Seq<u8>) -> Option<(Cardinality, nat, Seq<u32>, Seq<u64>)> {
    match unframe(b) {
        None => None,
        Some((head, tail)) => match (parse_index(head), parse_values(tail)) {
            (Some((k, n, o)), Some(v)) => if model_num_vals(k, n, o) <= v.len() {
                Some((k, n, o, v))
            } else {
                None
            },
            _ => None,
        },
    }
}

/// What a `u128` column blob holds; `None` where it is malformed or its
/// index hands out an ordinal past the values.
pub open spec fn parse_column_u128(b: Seq<u8>) -> Option<(Cardinality, nat, Seq<u32>, Seq<u128>)> {
    match unframe(b) {
        None => None,
        Some((head, tail)) => match (parse_index(head), parse_u128_values(tail)) {
            (Some((k, n, o)), Some(v)) => if model_num_vals(k, n, o) <= v.len() {
                Some((k, n, o, v))
            } else {
                None
            },
            _ => None,
        },
    }
}

/// The error that the framing of `b` decides, if any.
pub open spec fn frame_error(b: Seq<u8>) -> Option<ColumnarError> {
    if b.len() < 4 {
        Some(ColumnarError::Truncated)
    } else if unframe(b) is None {
        Some(ColumnarError::LengthOutOfBounds)
    } else {
        None
    }
}

/// The error that an index segment's shape tag decides, if any.
pub open spec fn index_tag_error(head: Seq<u8>) -> Option<ColumnarError> {
    if head.len() >= 5 && kind_of_tag(head[0]) is None {
        Some(ColumnarError::UnknownIndexKind(head[0]))
    } else {
        None
    }
}

/// The error that the framing, the index's shape tag or the codec tag of
/// a `u64` column blob decides, if any, in the order they are read.
pub open spec fn column_u64_error(b: Seq<u8>) -> Option<ColumnarError> {
    match unframe(b) {
        None => frame_error(b),
        Some((head, tail)) => if index_tag_error(head) is Some {
            index_tag_error(head)
        } else if parse_index(head) is Some && tail.len() >= 5 && tail[0] > BLOCKWISE_LINEAR_TAG {
            Some(ColumnarError::UnknownCodec(tail[0]))
        } else {
            None
        },
    }
}

/// The error that the framing or the index's shape tag of a `u128` column
/// blob decides, if any.
pub open spec fn column_u128_error(b: Seq<u8>) -> Option<ColumnarError> {
    match unframe(b) {
        None => frame_error(b),
        Some((head, _)) => index_tag_error(head),
    }
}

/// An index whose segment length fits the four-byte footer.
pub open spec fn frameable(idx: ColumnIndex) -> bool {
    idx.spec_bytes().len() <= u32::MAX
}

/// Writes a column of values mapped onto `u64`: its index, its values under
/// the codec that encodes them in fewer bytes, and the length of the index.
pub fn serialize_column_mappable_to_u64<T: MonotonicallyMappableToU64>(
    column_index: &ColumnIndex,
    column_values: &[T],
    output: &mut Vec<u8>,
)
    requires
        column_values@.len() <= u32::MAX,
        frameable(*column_index),
    ensures
        final(output)@ == old(output)@ + column_bytes_u64(*column_index, to_u64_seq(column_values@)),
{
    let ghost head = old(output)@;
    let mapped = map_to_u64(column_values);
    let num_bytes = column_index.serialize(output);
    serialize_u64_based_column_values(mapped.as_slice(), output);
    write_footer(output, num_bytes);
    assert(final(output)@ =~= head + column_bytes_u64(*column_index, to_u64_seq(column_values@)));
}

/// Writes a column of values mapped onto `u128`: its index, its `num_vals`
/// values in sixteen bytes each, and the length of the index.
pub fn serialize_column_mappable_to_u128<T: MonotonicallyMappableToU128>(
    column_index: &ColumnIndex,
    column_values: &[T],
    num_vals: u32,
    output: &mut Vec<u8>,
)
    requires
        column_values@.len() == num_vals,
        frameable(*column_index),
    ensures
        final(output)@ == old(output)@ + column_bytes_u128(*column_index, to_u128_seq(column_values@)),
{
    let ghost head = old(output)@;
    let mapped = map_to_u128(column_values);
    let num_bytes = column_index.serialize(output);
    serialize_column_values_u128(mapped.as_slice(), output);
    write_footer(output, num_bytes);
    assert(final(output)@ =~= head + column_bytes_u128(*column_index, to_u128_seq(column_values@)));
}

/// Opens a `u64` column blob.
#[verifier::spinoff_prover]
#[verifier::rlimit(30)]
pub fn open_column_u64(bytes: &[u8]) -> (r: Result<Column<u64>, ColumnarError>)
    ensures
        column_u64_error(bytes@) matches Some(e) ==> r == Err::<Column<u64>, ColumnarError>(e),
        match parse_column_u64(bytes@) {
            None => r is Err,
            Some((k, n, o, v)) => r matches Ok(c) && c.wf() && c.idx.kind == k && c.idx.num_docs == n
                && c.idx.offsets@ == o && c.values@ == v,
        },
{
    let l = split_framed(bytes)?;
    let len = bytes.len();
    let head = slice_subrange(bytes, 0, l);
    let tail = slice_subrange(bytes, l, len - 4);
    let idx = open_column_index(head)?;
    let values = open_u64_based_column_values(tail)?;
    if idx.num_vals() as usize > values.len() {
        return Err(ColumnarError::Malformed);
    }
    Ok(Column { idx, values })
}

/// Opens a `u128` column blob.
#[verifier::spinoff_prover]
#[verifier::rlimit(30)]
pub fn open_column_u128(bytes: &[u8]) -> (r: Result<Column<u128>, ColumnarError>)
    ensures
        column_u128_error(bytes@) matches Some(e) ==> r == Err::<Column<u128>, ColumnarError>(e),
        match parse_column_u128(bytes@) {
            None => r is Err,
            Some((k, n, o, v)) => r matches Ok(c) && c.wf() && c.idx.kind == k && c.idx.num_docs == n
                && c.idx.offsets@ == o && c.values@ == v,
        },
{
    let l = split_framed(bytes)?;
    let len = bytes.len();
    let head = slice_subrange(bytes, 0, l);
    let tail = slice_subrange(bytes, l, len - 4);
    let idx = open_column_index(head)?;
    let values = open_u128_values(tail)?;
    if idx.num_vals() as usize > values.len() {
        return Err(ColumnarError::Malformed);
    }
    Ok(Column { idx, values })
}

/// Opens a `u64` column blob and maps its values back to `T`. A number
/// that no value of `T` maps to fails the open.
#[verifier::spinoff_prover]
#[verifier::rlimit(30)]
pub fn open_column_mapped_u64<T: MonotonicallyMappableToU64>(bytes: &[u8]) -> (r: Result<
    Column<T>,
    ColumnarError,
>)
    ensures
        column_u64_error(bytes@) matches Some(e) ==> r == Err::<Column<T>, ColumnarError>(e),
        match parse_column_u64(bytes@) {
            None => r is Err,
            Some((k, n, o, v)) => if all_in_image::<T>(v) {
                r matches Ok(c) && c.wf() && c.idx.kind == k && c.idx.num_docs == n
                    && c.idx.offsets@ == o && to_u64_seq(c.values@) == v
            } else {
                r == Err::<Column<T>, ColumnarError>(ColumnarError::Malformed)
            },
        },
{
    let c = open_column_u64(bytes)?;
    match map_from_u64::<T>(&c.values) {
        None => Err(ColumnarError::Malformed),
        Some(values) => Ok(Column { idx: c.idx, values }),
    }
}

/// Opening the blob written for a well-formed `u64` column, whose index
/// hands out no ordinal past its values, gives back its index, unchanged
/// in shape, and its values.
pub proof fn lemma_column_u64_round_trip(idx: ColumnIndex, vals: Seq<u64>)
    requires
        idx.wf(),
        frameable(idx),
        idx.spec_num_vals() <= vals.len(),
        vals.len() <= u32::MAX,
    ensures
        parse_column_u64(column_bytes_u64(idx, vals)) == Some(
            (idx.kind, idx.num_docs as nat, idx.offsets@, vals),
        ),
{
    lemma_footer(idx.spec_bytes(), values_bytes(vals));
    lemma_index_round_trip(idx.kind, idx.num_docs, idx.offsets@);
    lemma_values_round_trip(vals);
}

/// Opening the blob written for a well-formed `u128` column, whose index
/// hands out no ordinal past its values, gives back its index, unchanged
/// in shape, and its values.
pub proof fn lemma_column_u128_round_trip(idx: ColumnIndex, vals: Seq<u128>)
    requires
        idx.wf(),
        frameable(idx),
        idx.spec_num_vals() <= vals.len(),
        vals.len() <= u32::MAX,
    ensures
        parse_column_u128(column_bytes_u128(idx, vals)) == Some(
            (idx.kind, idx.num_docs as nat, idx.offsets@, vals),
        ),
{
    lemma_footer(idx.spec_bytes(), u128_values_bytes(vals));
    lemma_index_round_trip(idx.kind, idx.num_docs, idx.offsets@);
    lemma_u128_round_trip(vals);
}

/// The trailing four bytes of a `u64` column blob spell the exact length
/// of its index segment, and the blob holds nothing beyond index, values
/// and those four bytes.
pub proof fn lemma_column_u64_footer(idx: ColumnIndex, vals: Seq<u64>)
    requires
        frameable(idx),
    ensures
        ({
            let b = column_bytes_u64(idx, vals);
            &&& b.len() == idx.spec_bytes().len() + values_bytes(vals).len() + 4
            &&& le_value(b.subrange(b.len() - 4, b.len() as int)) == idx.spec_bytes().len()
        }),
{
    lemma_footer(idx.spec_bytes(), values_bytes(vals));
}

/// Writing the same values twice chooses the same codec and gives the same
/// bytes.
pub proof fn lemma_serialize_deterministic(idx: ColumnIndex, a: Seq<u64>, b: Seq<u64>)
    requires
        a == b,
    ensures
        chosen_codec(a) == chosen_codec(b),
        column_bytes_u64(idx, a) == column_bytes_u64(idx, b),
{
}

} // verus!
