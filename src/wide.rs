//! The `u128` direct encoder: every value in sixteen little-endian bytes,
//! with no choice of codec.
//!
//! Layout: `<count: u32><value: u128 * count>`.
use vstd::prelude::*;
use crate::error::ColumnarError;
use crate::le::{
    le_bytes, le_value, lemma_le_bytes_len, lemma_le_round_trip, lemma_le_value_bound,
    lemma_pow256_values, read_le, read_u32, write_le, write_u32,
};

verus! {

/// The values, sixteen bytes each.
pub open spec fn words(vals: Seq<u128>) -> Seq<u8>
    decreases vals.len(),
{
    if vals.len() == 0 {
        Seq::empty()
    } else {
        words(vals.drop_last()) + le_bytes(vals.last() as nat, 16)
    }
}

/// The values segment written for `vals`.
pub open spec fn u128_values_bytes(vals: Seq<u128>) -> Seq<u8> {
    le_bytes(vals.len(), 4) + words(vals)
}

/// Reads a `u128` values segment that fills `b` exactly.
pub open spec fn parse_u128_values(b: Seq<u8>) -> Option<Seq<u128>> {
    if b.len() < 4 {
        None
    } else {
        let n = le_value(b.subrange(0, 4));
        if b.len() != 4 + 16 * n {
            None
        } else {
            Some(Seq::new(n, |i: int| le_value(b.subrange(4 + 16 * i, 4 + 16 * i + 16)) as u128))
        }
    }
}

proof fn lemma_words(vals: Seq<u128>, i: int)
    requires
        0 <= i < vals.len(),
    ensures
        words(vals).len() == 16 * vals.len(),
        words(vals).subrange(16 * i, 16 * i + 16) == le_bytes(vals[i] as nat, 16),
    decreases vals.len(),
{
    lemma_words_len(vals);
    lemma_words_len(vals.drop_last());
    lemma_le_bytes_len(vals.last() as nat, 16);
    if i < vals.len() - 1 {
        lemma_words(vals.drop_last(), i);
        assert(words(vals).subrange(16 * i, 16 * i + 16) =~= words(vals.drop_last()).subrange(
            16 * i,
            16 * i + 16,
        ));
    } else {
        assert(words(vals).subrange(16 * i, 16 * i + 16) =~= le_bytes(vals.last() as nat, 16));
    }
}

proof fn lemma_words_len(vals: Seq<u128>)
    ensures
        words(vals).len() == 16 * vals.len(),
    decreases vals.len(),
{
    if vals.len() > 0 {
        lemma_words_len(vals.drop_last());
        lemma_le_bytes_len(vals.last() as nat, 16);
    }
}

/// Opening what was written for `vals` gives `vals` back.
pub proof fn lemma_u128_round_trip(vals: Seq<u128>)
    requires
        vals.len() <= u32::MAX,
    ensures
        parse_u128_values(u128_values_bytes(vals)) == Some(vals),
{
    let b = u128_values_bytes(vals);
    lemma_pow256_values();
    lemma_le_round_trip(vals.len(), 4);
    lemma_words_len(vals);
    assert(b.subrange(0, 4) =~= le_bytes(vals.len(), 4));
    let parsed = Seq::new(vals.len(), |i: int| le_value(b.subrange(4 + 16 * i, 4 + 16 * i + 16)) as u128);
    assert forall|i: int| 0 <= i < vals.len() implies parsed[i] == vals[i] by {
        lemma_words(vals, i);
        assert(b.subrange(4 + 16 * i, 4 + 16 * i + 16) =~= words(vals).subrange(16 * i, 16 * i + 16));
        lemma_le_round_trip(vals[i] as nat, 16);
    }
    assert(parsed =~= vals);
}

/// Appends the `u128` values segment of `vals`.
pub fn serialize_column_values_u128(vals: &[u128], out: &mut Vec<u8>)
    requires
        vals@.len() <= u32::MAX,
    ensures
        final(out)@ == old(out)@ + u128_values_bytes(vals@),
{
    let n = vals.len();
    write_u32(out, n as u32);
    let ghost head = out@;
    let mut i: usize = 0;
    while i < n
        invariant
            i <= n == vals@.len(),
            out@ == head + words(vals@.take(i as int)),
        decreases n - i,
    {
        write_le(out, vals[i], 16);
        assert(vals@.take(i + 1).drop_last() =~= vals@.take(i as int));
        i = i + 1;
    }
    assert(vals@.take(n as int) =~= vals@);
    assert(final(out)@ =~= old(out)@ + u128_values_bytes(vals@));
}

/// Opens a `u128` values segment that fills `data` exactly.
pub fn open_u128_values(data: &[u8]) -> (r: Result<Vec<u128>, ColumnarError>)
    ensures
        match parse_u128_values(data@) {
            None => r is Err,
            Some(v) => r matches Ok(got) && got@ == v,
        },
{
    let len = data.len();
    if len < 4 {
        return Err(ColumnarError::Truncated);
    }
    let n = read_u32(data, 0) as usize;
    if (len as u64) - 4 != 16 * (n as u64) {
        return Err(ColumnarError::Malformed);
    }
    let ghost parsed = Seq::new(n as nat, |i: int| le_value(data@.subrange(4 + 16 * i, 4 + 16 * i + 16)) as u128);
    let mut out: Vec<u128> = Vec::new();
    let mut i: usize = 0;
    while i < n
        invariant
            i <= n,
            len == data@.len() == 4 + 16 * n,
            parsed == Seq::new(n as nat, |i: int| le_value(data@.subrange(4 + 16 * i, 4 + 16 * i + 16)) as u128),
            out@ == parsed.take(i as int),
        decreases n - i,
    {
        let v = read_le(data, 4 + 16 * i, 16);
        proof {
            lemma_pow256_values();
            lemma_le_value_bound(data@.subrange(4 + 16 * i, 4 + 16 * i + 16));
        }
        out.push(v);
        assert(parsed.take(i + 1) =~= parsed.take(i as int).push(parsed[i as int]));
        i = i + 1;
    }
    assert(parsed.take(n as int) =~= parsed);
    Ok(out)
}

} // verus!
