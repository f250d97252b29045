//! The numeric codec layer: sequences of `u64` encoded either as one
//! bitpacked block over the minimum, or as blocks of fixed length each
//! stored as residuals to a fitted line; the shorter encoding is chosen.
//!
//! Layout: `<codec: u8><count: u32><payload>`.
use vstd::prelude::*;
use crate::error::ColumnarError;
use crate::le::{le_bytes, le_value, lemma_le_round_trip, lemma_pow256_values, read_u32, write_u32};
use crate::line::{
    block_bytes, block_len, block_width, lemma_block_round_trip, parse_block, read_block, wrap,
    write_block, sub_wrap,
};

verus! {

/// Values per block of the blockwise linear codec.
pub const BLOCK_LEN: usize = 128;

/// Tag of the bitpacked codec on disk.
pub const BITPACKED_TAG: u8 = 0;

/// Tag of the blockwise linear codec on disk.
pub const BLOCKWISE_LINEAR_TAG: u8 = 1;

/// The codecs of the `u64` domain, in order of preference on a tie.
#[derive(Debug, Clone, Copy, PartialEq, Eq, Structural)]
pub enum CodecType {
    Bitpacked,
    BlockwiseLinear,
}

impl CodecType {
    pub open spec fn spec_tag(self) -> u8 {
        match self {
            CodecType::Bitpacked => BITPACKED_TAG,
            CodecType::BlockwiseLinear => BLOCKWISE_LINEAR_TAG,
        }
    }

    /// The byte that names this codec on disk.
    pub fn tag(self) -> (r: u8)
        ensures
            r == self.spec_tag(),
    {
        match self {
            CodecType::Bitpacked => BITPACKED_TAG,
            CodecType::BlockwiseLinear => BLOCKWISE_LINEAR_TAG,
        }
    }
}

pub open spec fn half() -> int {
    0x8000_0000_0000_0000
}

proof fn lemma_linear_blocks_empty(vals: Seq<u64>)
    requires
        vals.len() == 0,
    ensures
        linear_blocks(vals) == Seq::<u8>::empty(),
        parse_linear_blocks(Seq::<u8>::empty(), 0) == Some(Seq::<u64>::empty()),
{
    reveal(linear_blocks);
    reveal(parse_linear_blocks);
}

proof fn lemma_parse_linear_blocks_unfold(b: Seq<u8>, n: nat)
    requires
        n > 0,
    ensures
        parse_linear_blocks(b, n) == ({
            let k = if n < BLOCK_LEN { n } else { BLOCK_LEN as nat };
            match parse_block(b, k) {
                None => None,
                Some((v, c)) => prepend(v, parse_linear_blocks(b.skip(c as int), (n - k) as nat)),
            }
        }),
{
    reveal(parse_linear_blocks);
}

/// The slope of the line through the first and the last of `n` values.
pub open spec fn fit_slope(first: u64, last: u64, n: nat) -> u64 {
    if n <= 1 {
        0
    } else if last >= first {
        ((last - first) / (n - 1)) as u64
    } else {
        wrap(-((first - last) / (n - 1)))
    }
}

/// The anchor of a block's line: residuals are offset by half the range so
/// that values a little under the line stay small.
pub open spec fn anchor_of(first: u64) -> u64 {
    wrap(first - half())
}

/// One block of the blockwise linear codec.
pub open spec fn linear_block(v: Seq<u64>) -> Seq<u8> {
    block_bytes(v, anchor_of(v[0]), fit_slope(v[0], v.last(), v.len()))
}

/// The blocks of the blockwise linear codec, `BLOCK_LEN` values each but
/// the last.
#[verifier::opaque]
pub open spec fn linear_blocks(vals: Seq<u64>) -> Seq<u8>
    decreases vals.len(),
{
    if vals.len() == 0 {
        Seq::empty()
    } else if vals.len() <= BLOCK_LEN {
        linear_block(vals)
    } else {
        linear_block(vals.take(BLOCK_LEN as int)) + linear_blocks(vals.skip(BLOCK_LEN as int))
    }
}

/// The payload of the bitpacked codec: one block over the minimum, slope zero.
pub open spec fn bitpacked_block(vals: Seq<u64>) -> Seq<u8> {
    block_bytes(vals, 0, 0)
}

/// The codec that encodes `vals` in fewer bytes; bitpacked on a tie.
pub open spec fn chosen_codec(vals: Seq<u64>) -> CodecType {
    if linear_blocks(vals).len() < bitpacked_block(vals).len() {
        CodecType::BlockwiseLinear
    } else {
        CodecType::Bitpacked
    }
}

/// The values segment written for `vals`.
pub open spec fn values_bytes(vals: Seq<u64>) -> Seq<u8> {
    let c = chosen_codec(vals);
    seq![c.spec_tag()] + le_bytes(vals.len(), 4) + match c {
        CodecType::Bitpacked => bitpacked_block(vals),
        CodecType::BlockwiseLinear => linear_blocks(vals),
    }
}

pub open spec fn prepend(v: Seq<u64>, o: Option<Seq<u64>>) -> Option<Seq<u64>> {
    match o {
        None => None,
        Some(rest) => Some(v + rest),
    }
}

/// Reads `n` values stored as linear blocks that fill `b` exactly.
#[verifier::opaque]
pub open spec fn parse_linear_blocks(b: Seq<u8>, n: nat) -> Option<Seq<u64>>
    decreases n,
{
    if n == 0 {
        if b.len() == 0 { Some(Seq::empty()) } else { None }
    } else {
        let k = if n < BLOCK_LEN { n } else { BLOCK_LEN as nat };
        match parse_block(b, k) {
            None => None,
            Some((v, c)) => prepend(v, parse_linear_blocks(b.skip(c as int), (n - k) as nat)),
        }
    }
}

/// Reads a values segment that fills `b` exactly.
pub open spec fn parse_values(b: Seq<u8>) -> Option<Seq<u64>> {
    if b.len() < 5 {
        None
    } else {
        let n = le_value(b.subrange(1, 5));
        let rest = b.skip(5);
        if b[0] == BITPACKED_TAG {
            match parse_block(rest, n) {
                Some((v, c)) => if c == rest.len() { Some(v) } else { None },
                None => None,
            }
        } else if b[0] == BLOCKWISE_LINEAR_TAG {
            parse_linear_blocks(rest, n)
        } else {
            None
        }
    }
}

proof fn lemma_linear_blocks_unfold(vals: Seq<u64>)
    requires
        vals.len() > 0,
    ensures
        vals.len() <= BLOCK_LEN ==> linear_blocks(vals) == linear_block(vals),
        vals.len() > BLOCK_LEN ==> linear_blocks(vals) == linear_block(vals.take(BLOCK_LEN as int))
            + linear_blocks(vals.skip(BLOCK_LEN as int)),
{
    reveal(linear_blocks);
}

pub proof fn lemma_linear_blocks_round_trip(vals: Seq<u64>)
    ensures
        parse_linear_blocks(linear_blocks(vals), vals.len()) == Some(vals),
    decreases vals.len(),
{
    if vals.len() == 0 {
        lemma_linear_blocks_empty(vals);
    } else {
        lemma_linear_blocks_unfold(vals);
        let n = vals.len();
        let k: nat = if n < BLOCK_LEN { n } else { BLOCK_LEN as nat };
        let v = vals.take(k as int);
        let rest = vals.skip(k as int);
        let tail = if n <= BLOCK_LEN { Seq::<u8>::empty() } else { linear_blocks(rest) };
        let blk = linear_block(v);
        lemma_block_round_trip(v, anchor_of(v[0]), fit_slope(v[0], v.last(), v.len()), tail);
        let b = blk + tail;
        assert(b.skip(blk.len() as int) =~= tail);
        if n <= BLOCK_LEN {
            assert(v =~= vals);
            assert(b =~= blk);
            lemma_linear_blocks_empty(rest);
            assert(vals + Seq::<u64>::empty() =~= vals);
        } else {
            lemma_linear_blocks_round_trip(rest);
            assert(v + rest =~= vals);
        }
        lemma_parse_linear_blocks_unfold(b, n);
    }
}

/// Opening what was written for `vals` gives `vals` back.
pub proof fn lemma_values_round_trip(vals: Seq<u64>)
    requires
        vals.len() <= u32::MAX,
    ensures
        parse_values(values_bytes(vals)) == Some(vals),
{
    let b = values_bytes(vals);
    lemma_pow256_values();
    lemma_le_round_trip(vals.len(), 4);
    assert(b.subrange(1, 5) =~= le_bytes(vals.len(), 4));
    match chosen_codec(vals) {
        CodecType::Bitpacked => {
            lemma_block_round_trip(vals, 0, 0, Seq::empty());
            assert(b.skip(5) =~= bitpacked_block(vals) + Seq::<u8>::empty());
        },
        CodecType::BlockwiseLinear => {
            lemma_linear_blocks_round_trip(vals);
            assert(b.skip(5) =~= linear_blocks(vals));
        },
    }
}

/// Where the next block of `vals[k..]` ends.
pub open spec fn block_end(k: int, n: int) -> int {
    if n - k <= BLOCK_LEN { n } else { k + BLOCK_LEN }
}

proof fn lemma_linear_blocks_step(vals: Seq<u64>, k: int)
    requires
        0 <= k < vals.len(),
    ensures
        ({
            let n = vals.len() as int;
            let end = block_end(k, n);
            let v = vals.subrange(k, end);
            &&& linear_blocks(vals.subrange(k, n)) == linear_block(v) + linear_blocks(vals.subrange(end, n))
            &&& v[0] == vals[k]
            &&& v.last() == vals[end - 1]
            &&& v.len() == end - k
        }),
{
    reveal(linear_blocks);
    let n = vals.len() as int;
    let end = block_end(k, n);
    let rest = vals.subrange(k, n);
    let v = vals.subrange(k, end);
    if n - k > BLOCK_LEN {
        assert(rest.take(BLOCK_LEN as int) =~= v);
        assert(rest.skip(BLOCK_LEN as int) =~= vals.subrange(end, n));
    } else {
        assert(rest =~= v);
        assert(vals.subrange(end, n) =~= Seq::<u64>::empty());
        assert(linear_block(v) + Seq::<u8>::empty() =~= linear_block(v));
    }
}

/// Every sequence, the empty one, a constant one and one that spans the
/// whole `u64` range among them, can be written bitpacked and read back.
pub proof fn lemma_bitpacked_total(vals: Seq<u64>)
    requires
        vals.len() <= u32::MAX,
    ensures
        parse_values(seq![BITPACKED_TAG] + le_bytes(vals.len(), 4) + bitpacked_block(vals)) == Some(vals),
{
    let b = seq![BITPACKED_TAG] + le_bytes(vals.len(), 4) + bitpacked_block(vals);
    lemma_pow256_values();
    lemma_le_round_trip(vals.len(), 4);
    assert(b.subrange(1, 5) =~= le_bytes(vals.len(), 4));
    lemma_block_round_trip(vals, 0, 0, Seq::empty());
    assert(b.skip(5) =~= bitpacked_block(vals) + Seq::<u8>::empty());
}

/// The slope of the line through the first and the last of `n` values.
fn slope_between(first: u64, last: u64, n: usize) -> (r: u64)
    ensures
        r == fit_slope(first, last, n as nat),
{
    if n <= 1 {
        0
    } else if last >= first {
        (last - first) / (n as u64 - 1)
    } else {
        sub_wrap(0, (first - last) / (n as u64 - 1))
    }
}

/// The byte length of the blockwise linear payload of `vals`, found
/// without writing it.
pub fn linear_blocks_len(vals: &[u64]) -> (r: u64)
    requires
        vals@.len() <= u32::MAX,
    ensures
        r == linear_blocks(vals@).len(),
{
    let n = vals.len();
    let mut k: usize = 0;
    let mut acc: u64 = 0;
    assert(vals@.subrange(0, n as int) =~= vals@);
    while k < n
        invariant
            k <= n == vals@.len() <= u32::MAX,
            acc <= 26 * k,
            acc + linear_blocks(vals@.subrange(k as int, n as int)).len() == linear_blocks(vals@).len(),
        decreases n - k,
    {
        let end = if n - k <= BLOCK_LEN { n } else { k + BLOCK_LEN };
        let a = sub_wrap(vals[k], 0x8000_0000_0000_0000);
        let s = slope_between(vals[k], vals[end - 1], end - k);
        let l = block_len(vals, k, end, a, s);
        proof {
            let v = vals@.subrange(k as int, end as int);
            let w = block_width(v, a, s);
            lemma_linear_blocks_step(vals@, k as int);
            crate::line::lemma_width_le_64(v, a, s);
            assert(((end - k) * w + 7) / 8 <= 8 * (end - k) + 1) by (nonlinear_arith)
                requires
                    w <= 64,
                    end >= k,
            ;
        }
        acc = acc + l;
        k = end;
    }
    proof {
        lemma_linear_blocks_empty(vals@.subrange(n as int, n as int));
    }
    acc
}

/// Appends the blockwise linear payload of `vals`.
pub fn write_linear_blocks(out: &mut Vec<u8>, vals: &[u64])
    ensures
        final(out)@ == old(out)@ + linear_blocks(vals@),
{
    let n = vals.len();
    let mut k: usize = 0;
    assert(vals@.subrange(0, n as int) =~= vals@);
    while k < n
        invariant
            k <= n == vals@.len(),
            old(out)@ + linear_blocks(vals@) == out@ + linear_blocks(vals@.subrange(k as int, n as int)),
        decreases n - k,
    {
        let end = if n - k <= BLOCK_LEN { n } else { k + BLOCK_LEN };
        let a = sub_wrap(vals[k], 0x8000_0000_0000_0000);
        let s = slope_between(vals[k], vals[end - 1], end - k);
        proof {
            lemma_linear_blocks_step(vals@, k as int);
        }
        let ghost before = out@;
        write_block(out, vals, k, end, a, s);
        assert(before + linear_blocks(vals@.subrange(k as int, n as int)) =~= out@ + linear_blocks(
            vals@.subrange(end as int, n as int),
        ));
        k = end;
    }
    proof {
        lemma_linear_blocks_empty(vals@.subrange(n as int, n as int));
    }
    assert(out@ =~= out@ + linear_blocks(vals@.subrange(n as int, n as int)));
}

/// Appends the values segment of `vals` and tells which codec it chose:
/// the one whose encoding is shorter, bitpacked on a tie.
pub fn serialize_u64_based_column_values(vals: &[u64], out: &mut Vec<u8>) -> (c: CodecType)
    requires
        vals@.len() <= u32::MAX,
    ensures
        c == chosen_codec(vals@),
        final(out)@ == old(out)@ + values_bytes(vals@),
{
    let n = vals.len();
    let linear = linear_blocks_len(vals);
    let packed = block_len(vals, 0, n, 0, 0);
    assert(vals@.subrange(0, n as int) =~= vals@);
    let c = if linear < packed { CodecType::BlockwiseLinear } else { CodecType::Bitpacked };
    out.push(c.tag());
    write_u32(out, n as u32);
    match c {
        CodecType::Bitpacked => write_block(out, vals, 0, n, 0, 0),
        CodecType::BlockwiseLinear => write_linear_blocks(out, vals),
    }
    assert(final(out)@ =~= old(out)@ + values_bytes(vals@));
    c
}

/// Opens a values segment that fills `data` exactly.
pub fn open_u64_based_column_values(data: &[u8]) -> (r: Result<Vec<u64>, ColumnarError>)
    ensures
        match parse_values(data@) {
            None => r is Err,
            Some(v) => r matches Ok(got) && got@ == v,
        },
        data@.len() >= 5 && data@[0] > BLOCKWISE_LINEAR_TAG ==> r == Err::<Vec<u64>, ColumnarError>(
            ColumnarError::UnknownCodec(data@[0]),
        ),
{
    let len = data.len();
    if len < 5 {
        return Err(ColumnarError::Truncated);
    }
    let n = read_u32(data, 1) as usize;
    let tag = data[0];
    let ghost rest = data@.skip(5);
    assert(data@.subrange(5, len as int) =~= rest);
    let mut out: Vec<u64> = Vec::new();
    if tag == BITPACKED_TAG {
        match read_block(data, 5, n, &mut out) {
            Some(c) => {
                if c == len - 5 {
                    Ok(out)
                } else {
                    Err(ColumnarError::Malformed)
                }
            },
            None => Err(ColumnarError::Malformed),
        }
    } else if tag == BLOCKWISE_LINEAR_TAG {
        let mut pos: usize = 5;
        let mut left: usize = n;
        while left > 0
            invariant
                5 <= pos <= len == data@.len(),
                left <= n <= u32::MAX,
                data@[0] == BLOCKWISE_LINEAR_TAG,
                rest == data@.skip(5),
                n == le_value(data@.subrange(1, 5)),
                parse_linear_blocks(rest, n as nat) == prepend(
                    out@,
                    parse_linear_blocks(data@.subrange(pos as int, len as int), left as nat),
                ),
            decreases left,
        {
            let ghost here = data@.subrange(pos as int, len as int);
            let ghost before = out@;
            let k = if left < BLOCK_LEN { left } else { BLOCK_LEN };
            proof {
                lemma_parse_linear_blocks_unfold(here, left as nat);
            }
            match read_block(data, pos, k, &mut out) {
                None => {
                    assert(parse_linear_blocks(here, left as nat) is None);
                    return Err(ColumnarError::Malformed);
                },
                Some(c) => {
                    proof {
                        assert(here.skip(c as int) =~= data@.subrange(pos + c, len as int));
                        let tail = parse_linear_blocks(data@.subrange(pos + c, len as int), (left - k) as nat);
                        if let Some(t) = tail {
                            assert(before + (out@.skip(before.len() as int) + t) =~= out@ + t);
                            assert(out@.skip(before.len() as int) =~= out@.subrange(before.len() as int, out@.len() as int));
                        }
                        assert(out@ =~= before + out@.skip(before.len() as int));
                    }
                    pos = pos + c;
                    left = left - k;
                },
            }
        }
        proof {
            reveal(parse_linear_blocks);
        }
        if pos == len {
            proof {
                assert(out@ + Seq::<u64>::empty() =~= out@);
            }
            Ok(out)
        } else {
            Err(ColumnarError::Malformed)
        }
    } else {
        Err(ColumnarError::UnknownCodec(tag))
    }
}

} // verus!
