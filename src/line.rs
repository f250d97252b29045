//! A line block: values stored as residuals above a line
//! `intercept + slope * j`, all arithmetic taken modulo 2^64.
//!
//! Layout: `<intercept: u64><slope: u64><width: u8><residuals>`, the
//! residuals packed densely in `width` bits each.
use vstd::prelude::*;
use vstd::arithmetic::div_mod::{lemma_fundamental_div_mod, lemma_mod_multiples_vanish, lemma_small_mod};
use crate::bits::{
    bit_of, bits_value, lemma_bits_value, lemma_pack_bits, two_pow, pack, pack_bits, push_bits,
    read_bits, val_bits,
};
use crate::le::{le_bytes, le_value, lemma_le_round_trip, lemma_pow256_values, write_u64, read_u64};

verus! {

pub open spec fn modulus() -> int {
    0x1_0000_0000_0000_0000
}

/// `x` reduced modulo 2^64.
pub open spec fn wrap(x: int) -> u64 {
    (x % modulus()) as u64
}

/// The point of the line at position `j`.
pub open spec fn line_at(a: u64, s: u64, j: int) -> u64 {
    wrap(a + wrap(s * j))
}

/// What `v` exceeds the line by at position `j`, modulo 2^64.
pub open spec fn residuals(vals: Seq<u64>, a: u64, s: u64) -> Seq<u64> {
    Seq::new(vals.len(), |j: int| wrap(vals[j] - line_at(a, s, j)))
}

pub open spec fn seq_min(r: Seq<u64>) -> u64
    decreases r.len(),
{
    if r.len() == 0 {
        0
    } else if r.len() == 1 {
        r[0]
    } else {
        let m = seq_min(r.drop_last());
        if r.last() < m { r.last() } else { m }
    }
}

pub open spec fn seq_max(r: Seq<u64>) -> u64
    decreases r.len(),
{
    if r.len() == 0 {
        0
    } else if r.len() == 1 {
        r[0]
    } else {
        let m = seq_max(r.drop_last());
        if r.last() > m { r.last() } else { m }
    }
}

/// The fewest bits that hold `x`.
pub open spec fn num_bits(x: nat) -> nat
    decreases x,
{
    if x == 0 {
        0
    } else {
        1 + num_bits(x / 2)
    }
}

/// The residuals less `m`, each as its `w` low bits.
pub open spec fn stream(r: Seq<u64>, m: u64, w: nat) -> Seq<bool>
    decreases r.len(),
{
    if r.len() == 0 {
        Seq::empty()
    } else {
        stream(r.drop_last(), m, w) + val_bits((r.last() - m) as nat, w)
    }
}

/// Bytes that hold `n` residuals of `w` bits.
pub open spec fn packed_len(n: nat, w: nat) -> nat {
    (n * w + 7) / 8
}

/// The width, in bits, of the residuals of `vals` over the line `(a, s)`.
pub open spec fn block_width(vals: Seq<u64>, a: u64, s: u64) -> nat {
    let r = residuals(vals, a, s);
    num_bits((seq_max(r) - seq_min(r)) as nat)
}

/// The encoding of `vals` as one line block anchored at `a` with slope `s`.
/// The smallest residual is folded into the stored intercept.
pub open spec fn block_bytes(vals: Seq<u64>, a: u64, s: u64) -> Seq<u8> {
    let r = residuals(vals, a, s);
    let m = seq_min(r);
    let w = block_width(vals, a, s);
    le_bytes(wrap(a + m) as nat, 8) + le_bytes(s as nat, 8) + seq![w as u8] + pack_bits(stream(r, m, w))
}

/// The value at position `j` of a block with the given header.
pub open spec fn block_value(b: Seq<u8>, i: u64, s: u64, w: nat, j: int) -> u64 {
    wrap(line_at(i, s, j) + bits_value(b.skip(17), j * w, w))
}

/// Reads a block of `n` values at the front of `b`: the values and the
/// number of bytes taken, or `None` where the bytes cannot be such a block.
pub open spec fn parse_block(b: Seq<u8>, n: nat) -> Option<(Seq<u64>, nat)> {
    if b.len() < 17 {
        None
    } else {
        let i = le_value(b.subrange(0, 8)) as u64;
        let s = le_value(b.subrange(8, 16)) as u64;
        let w = b[16] as nat;
        if w > 64 || b.len() < 17 + packed_len(n, w) {
            None
        } else {
            Some((Seq::new(n, |j: int| block_value(b, i, s, w, j)), 17 + packed_len(n, w)))
        }
    }
}

pub proof fn lemma_seq_min_max(r: Seq<u64>, j: int)
    requires
        0 <= j < r.len(),
    ensures
        seq_min(r) <= r[j] <= seq_max(r),
    decreases r.len(),
{
    if r.len() > 1 && j < r.len() - 1 {
        lemma_seq_min_max(r.drop_last(), j);
    }
}

pub proof fn lemma_num_bits(x: nat)
    ensures
        x < two_pow(num_bits(x)),
        x < 0x1_0000_0000_0000_0000 ==> num_bits(x) <= 64,
    decreases x,
{
    if x > 0 {
        lemma_num_bits(x / 2);
        if x < 0x1_0000_0000_0000_0000 {
            crate::bits::lemma_two_pow_values();
            lemma_num_bits_below(x / 2, 63);
        }
    }
}

proof fn lemma_num_bits_below(x: nat, k: nat)
    requires
        x < two_pow(k),
    ensures
        num_bits(x) <= k,
    decreases x,
{
    if x > 0 {
        if k == 0 {
            assert(two_pow(0) == 1);
        } else {
            assert(x / 2 < two_pow((k - 1) as nat));
            lemma_num_bits_below(x / 2, (k - 1) as nat);
        }
    }
}

/// A block's residuals never take more than sixty-four bits each.
pub proof fn lemma_width_le_64(vals: Seq<u64>, a: u64, s: u64)
    ensures
        block_width(vals, a, s) <= 64,
{
    let r = residuals(vals, a, s);
    if r.len() > 0 {
        lemma_seq_min_max(r, 0);
    }
    lemma_num_bits((seq_max(r) - seq_min(r)) as nat);
}

pub proof fn lemma_stream(r: Seq<u64>, m: u64, w: nat, j: int, t: int)
    requires
        0 <= j < r.len(),
        0 <= t < w,
    ensures
        stream(r, m, w).len() == r.len() * w,
        stream(r, m, w)[j * w + t] == ((((r[j] - m) as nat) / two_pow(t as nat)) % 2 == 1),
    decreases r.len(),
{
    lemma_stream_len(r, m, w);
    lemma_stream_len(r.drop_last(), m, w);
    let n = r.len();
    assert((n - 1) * w + w == n * w) by (nonlinear_arith);
    if j < n - 1 {
        lemma_stream(r.drop_last(), m, w, j, t);
        assert(j * w + t < (n - 1) * w) by (nonlinear_arith)
            requires
                j < n - 1,
                t < w,
        ;
    } else {
        assert(j * w == (n - 1) * w);
    }
}

pub proof fn lemma_stream_len(r: Seq<u64>, m: u64, w: nat)
    ensures
        stream(r, m, w).len() == r.len() * w,
    decreases r.len(),
{
    if r.len() > 0 {
        lemma_stream_len(r.drop_last(), m, w);
        assert((r.len() - 1) * w + w == r.len() * w) by (nonlinear_arith);
    }
}

/// Adding back the residual recovers the value: the arithmetic of the
/// block's round trip.
pub proof fn lemma_line_round_trip(v: u64, a: u64, s: u64, m: u64, j: int)
    requires
        m <= wrap(v - line_at(a, s, j)),
    ensures
        wrap(line_at(wrap(a + m), s, j) + (wrap(v - line_at(a, s, j)) - m)) == v,
{
    let mm = modulus();
    let p = wrap(s * j) as int;
    lemma_fundamental_div_mod(s * j, mm);
    lemma_fundamental_div_mod(a + m, mm);
    let i = wrap(a + m) as int;
    lemma_fundamental_div_mod(i + p, mm);
    lemma_fundamental_div_mod(a + p, mm);
    let l = line_at(a, s, j) as int;
    lemma_fundamental_div_mod(v - l, mm);
    let r = wrap(v - l) as int;
    let l2 = line_at(wrap(a + m), s, j) as int;
    let q1 = (a + m) / mm;
    let q3 = (i + p) / mm;
    let q4 = (a + p) / mm;
    let q5 = (v - l) / mm;
    assert(l2 + (r - m) == mm * (q4 - q1 - q3 - q5) + v);
    lemma_mod_multiples_vanish(q4 - q1 - q3 - q5, v as int, mm);
}

/// Reading back a block written for `vals` gives `vals` and its length.
pub proof fn lemma_block_round_trip(vals: Seq<u64>, a: u64, s: u64, rest: Seq<u8>)
    ensures
        parse_block(block_bytes(vals, a, s) + rest, vals.len()) == Some(
            (vals, (17 + packed_len(vals.len(), block_width(vals, a, s))) as nat),
        ),
        block_bytes(vals, a, s).len() == 17 + packed_len(vals.len(), block_width(vals, a, s)),
{
    let r = residuals(vals, a, s);
    let m = seq_min(r);
    let w = block_width(vals, a, s);
    let n = vals.len();
    let i = wrap(a + m);
    let blk = block_bytes(vals, a, s);
    let b = blk + rest;
    let spread = (seq_max(r) - m) as nat;
    let st = stream(r, m, w);
    lemma_pow256_values();
    lemma_width_le_64(vals, a, s);
    lemma_num_bits(spread);
    lemma_le_round_trip(i as nat, 8);
    lemma_le_round_trip(s as nat, 8);
    lemma_stream_len(r, m, w);
    assert(b.subrange(0, 8) =~= le_bytes(i as nat, 8));
    assert(b.subrange(8, 16) =~= le_bytes(s as nat, 8));
    assert(b[16] == w as u8);
    assert(b.skip(17) =~= pack_bits(st) + rest);
    let parsed = Seq::new(n, |j: int| block_value(b, i, s, w, j));
    assert forall|j: int| 0 <= j < n implies parsed[j] == vals[j] by {
        lemma_seq_min_max(r, j);
        let x = (r[j] - m) as nat;
        assert forall|t: int| 0 <= t < w implies #[trigger] bit_of(b.skip(17), j * w + t) == (x / two_pow(
            t as nat,
        )) % 2 by {
            lemma_stream(r, m, w, j, t);
            assert(j * w + t < n * w) by (nonlinear_arith)
                requires
                    0 <= j < n,
                    0 <= t < w,
            ;
            assert(0 <= j * w + t) by (nonlinear_arith)
                requires
                    0 <= j,
                    0 <= t,
            ;
            lemma_pack_bits(st, rest, j * w + t);
        }
        lemma_bits_value(b.skip(17), j * w, w, x);
        lemma_small_mod(x, two_pow(w));
        lemma_line_round_trip(vals[j], a, s, m, j);
    }
    assert(parsed =~= vals);
}

/// `x + y` modulo 2^64.
pub fn add_wrap(x: u64, y: u64) -> (r: u64)
    ensures
        r == wrap(x + y),
{
    proof {
        if x + y >= modulus() {
            lemma_fundamental_div_mod(x + y, modulus());
        }
    }
    x.wrapping_add(y)
}

/// `x - y` modulo 2^64.
pub fn sub_wrap(x: u64, y: u64) -> (r: u64)
    ensures
        r == wrap(x - y),
{
    proof {
        lemma_fundamental_div_mod(x - y, modulus());
    }
    x.wrapping_sub(y)
}

/// The point of the line `(a, s)` at position `j`.
pub fn line_point(a: u64, s: u64, j: u64) -> (r: u64)
    ensures
        r == line_at(a, s, j as int),
{
    let p = s.wrapping_mul(j);
    add_wrap(a, p)
}

/// The smallest and the largest residual of `vals[start..end]` over the line `(a, s)`.
fn residual_range(vals: &[u64], start: usize, end: usize, a: u64, s: u64) -> (r: (u64, u64))
    requires
        start <= end <= vals@.len(),
    ensures
        r.0 == seq_min(residuals(vals@.subrange(start as int, end as int), a, s)),
        r.1 == seq_max(residuals(vals@.subrange(start as int, end as int), a, s)),
{
    let ghost all = residuals(vals@.subrange(start as int, end as int), a, s);
    let mut lo: u64 = 0;
    let mut hi: u64 = 0;
    let mut k: usize = start;
    while k < end
        invariant
            start <= k <= end <= vals@.len(),
            all == residuals(vals@.subrange(start as int, end as int), a, s),
            lo == seq_min(all.take(k - start)),
            hi == seq_max(all.take(k - start)),
        decreases end - k,
    {
        let j = k - start;
        let line = line_point(a, s, j as u64);
        let res = sub_wrap(vals[k], line);
        proof {
            assert(all.take(j + 1).drop_last() =~= all.take(j as int));
            assert(res == all[j as int]);
        }
        if j == 0 {
            lo = res;
            hi = res;
        } else {
            if res < lo {
                lo = res;
            }
            if res > hi {
                hi = res;
            }
        }
        k = k + 1;
    }
    assert(all.take(end - start) =~= all);
    (lo, hi)
}

/// The fewest bits that hold `x`.
pub fn width_of(x: u64) -> (w: u8)
    ensures
        w as nat == num_bits(x as nat),
        w <= 64,
{
    let mut y: u64 = x;
    let mut w: u8 = 0;
    proof {
        lemma_num_bits(x as nat);
    }
    while y > 0
        invariant
            w as nat + num_bits(y as nat) == num_bits(x as nat),
            num_bits(x as nat) <= 64,
        decreases y,
    {
        y = y / 2;
        w = w + 1;
    }
    w
}

/// The byte length of the line block of `vals[start..end]` over `(a, s)`,
/// found without writing it.
pub fn block_len(vals: &[u64], start: usize, end: usize, a: u64, s: u64) -> (r: u64)
    requires
        start <= end <= vals@.len(),
        end - start <= u32::MAX,
    ensures
        r == block_bytes(vals@.subrange(start as int, end as int), a, s).len(),
        r == 17 + packed_len((end - start) as nat, block_width(vals@.subrange(start as int, end as int), a, s)),
{
    let (lo, hi) = residual_range(vals, start, end, a, s);
    let ghost v = vals@.subrange(start as int, end as int);
    proof {
        lemma_block_round_trip(v, a, s, Seq::empty());
        if v.len() > 0 {
            lemma_seq_min_max(residuals(v, a, s), 0);
        }
    }
    let w = width_of(hi - lo);
    let n = (end - start) as u64;
    assert(n * (w as u64) <= 64 * 0xffff_ffff) by (nonlinear_arith)
        requires
            n <= 0xffff_ffff,
            w <= 64,
    ;
    17 + (n * (w as u64) + 7) / 8
}

/// Appends the line block of `vals[start..end]` anchored at `a` with slope `s`.
pub fn write_block(out: &mut Vec<u8>, vals: &[u64], start: usize, end: usize, a: u64, s: u64)
    requires
        start <= end <= vals@.len(),
    ensures
        final(out)@ == old(out)@ + block_bytes(vals@.subrange(start as int, end as int), a, s),
{
    let ghost v = vals@.subrange(start as int, end as int);
    let ghost r = residuals(v, a, s);
    let (lo, hi) = residual_range(vals, start, end, a, s);
    proof {
        if v.len() > 0 {
            lemma_seq_min_max(r, 0);
        }
    }
    let w = width_of(hi - lo);
    write_u64(out, add_wrap(a, lo));
    write_u64(out, s);
    out.push(w);
    let ghost head = out@;
    let mut bits: Vec<bool> = Vec::new();
    let mut k: usize = start;
    assert(r.take(0) =~= Seq::<u64>::empty());
    while k < end
        invariant
            start <= k <= end <= vals@.len(),
            v == vals@.subrange(start as int, end as int),
            r == residuals(v, a, s),
            lo == seq_min(r),
            w as nat == block_width(v, a, s),
            bits@ == stream(r.take(k - start), lo, w as nat),
            out@ == head,
        decreases end - k,
    {
        let j = k - start;
        let line = line_point(a, s, j as u64);
        let res = sub_wrap(vals[k], line);
        proof {
            assert(r.take(j + 1).drop_last() =~= r.take(j as int));
            assert(res == r[j as int]);
            lemma_seq_min_max(r, j as int);
        }
        push_bits(&mut bits, res - lo, w);
        k = k + 1;
    }
    assert(r.take(end - start) =~= r);
    pack(&bits, out);
    assert(final(out)@ =~= old(out)@ + block_bytes(v, a, s));
}

/// Reads a block of `n` values at `data[pos..]`, appending them to `out`.
/// Gives the number of bytes taken, or `None` where the bytes are no block.
pub fn read_block(data: &[u8], pos: usize, n: usize, out: &mut Vec<u64>) -> (r: Option<usize>)
    requires
        pos <= data@.len(),
        n <= u32::MAX,
    ensures
        match parse_block(data@.subrange(pos as int, data@.len() as int), n as nat) {
            None => r is None && final(out)@ == old(out)@,
            Some((v, c)) => r == Some(c as usize) && final(out)@ == old(out)@ + v,
        },
{
    let ghost b = data@.subrange(pos as int, data@.len() as int);
    let len = data.len();
    if len - pos < 17 {
        return None;
    }
    let i = read_u64(data, pos);
    let s = read_u64(data, pos + 8);
    let w = data[pos + 16];
    proof {
        assert(b.subrange(0, 8) =~= data@.subrange(pos as int, pos + 8));
        assert(b.subrange(8, 16) =~= data@.subrange(pos + 8, pos + 16));
    }
    if w > 64 {
        return None;
    }
    assert((n as u64) * (w as u64) <= 64 * 0xffff_ffff) by (nonlinear_arith)
        requires
            n <= 0xffff_ffff,
            w <= 64,
    ;
    let body = ((n as u64) * (w as u64) + 7) / 8;
    if ((len - pos) as u64) < 17 + body {
        return None;
    }
    let ghost head = out@;
    let ghost parsed = Seq::new(n as nat, |j: int| block_value(b, i, s, w as nat, j));
    proof {
        assert(b.skip(17) =~= data@.skip(pos + 17));
    }
    let mut j: usize = 0;
    while j < n
        invariant
            j <= n <= u32::MAX,
            pos + 17 + body <= len == data@.len(),
            body == (n * w + 7) / 8,
            w <= 64,
            b == data@.subrange(pos as int, data@.len() as int),
            b.skip(17) == data@.skip(pos + 17),
            parsed == Seq::new(n as nat, |j: int| block_value(b, i, s, w as nat, j)),
            out@ == head + parsed.take(j as int),
        decreases n - j,
    {
        assert(j * w + w <= n * w) by (nonlinear_arith)
            requires
                j < n,
        ;
        assert(j * w + w <= 64 * 0xffff_ffff) by (nonlinear_arith)
            requires
                j < n <= 0xffff_ffff,
                w <= 64,
        ;
        let d = read_bits(data, pos + 17, (j as u64) * (w as u64), w);
        let line = line_point(i, s, j as u64);
        out.push(add_wrap(line, d));
        proof {
            assert(parsed.take(j + 1) =~= parsed.take(j as int).push(parsed[j as int]));
        }
        j = j + 1;
    }
    assert(parsed.take(n as int) =~= parsed);
    Some(17 + body as usize)
}

} // verus!
