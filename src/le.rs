//! Little-endian fixed-width integers, the unit of every layout in this crate.
use vstd::prelude::*;

verus! {

/// The bytes of `v`, least significant first, over `n` bytes.
pub open spec fn le_bytes(v: nat, n: nat) -> Seq<u8>
    decreases n,
{
    if n == 0 {
        Seq::empty()
    } else {
        seq![(v % 256) as u8] + le_bytes(v / 256, (n - 1) as nat)
    }
}

/// The number that `s` spells, least significant byte first.
pub open spec fn le_value(s: Seq<u8>) -> nat
    decreases s.len(),
{
    if s.len() == 0 {
        0
    } else {
        s[0] as nat + 256 * le_value(s.drop_first())
    }
}

pub open spec fn pow256(n: nat) -> nat
    decreases n,
{
    if n == 0 {
        1
    } else {
        256 * pow256((n - 1) as nat)
    }
}

pub proof fn lemma_le_bytes_len(v: nat, n: nat)
    ensures
        le_bytes(v, n).len() == n,
    decreases n,
{
    if n > 0 {
        lemma_le_bytes_len(v / 256, (n - 1) as nat);
    }
}

pub proof fn lemma_le_value_bound(s: Seq<u8>)
    ensures
        le_value(s) < pow256(s.len()),
    decreases s.len(),
{
    if s.len() > 0 {
        lemma_le_value_bound(s.drop_first());
        let r = le_value(s.drop_first());
        let p = pow256((s.len() - 1) as nat);
        assert(s[0] as nat + 256 * r < 256 * p) by (nonlinear_arith)
            requires
                r < p,
                s[0] < 256,
        ;
    }
}

/// Reading back what was written gives the number again.
pub proof fn lemma_le_round_trip(v: nat, n: nat)
    requires
        v < pow256(n),
    ensures
        le_value(le_bytes(v, n)) == v,
        le_bytes(v, n).len() == n,
    decreases n,
{
    lemma_le_bytes_len(v, n);
    if n > 0 {
        let p = pow256((n - 1) as nat);
        assert(v / 256 < p) by (nonlinear_arith)
            requires
                v < 256 * p,
        ;
        lemma_le_round_trip(v / 256, (n - 1) as nat);
        let s = le_bytes(v, n);
        assert(s.drop_first() =~= le_bytes(v / 256, (n - 1) as nat));
    }
}

pub proof fn lemma_pow256_values()
    ensures
        pow256(1) == 0x100,
        pow256(4) == 0x1_0000_0000,
        pow256(8) == 0x1_0000_0000_0000_0000,
        pow256(16) == 0x1_0000_0000_0000_0000_0000_0000_0000_0000,
{
    reveal_with_fuel(pow256, 17);
}

pub proof fn lemma_pow256_mono(a: nat, b: nat)
    requires
        a <= b,
    ensures
        pow256(a) <= pow256(b),
        pow256(a) >= 1,
    decreases b,
{
    if b > a {
        lemma_pow256_mono(a, (b - 1) as nat);
    } else if a > 0 {
        lemma_pow256_mono((a - 1) as nat, (a - 1) as nat);
    }
}

/// Appends the `n` low bytes of `v`, least significant first.
pub fn write_le(out: &mut Vec<u8>, v: u128, n: usize)
    ensures
        final(out)@ == old(out)@ + le_bytes(v as nat, n as nat),
    decreases n,
{
    proof {
        lemma_le_bytes_len(v as nat, n as nat);
    }
    if n > 0 {
        out.push((v % 256) as u8);
        write_le(out, v / 256, n - 1);
        assert(final(out)@ =~= old(out)@ + le_bytes(v as nat, n as nat));
    }
}

/// Reads the number spelled by `n` bytes of `data` starting at `pos`.
pub fn read_le(data: &[u8], pos: usize, n: usize) -> (r: u128)
    requires
        pos + n <= data@.len(),
        n <= 16,
    ensures
        r as nat == le_value(data@.subrange(pos as int, pos + n)),
    decreases n,
{
    if n == 0 {
        0
    } else {
        let len = data.len();
        let rest = read_le(data, pos + 1, n - 1);
        let ghost s = data@.subrange(pos as int, pos + n);
        proof {
            assert(s.drop_first() =~= data@.subrange(pos + 1, pos + n));
            lemma_le_value_bound(s.drop_first());
            lemma_pow256_mono((n - 1) as nat, 15);
            lemma_pow256_values();
            reveal_with_fuel(pow256, 17);
        }
        (data[pos] as u128) + 256 * rest
    }
}

/// Appends `v` as four little-endian bytes.
pub fn write_u32(out: &mut Vec<u8>, v: u32)
    ensures
        final(out)@ == old(out)@ + le_bytes(v as nat, 4),
{
    write_le(out, v as u128, 4);
}

/// Appends `v` as eight little-endian bytes.
pub fn write_u64(out: &mut Vec<u8>, v: u64)
    ensures
        final(out)@ == old(out)@ + le_bytes(v as nat, 8),
{
    write_le(out, v as u128, 8);
}

/// Reads four little-endian bytes at `pos`.
pub fn read_u32(data: &[u8], pos: usize) -> (r: u32)
    requires
        pos + 4 <= data@.len(),
    ensures
        r as nat == le_value(data@.subrange(pos as int, pos + 4)),
{
    let v = read_le(data, pos, 4);
    proof {
        lemma_le_value_bound(data@.subrange(pos as int, pos + 4));
        lemma_pow256_values();
    }
    v as u32
}

/// Reads eight little-endian bytes at `pos`.
pub fn read_u64(data: &[u8], pos: usize) -> (r: u64)
    requires
        pos + 8 <= data@.len(),
    ensures
        r as nat == le_value(data@.subrange(pos as int, pos + 8)),
{
    let v = read_le(data, pos, 8);
    proof {
        lemma_le_value_bound(data@.subrange(pos as int, pos + 8));
        lemma_pow256_values();
    }
    v as u64
}

} // verus!
