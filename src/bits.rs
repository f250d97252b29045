//! Dense bit streams: bits packed into bytes least significant first, and
//! numbers read from or written to runs of those bits.
use vstd::prelude::*;
use vstd::arithmetic::div_mod::{
    lemma_div_denominator, lemma_div_multiples_vanish_fancy, lemma_fundamental_div_mod,
    lemma_mod_breakdown, lemma_mod_multiples_vanish,
};

verus! {

/// Two to the power `n`.
pub open spec fn two_pow(n: nat) -> nat
    decreases n,
{
    if n == 0 { 1 } else { 2 * two_pow((n - 1) as nat) }
}

pub proof fn lemma_two_pow_pos(a: nat)
    ensures
        two_pow(a) >= 1,
    decreases a,
{
    if a > 0 {
        lemma_two_pow_pos((a - 1) as nat);
    }
}

pub proof fn lemma_two_pow_add(a: nat, b: nat)
    ensures
        two_pow(a + b) == two_pow(a) * two_pow(b),
        two_pow(a) >= 1,
        two_pow(b) >= 1,
    decreases b,
{
    lemma_two_pow_pos(a);
    lemma_two_pow_pos(b);
    if b > 0 {
        lemma_two_pow_add(a, (b - 1) as nat);
        assert(two_pow(a + b) == 2 * two_pow((a + b - 1) as nat));
        assert(two_pow(b) == 2 * two_pow((b - 1) as nat));
        assert((a + b - 1) as nat == a + (b - 1) as nat);
        assert(two_pow(a) * (2 * two_pow((b - 1) as nat)) == 2 * (two_pow(a) * two_pow((b - 1) as nat))) by (nonlinear_arith);
    } else {
        assert(two_pow(0) == 1);
        assert(two_pow(a) * 1 == two_pow(a));
    }
}

pub proof fn lemma_two_pow_values()
    ensures
        two_pow(8) == 256,
        two_pow(64) == 0x1_0000_0000_0000_0000,
{
    reveal_with_fuel(two_pow, 65);
}

/// Bit `i` of `s` as a number, zero past its end.
pub open spec fn bitn(s: Seq<bool>, i: int) -> nat {
    if 0 <= i < s.len() && s[i] { 1 } else { 0 }
}

/// The number that the `c` bits of `s` from `o` spell, least significant first.
pub open spec fn byte_of(s: Seq<bool>, o: int, c: nat) -> nat
    decreases c,
{
    if c == 0 { 0 } else { byte_of(s, o, (c - 1) as nat) + bitn(s, o + c - 1) * two_pow((c - 1) as nat) }
}

/// The bits of `s`, eight to a byte, the last byte padded with zeros.
pub open spec fn pack_bits(s: Seq<bool>) -> Seq<u8> {
    Seq::new((s.len() + 7) / 8, |k: int| byte_of(s, 8 * k, 8) as u8)
}

/// Bit `i` of the bytes `b`, zero past their end.
pub open spec fn bit_of(b: Seq<u8>, i: int) -> nat {
    if 0 <= i && i / 8 < b.len() { (b[i / 8] as nat / two_pow((i % 8) as nat)) % 2 } else { 0 }
}

/// The number that the `w` bits of `b` from bit `o` spell.
pub open spec fn bits_value(b: Seq<u8>, o: int, w: nat) -> nat
    decreases w,
{
    if w == 0 { 0 } else { bits_value(b, o, (w - 1) as nat) + bit_of(b, o + w - 1) * two_pow((w - 1) as nat) }
}

/// The `w` low bits of `x`, least significant first.
pub open spec fn val_bits(x: nat, w: nat) -> Seq<bool> {
    Seq::new(w, |t: int| (x / two_pow(t as nat)) % 2 == 1)
}

pub proof fn lemma_byte_of_bound(s: Seq<bool>, o: int, c: nat)
    ensures
        byte_of(s, o, c) < two_pow(c),
    decreases c,
{
    if c > 0 {
        lemma_byte_of_bound(s, o, (c - 1) as nat);
    }
}

/// Bit `u` of the number that bits `o ..` of `s` spell is bit `o + u` of `s`.
pub proof fn lemma_byte_bit(s: Seq<bool>, o: int, c: nat, u: nat)
    requires
        u < c,
    ensures
        (byte_of(s, o, c) / two_pow(u)) % 2 == bitn(s, o + u),
    decreases c,
{
    let p = two_pow(u);
    lemma_two_pow_add(u, 0);
    if c == u + 1 {
        lemma_byte_of_bound(s, o, u);
        let x = byte_of(s, o, u) as int;
        let b = bitn(s, o + u) as int;
        assert(byte_of(s, o, c) == p * b + x) by (nonlinear_arith)
            requires
                byte_of(s, o, c) == x + b * p,
        ;
        lemma_div_multiples_vanish_fancy(b, x, p as int);
    } else {
        lemma_byte_bit(s, o, (c - 1) as nat, u);
        let x = byte_of(s, o, (c - 1) as nat) as int;
        let b = bitn(s, o + c - 1) as int;
        let k = two_pow((c - 2 - u) as nat) as int;
        lemma_two_pow_add(u + 1, (c - 2 - u) as nat);
        lemma_fundamental_div_mod(x, p as int);
        let q = x / (p as int);
        let r = x % (p as int);
        assert(byte_of(s, o, c) == p * (q + 2 * b * k) + r) by (nonlinear_arith)
            requires
                byte_of(s, o, c) == x + b * two_pow((c - 1) as nat),
                two_pow((c - 1) as nat) == two_pow(u + 1) * k,
                two_pow(u + 1) == 2 * p,
                x == p * q + r,
        ;
        lemma_div_multiples_vanish_fancy(q + 2 * b * k, r, p as int);
        lemma_mod_multiples_vanish(b * k, q, 2);
        assert(2 * (b * k) + q == q + 2 * b * k) by (nonlinear_arith);
    }
}

/// Reading bit `i` of packed bits, with anything after them, gives bit `i`.
pub proof fn lemma_pack_bits(s: Seq<bool>, rest: Seq<u8>, i: int)
    requires
        0 <= i < s.len(),
    ensures
        bit_of(pack_bits(s) + rest, i) == bitn(s, i),
{
    let k = i / 8;
    let u = i % 8;
    lemma_byte_of_bound(s, 8 * k, 8);
    lemma_two_pow_values();
    lemma_byte_bit(s, 8 * k, 8, u as nat);
    assert(8 * k + u == i);
}

pub proof fn lemma_bits_value_bound(b: Seq<u8>, o: int, w: nat)
    ensures
        bits_value(b, o, w) < two_pow(w),
    decreases w,
{
    if w > 0 {
        let v = (w - 1) as nat;
        lemma_bits_value_bound(b, o, v);
        let i = o + w - 1;
        lemma_two_pow_pos(v);
        assert(bit_of(b, i) <= 1);
        assert(two_pow(w) == 2 * two_pow(v));
        assert(bits_value(b, o, v) + bit_of(b, i) * two_pow(v) < 2 * two_pow(v)) by (nonlinear_arith)
            requires
                bits_value(b, o, v) < two_pow(v),
                bit_of(b, i) <= 1,
        ;
    }
}

/// Bits that agree with those of `x` spell `x` modulo `2^w`.
pub proof fn lemma_bits_value(b: Seq<u8>, o: int, w: nat, x: nat)
    requires
        forall|t: int| 0 <= t < w ==> #[trigger] bit_of(b, o + t) == (x / two_pow(t as nat)) % 2,
    ensures
        bits_value(b, o, w) == x % two_pow(w),
    decreases w,
{
    if w > 0 {
        let v = (w - 1) as nat;
        lemma_bits_value(b, o, v, x);
        assert(bit_of(b, o + v) == (x / two_pow(v)) % 2);
        lemma_two_pow_pos(v);
        lemma_mod_breakdown(x as int, two_pow(v) as int, 2);
        assert(two_pow(w) == two_pow(v) * 2);
        let bit = (x / two_pow(v)) % 2;
        assert(bits_value(b, o, w) == bits_value(b, o, v) + bit * two_pow(v));
        assert(x % two_pow(w) == two_pow(v) * bit + x % two_pow(v));
        assert(bit * two_pow(v) == two_pow(v) * bit) by (nonlinear_arith);
    } else {
        assert(two_pow(0) == 1);
        assert(x % 1 == 0);
    }
}

/// Bit `t` of `x`, as an exec value.
pub fn bit_of_byte(byte: u8, u: usize) -> (r: u8)
    requires
        u < 8,
    ensures
        r as nat == (byte as nat / two_pow(u as nat)) % 2,
{
    let mut y: u8 = byte;
    let mut k: usize = 0;
    assert(two_pow(0) == 1);
    assert(byte as nat / 1 == byte as nat);
    while k < u
        invariant
            k <= u,
            y as nat == byte as nat / two_pow(k as nat),
        decreases u - k,
    {
        proof {
            lemma_two_pow_add(k as nat, 0);
            lemma_div_denominator(byte as int, two_pow(k as nat) as int, 2);
            assert(two_pow((k + 1) as nat) == two_pow(k as nat) * 2);
        }
        y = y / 2;
        k = k + 1;
    }
    y % 2
}

/// The number that the `w` bits of `data[start..]` from bit `o` spell.
pub fn read_bits(data: &[u8], start: usize, o: u64, w: u8) -> (r: u64)
    requires
        w <= 64,
        start <= data@.len(),
        o + w <= 8 * (data@.len() - start),
        o + w <= u64::MAX,
    ensures
        r as nat == bits_value(data@.skip(start as int), o as int, w as nat),
{
    let ghost b = data@.skip(start as int);
    let mut acc: u128 = 0;
    let mut weight: u128 = 1;
    let mut t: u8 = 0;
    proof {
        lemma_two_pow_values();
    }
    while t < w
        invariant
            t <= w <= 64,
            b == data@.skip(start as int),
            start <= data@.len(),
            o + w <= 8 * (data@.len() - start),
            o + w <= u64::MAX,
            acc as nat == bits_value(b, o as int, t as nat),
            weight as nat == two_pow(t as nat),
            two_pow(64) == 0x1_0000_0000_0000_0000,
        decreases w - t,
    {
        let len = data.len();
        let i = o + t as u64;
        assert(i / 8 < len - start);
        let at = (i / 8) as usize;
        let byte = data[start + at];
        let bit = bit_of_byte(byte, (i % 8) as usize);
        proof {
            lemma_bits_value_bound(b, o as int, t as nat);
            lemma_two_pow_add(t as nat, (64 - t) as nat);
            lemma_two_pow_add(t as nat, 1);
            assert(bit <= 1);
            assert(two_pow(1) == 2) by {
                reveal_with_fuel(two_pow, 2);
            }
            assert(acc + bit * weight < 2 * two_pow(t as nat)) by (nonlinear_arith)
                requires
                    acc < two_pow(t as nat),
                    bit <= 1,
                    weight == two_pow(t as nat),
            ;
            assert(two_pow(t as nat) * two_pow((64 - t) as nat) >= two_pow(t as nat) * 1) by (nonlinear_arith)
                requires
                    two_pow((64 - t) as nat) >= 1,
            ;
            assert(two_pow(t as nat + 1) <= 2 * 0x1_0000_0000_0000_0000) by (nonlinear_arith)
                requires
                    two_pow(t as nat + 1) == two_pow(t as nat) * two_pow(1),
                    two_pow(1) == 2,
                    two_pow(t as nat) <= 0x1_0000_0000_0000_0000,
            ;
        }
        acc = acc + (bit as u128) * weight;
        weight = weight * 2;
        t = t + 1;
    }
    proof {
        lemma_bits_value_bound(b, o as int, w as nat);
        lemma_two_pow_add(w as nat, (64 - w) as nat);
        assert(two_pow(w as nat) * two_pow((64 - w) as nat) >= two_pow(w as nat) * 1) by (nonlinear_arith)
            requires
                two_pow((64 - w) as nat) >= 1,
        ;
    }
    acc as u64
}

/// Appends the `w` low bits of `x`.
pub fn push_bits(bits: &mut Vec<bool>, x: u64, w: u8)
    ensures
        final(bits)@ == old(bits)@ + val_bits(x as nat, w as nat),
{
    let ghost head = old(bits)@;
    let mut y: u64 = x;
    let mut t: u8 = 0;
    assert(two_pow(0) == 1);
    assert(x as nat / 1 == x as nat);
    assert(val_bits(x as nat, w as nat).take(0) =~= Seq::<bool>::empty());
    assert(head + Seq::<bool>::empty() =~= head);
    while t < w
        invariant
            t <= w,
            y as nat == x as nat / two_pow(t as nat),
            bits@ == head + val_bits(x as nat, w as nat).take(t as int),
        decreases w - t,
    {
        bits.push(y % 2 == 1);
        proof {
            lemma_two_pow_add(t as nat, 0);
            lemma_div_denominator(x as int, two_pow(t as nat) as int, 2);
            assert(two_pow((t + 1) as nat) == two_pow(t as nat) * 2);
            assert(val_bits(x as nat, w as nat).take(t + 1) =~= val_bits(x as nat, w as nat).take(
                t as int,
            ).push(y % 2 == 1));
        }
        y = y / 2;
        t = t + 1;
    }
    assert(val_bits(x as nat, w as nat).take(w as int) =~= val_bits(x as nat, w as nat));
}

/// Appends the bits, eight to a byte, the last byte padded with zeros.
pub fn pack(bits: &Vec<bool>, out: &mut Vec<u8>)
    ensures
        final(out)@ == old(out)@ + pack_bits(bits@),
{
    let ghost head = old(out)@;
    let ghost s = bits@;
    let n = bits.len();
    let nbytes = n / 8 + if n % 8 == 0 { 0 } else { 1 };
    assert(nbytes == (n + 7) / 8);
    let mut k: usize = 0;
    proof {
        lemma_two_pow_values();
    }
    while k < nbytes
        invariant
            k <= nbytes == (n + 7) / 8,
            n == s.len(),
            s == bits@,
            two_pow(8) == 256,
            out@ == head + pack_bits(s).take(k as int),
        decreases nbytes - k,
    {
        let mut byte: u8 = 0;
        let mut weight: u16 = 1;
        let mut t: usize = 0;
        while t < 8
            invariant
                t <= 8,
                k < nbytes == (n + 7) / 8,
                n == s.len(),
                s == bits@,
                byte as nat == byte_of(s, 8 * k, t as nat),
                weight as nat == two_pow(t as nat),
            decreases 8 - t,
        {
            proof {
                lemma_byte_of_bound(s, 8 * k, (t + 1) as nat);
                lemma_two_pow_add(t as nat, 0);
                reveal_with_fuel(two_pow, 9);
            }
            if 8 * k + t < n && bits[8 * k + t] {
                byte = byte + weight as u8;
            }
            weight = weight * 2;
            t = t + 1;
        }
        out.push(byte);
        proof {
            assert(pack_bits(s).take(k + 1) =~= pack_bits(s).take(k as int).push(byte));
        }
        k = k + 1;
    }
    assert(pack_bits(s).take(nbytes as int) =~= pack_bits(s));
}

} // verus!
