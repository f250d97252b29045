//! Lossless, order-preserving maps of value types onto the unsigned domains
//! the codecs work in.
use vstd::prelude::*;

verus! {

/// A type whose values map one to one, and in order, onto `u64`.
pub trait MonotonicallyMappableToU64: Sized + Copy {
    spec fn spec_to_u64(self) -> u64;

    /// The order of the values themselves.
    spec fn precedes(self, other: Self) -> bool;

    /// The map keeps order and loses nothing.
    proof fn lemma_monotonic(a: Self, b: Self)
        ensures
            a.precedes(b) <==> a.spec_to_u64() < b.spec_to_u64(),
            a == b <==> a.spec_to_u64() == b.spec_to_u64(),
    ;

    fn to_u64(self) -> (r: u64)
        ensures
            r == self.spec_to_u64(),
    ;

    /// Whether some value maps to `v`.
    fn in_image(v: u64) -> (r: bool)
        ensures
            r <==> exists|x: Self| #[trigger] x.spec_to_u64() == v,
    ;

    /// The value that maps to `v`, for `v` in the image of the map.
    fn from_u64(v: u64) -> (r: Self)
        requires
            exists|x: Self| x.spec_to_u64() == v,
        ensures
            r.spec_to_u64() == v,
    ;
}

/// A type whose values map one to one, and in order, onto `u128`.
pub trait MonotonicallyMappableToU128: Sized + Copy {
    spec fn spec_to_u128(self) -> u128;

    /// The order of the values themselves.
    spec fn precedes_wide(self, other: Self) -> bool;

    /// The map keeps order and loses nothing.
    proof fn lemma_monotonic(a: Self, b: Self)
        ensures
            a.precedes_wide(b) <==> a.spec_to_u128() < b.spec_to_u128(),
            a == b <==> a.spec_to_u128() == b.spec_to_u128(),
    ;

    fn to_u128(self) -> (r: u128)
        ensures
            r == self.spec_to_u128(),
    ;

    /// The value that maps to `v`, for `v` in the image of the map.
    fn from_u128(v: u128) -> (r: Self)
        requires
            exists|x: Self| x.spec_to_u128() == v,
        ensures
            r.spec_to_u128() == v,
    ;
}

impl MonotonicallyMappableToU64 for u64 {
    open spec fn spec_to_u64(self) -> u64 {
        self
    }

    open spec fn precedes(self, other: Self) -> bool {
        self < other
    }

    proof fn lemma_monotonic(a: Self, b: Self) {
    }

    fn to_u64(self) -> (r: u64) {
        self
    }

    fn in_image(v: u64) -> (r: bool) {
        assert(v.spec_to_u64() == v);
        true
    }

    fn from_u64(v: u64) -> (r: u64) {
        v
    }
}

/// Signed integers shift up by 2^63, so the least maps to zero.
impl MonotonicallyMappableToU64 for i64 {
    open spec fn spec_to_u64(self) -> u64 {
        (self + 0x8000_0000_0000_0000) as u64
    }

    open spec fn precedes(self, other: Self) -> bool {
        self < other
    }

    proof fn lemma_monotonic(a: Self, b: Self) {
    }

    fn to_u64(self) -> (r: u64) {
        if self >= 0 {
            self as u64 + 0x8000_0000_0000_0000
        } else {
            (self + 1 + i64::MAX) as u64
        }
    }

    fn in_image(v: u64) -> (r: bool) {
        let ghost x: i64 = (v - 0x8000_0000_0000_0000) as i64;
        assert(x.spec_to_u64() == v);
        true
    }

    fn from_u64(v: u64) -> (r: i64) {
        if v >= 0x8000_0000_0000_0000 {
            (v - 0x8000_0000_0000_0000) as i64
        } else {
            (v as i64 - i64::MAX) - 1
        }
    }
}

impl MonotonicallyMappableToU64 for bool {
    open spec fn spec_to_u64(self) -> u64 {
        if self { 1 } else { 0 }
    }

    open spec fn precedes(self, other: Self) -> bool {
        !self && other
    }

    proof fn lemma_monotonic(a: Self, b: Self) {
    }

    fn to_u64(self) -> (r: u64) {
        if self { 1 } else { 0 }
    }

    fn in_image(v: u64) -> (r: bool) {
        if v <= 1 {
            assert((v == 1).spec_to_u64() == v);
            true
        } else {
            assert forall|x: bool| #[trigger] x.spec_to_u64() != v by {
            }
            false
        }
    }

    fn from_u64(v: u64) -> (r: bool) {
        v == 1
    }
}

impl MonotonicallyMappableToU128 for u128 {
    open spec fn spec_to_u128(self) -> u128 {
        self
    }

    open spec fn precedes_wide(self, other: Self) -> bool {
        self < other
    }

    proof fn lemma_monotonic(a: Self, b: Self) {
    }

    fn to_u128(self) -> (r: u128) {
        self
    }

    fn from_u128(v: u128) -> (r: u128) {
        v
    }
}

impl MonotonicallyMappableToU128 for u64 {
    open spec fn spec_to_u128(self) -> u128 {
        self as u128
    }

    open spec fn precedes_wide(self, other: Self) -> bool {
        self < other
    }

    proof fn lemma_monotonic(a: Self, b: Self) {
    }

    fn to_u128(self) -> (r: u128) {
        self as u128
    }

    fn from_u128(v: u128) -> (r: u64) {
        v as u64
    }
}

/// Every number of `v` is the image of some value.
pub open spec fn all_in_image<T: MonotonicallyMappableToU64>(v: Seq<u64>) -> bool {
    forall|i: int| 0 <= i < v.len() ==> #[trigger] image_holds::<T>(v[i])
}

/// Some value maps to `v`.
pub open spec fn image_holds<T: MonotonicallyMappableToU64>(v: u64) -> bool {
    exists|x: T| #[trigger] x.spec_to_u64() == v
}

/// The images of a sequence of values.
pub open spec fn to_u64_seq<T: MonotonicallyMappableToU64>(s: Seq<T>) -> Seq<u64> {
    Seq::new(s.len(), |i: int| s[i].spec_to_u64())
}

/// The images of a sequence of values.
pub open spec fn to_u128_seq<T: MonotonicallyMappableToU128>(s: Seq<T>) -> Seq<u128> {
    Seq::new(s.len(), |i: int| s[i].spec_to_u128())
}

/// Maps every value onto `u64`.
pub fn map_to_u64<T: MonotonicallyMappableToU64>(values: &[T]) -> (r: Vec<u64>)
    ensures
        r@ == to_u64_seq(values@),
{
    let mut out: Vec<u64> = Vec::new();
    let mut i: usize = 0;
    while i < values.len()
        invariant
            i <= values@.len(),
            out@ == to_u64_seq(values@).take(i as int),
        decreases values@.len() - i,
    {
        out.push(values[i].to_u64());
        assert(to_u64_seq(values@).take(i + 1) =~= out@);
        i = i + 1;
    }
    assert(to_u64_seq(values@).take(i as int) =~= to_u64_seq(values@));
    out
}

/// The values that `v` are the images of; `None` where some number of `v`
/// is the image of no value.
pub fn map_from_u64<T: MonotonicallyMappableToU64>(v: &Vec<u64>) -> (r: Option<Vec<T>>)
    ensures
        r is Some <==> all_in_image::<T>(v@),
        r matches Some(got) ==> to_u64_seq(got@) == v@,
{
    let mut out: Vec<T> = Vec::new();
    let mut i: usize = 0;
    while i < v.len()
        invariant
            i <= v@.len(),
            out@.len() == i,
            forall|k: int| 0 <= k < i ==> #[trigger] out@[k].spec_to_u64() == v@[k],
            forall|k: int| 0 <= k < i ==> #[trigger] image_holds::<T>(v@[k]),
        decreases v@.len() - i,
    {
        if !T::in_image(v[i]) {
            assert(!image_holds::<T>(v@[i as int]));
            return None;
        }
        out.push(T::from_u64(v[i]));
        i = i + 1;
    }
    assert(to_u64_seq(out@) =~= v@);
    Some(out)
}

/// Maps every value onto `u128`.
pub fn map_to_u128<T: MonotonicallyMappableToU128>(values: &[T]) -> (r: Vec<u128>)
    ensures
        r@ == to_u128_seq(values@),
{
    let mut out: Vec<u128> = Vec::new();
    let mut i: usize = 0;
    while i < values.len()
        invariant
            i <= values@.len(),
            out@ == to_u128_seq(values@).take(i as int),
        decreases values@.len() - i,
    {
        out.push(values[i].to_u128());
        assert(to_u128_seq(values@).take(i + 1) =~= out@);
        i = i + 1;
    }
    assert(to_u128_seq(values@).take(i as int) =~= to_u128_seq(values@));
    out
}

} // verus!
