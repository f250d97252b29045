//! The column index: for each document, the range of value ordinals that
//! hold its values.
//!
//! A full index gives document `d` the single ordinal `d`. Optional and
//! multivalued indexes keep `num_docs + 1` offsets: document `d` owns
//! `offsets[d] .. offsets[d + 1]`, at most one ordinal when optional.
//!
//! Layout: `<shape: u8><num_docs: u32>` then, unless full, the offsets as `u32`s.
use vstd::prelude::*;
use crate::error::ColumnarError;
use crate::le::{
    le_bytes, le_value, lemma_le_bytes_len, lemma_le_round_trip, lemma_pow256_values, read_u32,
    write_u32,
};

verus! {

/// How many values a document may have.
#[derive(Debug, Clone, Copy, PartialEq, Eq, Structural)]
pub enum Cardinality {
    /// Exactly one value per document.
    Full,
    /// Zero or one value per document.
    Optional,
    /// Any number of values per document.
    Multivalued,
}

pub open spec fn kind_tag(k: Cardinality) -> u8 {
    match k {
        Cardinality::Full => 0,
        Cardinality::Optional => 1,
        Cardinality::Multivalued => 2,
    }
}

pub open spec fn kind_of_tag(t: u8) -> Option<Cardinality> {
    if t == 0 {
        Some(Cardinality::Full)
    } else if t == 1 {
        Some(Cardinality::Optional)
    } else if t == 2 {
        Some(Cardinality::Multivalued)
    } else {
        None
    }
}

/// Offsets that describe `num_docs` documents of the given shape.
pub open spec fn offsets_ok(kind: Cardinality, num_docs: nat, o: Seq<u32>) -> bool {
    match kind {
        Cardinality::Full => o.len() == 0,
        _ => {
            &&& o.len() == num_docs + 1
            &&& o[0] == 0
            &&& forall|i: int| 0 <= i < num_docs ==> #[trigger] o[i] <= o[i + 1]
            &&& kind == Cardinality::Optional ==> forall|i: int|
                0 <= i < num_docs ==> o[i + 1] - #[trigger] o[i] <= 1
        },
    }
}

/// A column index, opened or about to be written.
pub struct ColumnIndex {
    pub kind: Cardinality,
    pub num_docs: u32,
    /// Empty when full.
    pub offsets: Vec<u32>,
}

/// The offsets, four bytes each.
pub open spec fn words32(o: Seq<u32>) -> Seq<u8>
    decreases o.len(),
{
    if o.len() == 0 {
        Seq::empty()
    } else {
        words32(o.drop_last()) + le_bytes(o.last() as nat, 4)
    }
}

/// The index segment written for an index of the given shape.
pub open spec fn index_bytes(kind: Cardinality, num_docs: nat, o: Seq<u32>) -> Seq<u8> {
    seq![kind_tag(kind)] + le_bytes(num_docs, 4) + words32(o)
}

/// Reads an index segment that fills `b` exactly.
pub open spec fn parse_index(b: Seq<u8>) -> Option<(Cardinality, nat, Seq<u32>)> {
    if b.len() < 5 {
        None
    } else {
        let n = le_value(b.subrange(1, 5));
        match kind_of_tag(b[0]) {
            None => None,
            Some(kind) => {
                let count: nat = if kind == Cardinality::Full { 0 } else { n + 1 };
                let o = Seq::new(count, |i: int| le_value(b.subrange(5 + 4 * i, 9 + 4 * i)) as u32);
                if b.len() == 5 + 4 * count && offsets_ok(kind, n, o) {
                    Some((kind, n, o))
                } else {
                    None
                }
            },
        }
    }
}

/// The number of value ordinals an index of this shape hands out.
pub open spec fn model_num_vals(kind: Cardinality, num_docs: nat, o: Seq<u32>) -> nat {
    if kind == Cardinality::Full {
        num_docs
    } else {
        o[num_docs as int] as nat
    }
}

impl ColumnIndex {
    pub open spec fn wf(&self) -> bool {
        offsets_ok(self.kind, self.num_docs as nat, self.offsets@)
    }

    /// The number of value ordinals the index hands out.
    pub open spec fn spec_num_vals(&self) -> nat {
        model_num_vals(self.kind, self.num_docs as nat, self.offsets@)
    }

    /// The ordinals of document `doc`: `start .. end`.
    pub open spec fn spec_range(&self, doc: int) -> (nat, nat) {
        if self.kind == Cardinality::Full {
            (doc as nat, (doc + 1) as nat)
        } else {
            (self.offsets@[doc] as nat, self.offsets@[doc + 1] as nat)
        }
    }

    pub open spec fn spec_bytes(&self) -> Seq<u8> {
        index_bytes(self.kind, self.num_docs as nat, self.offsets@)
    }

    /// An index in which document `d` has the one value `d`.
    pub fn full(num_docs: u32) -> (r: ColumnIndex)
        ensures
            r.wf(),
            r.kind == Cardinality::Full,
            r.num_docs == num_docs,
    {
        ColumnIndex { kind: Cardinality::Full, num_docs, offsets: Vec::new() }
    }

    /// An index of shape `kind` from its offsets: `None` where they do not
    /// start at zero, decrease, or (when optional) step by more than one.
    pub fn from_offsets(kind: Cardinality, offsets: Vec<u32>) -> (r: Option<ColumnIndex>)
        ensures
            kind == Cardinality::Full ==> r is None,
            kind != Cardinality::Full ==> (r is Some <==> (1 <= offsets@.len() <= u32::MAX + 1
                && offsets_ok(kind, (offsets@.len() - 1) as nat, offsets@))),
            r matches Some(idx) ==> idx.wf() && idx.kind == kind && idx.offsets@ == offsets@
                && idx.num_docs == offsets@.len() - 1,
    {
        if kind == Cardinality::Full || offsets.len() == 0 || offsets.len() - 1 > 0xffff_ffff {
            return None;
        }
        let num_docs = (offsets.len() - 1) as u32;
        if check_offsets(kind, num_docs, &offsets) {
            Some(ColumnIndex { kind, num_docs, offsets })
        } else {
            None
        }
    }

    pub fn num_docs(&self) -> (r: u32)
        ensures
            r == self.num_docs,
    {
        self.num_docs
    }

    /// The number of values over all documents.
    pub fn num_vals(&self) -> (r: u32)
        requires
            self.wf(),
        ensures
            r == self.spec_num_vals(),
    {
        if self.kind == Cardinality::Full {
            self.num_docs
        } else {
            self.offsets[self.num_docs as usize]
        }
    }

    /// The ordinals `start .. end` of the values of document `doc`.
    pub fn value_range(&self, doc: u32) -> (r: (u32, u32))
        requires
            self.wf(),
            doc < self.num_docs,
        ensures
            r.0 == self.spec_range(doc as int).0,
            r.1 == self.spec_range(doc as int).1,
            r.0 <= r.1 <= self.spec_num_vals(),
    {
        if self.kind == Cardinality::Full {
            (doc, doc + 1)
        } else {
            proof {
                self.lemma_offsets_bounded(doc as int + 1);
            }
            (self.offsets[doc as usize], self.offsets[doc as usize + 1])
        }
    }

    proof fn lemma_offsets_bounded(&self, i: int)
        requires
            self.wf(),
            self.kind != Cardinality::Full,
            0 <= i <= self.num_docs,
        ensures
            self.offsets@[i] <= self.offsets@[self.num_docs as int],
        decreases self.num_docs - i,
    {
        if i < self.num_docs {
            self.lemma_offsets_bounded(i + 1);
        }
    }

    /// Appends the index segment and gives the number of bytes written.
    pub fn serialize(&self, out: &mut Vec<u8>) -> (r: usize)
        ensures
            final(out)@ == old(out)@ + self.spec_bytes(),
            r == self.spec_bytes().len(),
    {
        let ghost head = old(out)@;
        let start = out.len();
        out.push(match self.kind {
            Cardinality::Full => 0u8,
            Cardinality::Optional => 1u8,
            Cardinality::Multivalued => 2u8,
        });
        write_u32(out, self.num_docs);
        let ghost mid = out@;
        let n = self.offsets.len();
        let mut i: usize = 0;
        while i < n
            invariant
                i <= n == self.offsets@.len(),
                out@ == mid + words32(self.offsets@.take(i as int)),
            decreases n - i,
        {
            write_u32(out, self.offsets[i]);
            assert(self.offsets@.take(i + 1).drop_last() =~= self.offsets@.take(i as int));
            i = i + 1;
        }
        assert(self.offsets@.take(n as int) =~= self.offsets@);
        assert(final(out)@ =~= head + self.spec_bytes());
        out.len() - start
    }
}

/// Whether `o` are offsets of `num_docs` documents of shape `kind`.
fn check_offsets(kind: Cardinality, num_docs: u32, o: &Vec<u32>) -> (r: bool)
    requires
        kind != Cardinality::Full,
    ensures
        r == offsets_ok(kind, num_docs as nat, o@),
{
    if o.len() as u64 != num_docs as u64 + 1 || o[0] != 0 {
        return false;
    }
    let mut i: usize = 0;
    while i < num_docs as usize
        invariant
            o@.len() == num_docs + 1,
            i <= num_docs,
            forall|k: int| 0 <= k < i ==> #[trigger] o@[k] <= o@[k + 1],
            kind == Cardinality::Optional ==> forall|k: int| 0 <= k < i ==> o@[k + 1] - #[trigger] o@[k] <= 1,
        decreases num_docs - i,
    {
        if o[i] > o[i + 1] {
            return false;
        }
        if kind == Cardinality::Optional && o[i + 1] - o[i] > 1 {
            return false;
        }
        i = i + 1;
    }
    true
}

proof fn lemma_words32(o: Seq<u32>, i: int)
    requires
        0 <= i < o.len(),
    ensures
        words32(o).len() == 4 * o.len(),
        words32(o).subrange(4 * i, 4 * i + 4) == le_bytes(o[i] as nat, 4),
    decreases o.len(),
{
    lemma_words32_len(o);
    lemma_words32_len(o.drop_last());
    lemma_le_bytes_len(o.last() as nat, 4);
    if i < o.len() - 1 {
        lemma_words32(o.drop_last(), i);
        assert(words32(o).subrange(4 * i, 4 * i + 4) =~= words32(o.drop_last()).subrange(4 * i, 4 * i + 4));
    } else {
        assert(words32(o).subrange(4 * i, 4 * i + 4) =~= le_bytes(o.last() as nat, 4));
    }
}

proof fn lemma_words32_len(o: Seq<u32>)
    ensures
        words32(o).len() == 4 * o.len(),
    decreases o.len(),
{
    if o.len() > 0 {
        lemma_words32_len(o.drop_last());
        lemma_le_bytes_len(o.last() as nat, 4);
    }
}

/// Opening the segment written for a well-formed index gives the index back.
pub proof fn lemma_index_round_trip(kind: Cardinality, num_docs: u32, o: Seq<u32>)
    requires
        offsets_ok(kind, num_docs as nat, o),
    ensures
        parse_index(index_bytes(kind, num_docs as nat, o)) == Some((kind, num_docs as nat, o)),
{
    let b = index_bytes(kind, num_docs as nat, o);
    lemma_pow256_values();
    lemma_le_round_trip(num_docs as nat, 4);
    lemma_words32_len(o);
    assert(b.subrange(1, 5) =~= le_bytes(num_docs as nat, 4));
    let count: nat = if kind == Cardinality::Full { 0 } else { num_docs as nat + 1 };
    let parsed = Seq::new(count, |i: int| le_value(b.subrange(5 + 4 * i, 9 + 4 * i)) as u32);
    assert forall|i: int| 0 <= i < count implies parsed[i] == o[i] by {
        lemma_words32(o, i);
        assert(b.subrange(5 + 4 * i, 9 + 4 * i) =~= words32(o).subrange(4 * i, 4 * i + 4));
        lemma_le_round_trip(o[i] as nat, 4);
    }
    assert(parsed =~= o);
}

/// Opens an index segment that fills `data` exactly.
pub fn open_column_index(data: &[u8]) -> (r: Result<ColumnIndex, ColumnarError>)
    ensures
        match parse_index(data@) {
            None => r is Err,
            Some((kind, n, o)) => r matches Ok(idx) && idx.wf() && idx.kind == kind
                && idx.num_docs == n && idx.offsets@ == o,
        },
        data@.len() >= 5 && kind_of_tag(data@[0]) is None ==> r == Err::<ColumnIndex, ColumnarError>(
            ColumnarError::UnknownIndexKind(data@[0]),
        ),
{
    let len = data.len();
    if len < 5 {
        return Err(ColumnarError::Truncated);
    }
    let tag = data[0];
    let num_docs = read_u32(data, 1);
    let kind = if tag == 0 {
        Cardinality::Full
    } else if tag == 1 {
        Cardinality::Optional
    } else if tag == 2 {
        Cardinality::Multivalued
    } else {
        return Err(ColumnarError::UnknownIndexKind(tag));
    };
    let wanted: u64 = if tag == 0 { 0 } else { num_docs as u64 + 1 };
    if (len as u64) - 5 != 4 * wanted {
        return Err(ColumnarError::Malformed);
    }
    let count = wanted as usize;
    let ghost parsed = Seq::new(count as nat, |i: int| le_value(data@.subrange(5 + 4 * i, 9 + 4 * i)) as u32);
    let mut offsets: Vec<u32> = Vec::new();
    let mut i: usize = 0;
    while i < count
        invariant
            i <= count,
            len == data@.len() == 5 + 4 * count,
            parsed == Seq::new(count as nat, |i: int| le_value(data@.subrange(5 + 4 * i, 9 + 4 * i)) as u32),
            offsets@ == parsed.take(i as int),
        decreases count - i,
    {
        let v = read_u32(data, 5 + 4 * i);
        offsets.push(v);
        assert(parsed.take(i + 1) =~= parsed.take(i as int).push(parsed[i as int]));
        i = i + 1;
    }
    assert(parsed.take(count as int) =~= parsed);
    if tag != 0 && !check_offsets(kind, num_docs, &offsets) {
        return Err(ColumnarError::Malformed);
    }
    Ok(ColumnIndex { kind, num_docs, offsets })
}

} // verus!
