//! A bytes column: a dictionary of terms and a `u64` column of term
//! ordinals into it.
//!
//! Layout: `<dictionary><u64 column of ordinals><dictionary length: u32>`.
use std::sync::Arc;
use vstd::prelude::*;
use vstd::slice::slice_subrange;
use crate::column::Column;
use crate::dictionary::{parse_dictionary, terms_ok, lemma_dictionary_round_trip, Dictionary};
use crate::error::ColumnarError;
use crate::index::{Cardinality, ColumnIndex};
use crate::mapping::to_u64_seq;
use crate::serialize::{
    column_u64_error, frame_error,
    column_bytes_u64, framed, frameable, lemma_column_u64_round_trip, lemma_footer, open_column_u64,
    parse_column_u64, serialize_column_mappable_to_u64, split_framed, unframe, write_footer,
};

verus! {

/// Every ordinal names a term of a dictionary of `num_terms` terms.
pub open spec fn ordinals_below(v: Seq<u64>, num_terms: nat) -> bool {
    forall|i: int| 0 <= i < v.len() ==> #[trigger] v[i] < num_terms
}

/// A string or bytes column.
pub struct BytesColumn {
    pub dictionary: Arc<Dictionary>,
    pub term_ord_column: Column<u64>,
}

/// The blob written for a bytes column.
pub open spec fn column_bytes_terms(terms: Seq<Seq<u8>>, idx: ColumnIndex, ords: Seq<u64>) -> Seq<u8> {
    framed(crate::dictionary::dictionary_bytes(terms), column_bytes_u64(idx, ords))
}

/// What a bytes column blob holds: the terms, then the index's shape,
/// document count and offsets, and the term ordinals; `None` where it is
/// malformed or an ordinal names no term.
pub open spec fn parse_column_bytes(b: Seq<u8>) -> Option<
    (Seq<Seq<u8>>, Cardinality, nat, Seq<u32>, Seq<u64>),
> {
    match unframe(b) {
        None => None,
        Some((head, tail)) => match (parse_dictionary(head), parse_column_u64(tail)) {
            (Some(terms), Some((k, n, o, v))) => if ordinals_below(v, terms.len()) {
                Some((terms, k, n, o, v))
            } else {
                None
            },
            _ => None,
        },
    }
}

impl BytesColumn {
    pub open spec fn wf(&self) -> bool {
        &&& self.dictionary.wf()
        &&& self.term_ord_column.wf()
        &&& ordinals_below(self.term_ord_column.values@, self.dictionary@.len())
    }

    pub fn num_docs(&self) -> (r: u32)
        ensures
            r == self.term_ord_column.idx.num_docs,
    {
        self.term_ord_column.num_docs()
    }

    /// The number of terms of the dictionary.
    pub fn num_terms(&self) -> (r: usize)
        ensures
            r == self.dictionary@.len(),
    {
        self.dictionary.num_terms()
    }

    /// The term ordinals of document `doc`.
    pub fn term_ords(&self, doc: u32) -> (r: Vec<u64>)
        requires
            self.wf(),
            doc < self.term_ord_column.idx.num_docs,
        ensures
            r@ == self.term_ord_column.spec_doc_values(doc as int),
            forall|i: int| 0 <= i < r@.len() ==> #[trigger] r@[i] < self.dictionary@.len(),
    {
        let r = self.term_ord_column.values_for_doc(doc);
        let (s, e) = self.term_ord_column.idx.value_range(doc);
        assert forall|i: int| 0 <= i < r@.len() implies #[trigger] r@[i] < self.dictionary@.len() by {
            assert(r@[i] == self.term_ord_column.values@[s + i]);
        }
        r
    }

    /// The term of ordinal `ord`.
    pub fn ord_to_term(&self, ord: u64) -> (r: &Vec<u8>)
        requires
            ord < self.dictionary@.len(),
        ensures
            r@ == self.dictionary@[ord as int],
    {
        self.dictionary.ord_to_term(ord)
    }

    /// The first term of document `doc`, if it has one.
    pub fn first_term(&self, doc: u32) -> (r: Option<&Vec<u8>>)
        requires
            self.wf(),
            doc < self.term_ord_column.idx.num_docs,
        ensures
            ({
                let v = self.term_ord_column.spec_doc_values(doc as int);
                &&& v.len() == 0 ==> r is None
                &&& v.len() > 0 ==> (r matches Some(t) && t@ == self.dictionary@[v[0] as int])
            }),
    {
        let (s, e) = self.term_ord_column.idx.value_range(doc);
        if s < e {
            let ord = self.term_ord_column.get_val(s);
            assert(ord == self.term_ord_column.spec_doc_values(doc as int)[0]);
            Some(self.dictionary.ord_to_term(ord))
        } else {
            None
        }
    }
}

/// Whether every ordinal of `v` is below `num_terms`.
fn all_below(v: &Vec<u64>, num_terms: usize) -> (r: bool)
    ensures
        r == ordinals_below(v@, num_terms as nat),
{
    let n = v.len();
    let mut i: usize = 0;
    while i < n
        invariant
            i <= n == v@.len(),
            forall|k: int| 0 <= k < i ==> #[trigger] v@[k] < num_terms,
        decreases n - i,
    {
        if v[i] >= num_terms as u64 {
            return false;
        }
        i = i + 1;
    }
    true
}

/// Writes a bytes column: the dictionary, the column of term ordinals, and
/// the length of the dictionary.
pub fn serialize_column_bytes(
    dictionary: &Dictionary,
    column_index: &ColumnIndex,
    term_ords: &[u64],
    output: &mut Vec<u8>,
)
    requires
        dictionary.wf(),
        dictionary.spec_bytes().len() <= u32::MAX,
        term_ords@.len() <= u32::MAX,
        frameable(*column_index),
    ensures
        final(output)@ == old(output)@ + column_bytes_terms(dictionary@, *column_index, term_ords@),
{
    let ghost head = old(output)@;
    let num_bytes = dictionary.serialize(output);
    serialize_column_mappable_to_u64(column_index, term_ords, output);
    assert(to_u64_seq(term_ords@) =~= term_ords@);
    write_footer(output, num_bytes);
    assert(final(output)@ =~= head + column_bytes_terms(dictionary@, *column_index, term_ords@));
}

/// Opens a bytes column blob. An ordinal that names no term of the
/// dictionary fails the open.
#[verifier::spinoff_prover]
#[verifier::rlimit(30)]
pub fn open_column_bytes(data: &[u8]) -> (r: Result<BytesColumn, ColumnarError>)
    ensures
        frame_error(data@) matches Some(e) ==> r == Err::<BytesColumn, ColumnarError>(e),
        ({
            match unframe(data@) {
                Some((head, tail)) => parse_dictionary(head) is Some ==> (column_u64_error(tail) matches Some(
                    e,
                ) ==> r == Err::<BytesColumn, ColumnarError>(e)),
                None => true,
            }
        }),
        match parse_column_bytes(data@) {
            None => r is Err,
            Some((terms, k, n, o, v)) => r matches Ok(c) && c.wf() && c.dictionary@ == terms
                && c.term_ord_column.idx.kind == k && c.term_ord_column.idx.num_docs == n
                && c.term_ord_column.idx.offsets@ == o && c.term_ord_column.values@ == v,
        },
        ({
            match unframe(data@) {
                Some((head, tail)) => match (parse_dictionary(head), parse_column_u64(tail)) {
                    (Some(terms), Some((k, n, o, v))) => !ordinals_below(v, terms.len()) ==> r
                        == Err::<BytesColumn, ColumnarError>(ColumnarError::OrdinalOutOfRange),
                    _ => true,
                },
                None => true,
            }
        }),
{
    let l = split_framed(data)?;
    let len = data.len();
    let head = slice_subrange(data, 0, l);
    let tail = slice_subrange(data, l, len - 4);
    let dictionary = Dictionary::from_bytes(head)?;
    let term_ord_column = open_column_u64(tail)?;
    if !all_below(&term_ord_column.values, dictionary.num_terms()) {
        return Err(ColumnarError::OrdinalOutOfRange);
    }
    Ok(BytesColumn { dictionary: Arc::new(dictionary), term_ord_column })
}

/// Opening the blob written for a bytes column whose ordinals all name a
/// term gives back the terms, the index and the ordinals.
pub proof fn lemma_column_bytes_round_trip(terms: Seq<Seq<u8>>, idx: ColumnIndex, ords: Seq<u64>)
    requires
        terms_ok(terms),
        crate::dictionary::dictionary_bytes(terms).len() <= u32::MAX,
        idx.wf(),
        frameable(idx),
        idx.spec_num_vals() <= ords.len(),
        ords.len() <= u32::MAX,
        ordinals_below(ords, terms.len()),
    ensures
        parse_column_bytes(column_bytes_terms(terms, idx, ords)) == Some(
            (terms, idx.kind, idx.num_docs as nat, idx.offsets@, ords),
        ),
{
    lemma_footer(crate::dictionary::dictionary_bytes(terms), column_bytes_u64(idx, ords));
    lemma_dictionary_round_trip(terms);
    lemma_column_u64_round_trip(idx, ords);
}

/// Every ordinal of an opened bytes column names a term of its dictionary.
pub proof fn lemma_ordinals_bounded(c: BytesColumn, i: int)
    requires
        c.wf(),
        0 <= i < c.term_ord_column.values@.len(),
    ensures
        c.term_ord_column.values@[i] < c.dictionary@.len(),
{
}

} // verus!
