//! A column: a column index composed with the values it points into.
use vstd::prelude::*;
use crate::index::ColumnIndex;

verus! {

/// One field's values over the documents of a segment.
pub struct Column<T> {
    pub idx: ColumnIndex,
    pub values: Vec<T>,
}

impl<T: Copy> Column<T> {
    /// Every ordinal the index hands out points at a value.
    pub open spec fn wf(&self) -> bool {
        &&& self.idx.wf()
        &&& self.idx.spec_num_vals() <= self.values@.len()
    }

    /// The values of document `doc`.
    pub open spec fn spec_doc_values(&self, doc: int) -> Seq<T> {
        let (start, end) = self.idx.spec_range(doc);
        self.values@.subrange(start as int, end as int)
    }

    pub fn num_docs(&self) -> (r: u32)
        ensures
            r == self.idx.num_docs,
    {
        self.idx.num_docs
    }

    pub fn num_vals(&self) -> (r: usize)
        ensures
            r == self.values@.len(),
    {
        self.values.len()
    }

    /// The value at ordinal `ord`.
    pub fn get_val(&self, ord: u32) -> (r: T)
        requires
            ord < self.values@.len(),
        ensures
            r == self.values@[ord as int],
    {
        self.values[ord as usize]
    }

    /// The values of document `doc`, in ordinal order.
    pub fn values_for_doc(&self, doc: u32) -> (r: Vec<T>)
        requires
            self.wf(),
            doc < self.idx.num_docs,
        ensures
            r@ == self.spec_doc_values(doc as int),
    {
        let (start, end) = self.idx.value_range(doc);
        let mut out: Vec<T> = Vec::new();
        let mut k: u32 = start;
        while k < end
            invariant
                start <= k <= end <= self.values@.len(),
                out@ == self.values@.subrange(start as int, k as int),
            decreases end - k,
        {
            out.push(self.values[k as usize]);
            assert(self.values@.subrange(start as int, k + 1) =~= out@);
            k = k + 1;
        }
        out
    }

    /// The first value of document `doc`, if it has one.
    pub fn first(&self, doc: u32) -> (r: Option<T>)
        requires
            self.wf(),
            doc < self.idx.num_docs,
        ensures
            self.spec_doc_values(doc as int).len() == 0 ==> r is None,
            self.spec_doc_values(doc as int).len() > 0 ==> r == Some(self.spec_doc_values(doc as int)[0]),
    {
        let (start, end) = self.idx.value_range(doc);
        if start < end {
            Some(self.values[start as usize])
        } else {
            None
        }
    }
}

} // verus!
