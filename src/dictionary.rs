//! The term dictionary: distinct byte strings in strictly increasing order,
//! term ordinal `i` naming the `i`-th.
//!
//! Layout: `<num_terms: u32>` then each term as `<len: u32><bytes>`.
use vstd::prelude::*;
use crate::error::ColumnarError;
use crate::le::{
    le_bytes, le_value, lemma_le_round_trip, lemma_pow256_values, read_u32,
    write_u32,
};

verus! {

/// Byte strings in lexicographic order, a proper prefix first.
pub open spec fn lex_lt(a: Seq<u8>, b: Seq<u8>) -> bool
    decreases a.len(),
{
    if a.len() == 0 {
        b.len() > 0
    } else if b.len() == 0 {
        false
    } else if a[0] != b[0] {
        a[0] < b[0]
    } else {
        lex_lt(a.drop_first(), b.drop_first())
    }
}

/// Each term comes strictly after the one before it.
pub open spec fn strictly_sorted(terms: Seq<Seq<u8>>) -> bool {
    forall|i: int| 0 <= i < terms.len() - 1 ==> lex_lt(#[trigger] terms[i], terms[i + 1])
}

/// Terms that a dictionary can hold and write.
pub open spec fn terms_ok(terms: Seq<Seq<u8>>) -> bool {
    &&& strictly_sorted(terms)
    &&& terms.len() <= u32::MAX
    &&& forall|i: int| 0 <= i < terms.len() ==> #[trigger] terms[i].len() <= u32::MAX
}

/// The terms, each after its length.
pub open spec fn terms_bytes(terms: Seq<Seq<u8>>) -> Seq<u8>
    decreases terms.len(),
{
    if terms.len() == 0 {
        Seq::empty()
    } else {
        le_bytes(terms[0].len(), 4) + terms[0] + terms_bytes(terms.drop_first())
    }
}

/// The dictionary segment written for `terms`.
pub open spec fn dictionary_bytes(terms: Seq<Seq<u8>>) -> Seq<u8> {
    le_bytes(terms.len(), 4) + terms_bytes(terms)
}

/// Reads `n` length-prefixed terms that fill `b` exactly.
pub open spec fn parse_terms(b: Seq<u8>, n: nat) -> Option<Seq<Seq<u8>>>
    decreases n,
{
    if n == 0 {
        if b.len() == 0 { Some(Seq::empty()) } else { None }
    } else if b.len() < 4 {
        None
    } else {
        let l = le_value(b.subrange(0, 4)) as int;
        if b.len() < 4 + l {
            None
        } else {
            match parse_terms(b.skip(4 + l), (n - 1) as nat) {
                None => None,
                Some(rest) => Some(seq![b.subrange(4, 4 + l)] + rest),
            }
        }
    }
}

/// Reads a dictionary segment that fills `b` exactly; `None` where it is
/// malformed or its terms are not strictly increasing.
pub open spec fn parse_dictionary(b: Seq<u8>) -> Option<Seq<Seq<u8>>> {
    if b.len() < 4 {
        None
    } else {
        match parse_terms(b.skip(4), le_value(b.subrange(0, 4))) {
            Some(terms) => if strictly_sorted(terms) { Some(terms) } else { None },
            None => None,
        }
    }
}

pub proof fn lemma_terms_round_trip(terms: Seq<Seq<u8>>)
    requires
        forall|i: int| 0 <= i < terms.len() ==> #[trigger] terms[i].len() <= u32::MAX,
    ensures
        parse_terms(terms_bytes(terms), terms.len()) == Some(terms),
    decreases terms.len(),
{
    if terms.len() > 0 {
        let t = terms[0];
        let rest = terms.drop_first();
        assert forall|i: int| 0 <= i < rest.len() implies #[trigger] rest[i].len() <= u32::MAX by {
            assert(rest[i] == terms[i + 1]);
        }
        lemma_terms_round_trip(rest);
        lemma_pow256_values();
        lemma_le_round_trip(t.len(), 4);
        let b = terms_bytes(terms);
        assert(b.subrange(0, 4) =~= le_bytes(t.len(), 4));
        assert(b.skip(4 + t.len() as int) =~= terms_bytes(rest));
        assert(b.subrange(4, 4 + t.len() as int) =~= t);
        assert(seq![t] + rest =~= terms);
    }
}

/// Opening the segment written for sorted terms gives the terms back.
pub proof fn lemma_dictionary_round_trip(terms: Seq<Seq<u8>>)
    requires
        terms_ok(terms),
    ensures
        parse_dictionary(dictionary_bytes(terms)) == Some(terms),
{
    lemma_pow256_values();
    lemma_le_round_trip(terms.len(), 4);
    let b = dictionary_bytes(terms);
    assert(b.subrange(0, 4) =~= le_bytes(terms.len(), 4));
    assert(b.skip(4) =~= terms_bytes(terms));
    lemma_terms_round_trip(terms);
}

/// Whether `a` comes strictly before `b`.
pub fn term_lt(a: &Vec<u8>, b: &Vec<u8>) -> (r: bool)
    ensures
        r == lex_lt(a@, b@),
{
    let mut i: usize = 0;
    assert(a@.skip(0) =~= a@);
    assert(b@.skip(0) =~= b@);
    while i < a.len() && i < b.len()
        invariant
            i <= a@.len(),
            i <= b@.len(),
            lex_lt(a@, b@) == lex_lt(a@.skip(i as int), b@.skip(i as int)),
        decreases a@.len() - i,
    {
        proof {
            let x = a@.skip(i as int);
            let y = b@.skip(i as int);
            assert(x.drop_first() =~= a@.skip(i + 1));
            assert(y.drop_first() =~= b@.skip(i + 1));
        }
        if a[i] != b[i] {
            return a[i] < b[i];
        }
        i = i + 1;
    }
    i < b.len()
}

/// A read-only table of sorted, distinct terms.
pub struct Dictionary {
    pub terms: Vec<Vec<u8>>,
}

impl View for Dictionary {
    type V = Seq<Seq<u8>>;

    open spec fn view(&self) -> Seq<Seq<u8>> {
        Seq::new(self.terms@.len(), |i: int| self.terms@[i]@)
    }
}

impl Dictionary {
    pub open spec fn wf(&self) -> bool {
        terms_ok(self@)
    }

    /// A dictionary of `terms`: `None` where they are not strictly
    /// increasing, or too many or too long to be written.
    pub fn from_sorted_terms(terms: Vec<Vec<u8>>) -> (r: Option<Dictionary>)
        ensures
            r is Some <==> terms_ok(Seq::new(terms@.len(), |i: int| terms@[i]@)),
            r matches Some(d) ==> d.wf() && d@ == Seq::new(terms@.len(), |i: int| terms@[i]@),
    {
        let ghost view = Seq::new(terms@.len(), |i: int| terms@[i]@);
        let n = terms.len();
        if n as u64 > 0xffff_ffff {
            return None;
        }
        let mut i: usize = 0;
        while i < n
            invariant
                i <= n == terms@.len(),
                view == Seq::new(terms@.len(), |i: int| terms@[i]@),
                forall|k: int| 0 <= k < i ==> #[trigger] view[k].len() <= u32::MAX,
                forall|k: int| 0 <= k < i - 1 ==> lex_lt(#[trigger] view[k], view[k + 1]),
            decreases n - i,
        {
            if terms[i].len() as u64 > 0xffff_ffff {
                assert(view[i as int].len() > u32::MAX);
                return None;
            }
            if i > 0 && !term_lt(&terms[i - 1], &terms[i]) {
                assert(!lex_lt(view[i - 1], view[(i - 1) + 1]));
                return None;
            }
            i = i + 1;
        }
        Some(Dictionary { terms })
    }

    /// The number of terms.
    pub fn num_terms(&self) -> (r: usize)
        ensures
            r == self@.len(),
    {
        self.terms.len()
    }

    /// The term of ordinal `ord`.
    pub fn ord_to_term(&self, ord: u64) -> (r: &Vec<u8>)
        requires
            ord < self@.len(),
        ensures
            r@ == self@[ord as int],
    {
        let n = self.terms.len();
        &self.terms[ord as usize]
    }

    pub open spec fn spec_bytes(&self) -> Seq<u8> {
        dictionary_bytes(self@)
    }

    /// Appends the dictionary segment and gives the number of bytes written.
    pub fn serialize(&self, out: &mut Vec<u8>) -> (r: usize)
        requires
            self.wf(),
        ensures
            final(out)@ == old(out)@ + self.spec_bytes(),
            r == self.spec_bytes().len(),
    {
        let start = out.len();
        let n = self.terms.len();
        write_u32(out, n as u32);
        let ghost all = self@;
        assert(all.skip(0) =~= all);
        let mut i: usize = 0;
        while i < n
            invariant
                i <= n == self.terms@.len(),
                all == self@,
                terms_ok(all),
                old(out)@ + dictionary_bytes(all) == out@ + terms_bytes(all.skip(i as int)),
            decreases n - i,
        {
            let ghost rest = all.skip(i as int);
            let ghost before = out@;
            let t = &self.terms[i];
            assert(all[i as int].len() <= u32::MAX);
            write_u32(out, t.len() as u32);
            let mut k: usize = 0;
            let ghost mid = out@;
            while k < t.len()
                invariant
                    k <= t@.len(),
                    out@ == mid + t@.take(k as int),
                decreases t@.len() - k,
            {
                out.push(t[k]);
                assert(t@.take(k + 1) =~= t@.take(k as int).push(t@[k as int]));
                k = k + 1;
            }
            proof {
                assert(t@.take(t@.len() as int) =~= t@);
                assert(rest.drop_first() =~= all.skip(i + 1));
                assert(rest[0] == t@);
                assert(before + terms_bytes(rest) =~= out@ + terms_bytes(all.skip(i + 1)));
            }
            i = i + 1;
        }
        assert(all.skip(n as int) =~= Seq::<Seq<u8>>::empty());
        assert(final(out)@ =~= old(out)@ + dictionary_bytes(all));
        out.len() - start
    }

    /// Opens a dictionary segment that fills `data` exactly.
    pub fn from_bytes(data: &[u8]) -> (r: Result<Dictionary, ColumnarError>)
        ensures
            match parse_dictionary(data@) {
                None => r is Err,
                Some(terms) => r matches Ok(d) && d@ == terms && d.wf(),
            },
    {
        let len = data.len();
        if len < 4 {
            return Err(ColumnarError::Truncated);
        }
        let n = read_u32(data, 0);
        let mut terms: Vec<Vec<u8>> = Vec::new();
        let mut pos: usize = 4;
        let mut left: u32 = n;
        let ghost total = parse_terms(data@.skip(4), n as nat);
        assert(data@.skip(4) =~= data@.subrange(4, len as int));
        while left > 0
            invariant
                4 <= pos <= len == data@.len(),
                left <= n,
                n == le_value(data@.subrange(0, 4)),
                total == parse_terms(data@.skip(4), n as nat),
                total == prepend_terms(
                    Seq::new(terms@.len(), |i: int| terms@[i]@),
                    parse_terms(data@.subrange(pos as int, len as int), left as nat),
                ),
                terms@.len() + left == n,
                forall|k: int| 0 <= k < terms@.len() ==> #[trigger] terms@[k]@.len() <= u32::MAX,
            decreases left,
        {
            let ghost here = data@.subrange(pos as int, len as int);
            let ghost before = Seq::new(terms@.len(), |i: int| terms@[i]@);
            if len - pos < 4 {
                return Err(ColumnarError::Truncated);
            }
            let l = read_u32(data, pos);
            assert(here.subrange(0, 4) =~= data@.subrange(pos as int, pos + 4));
            if ((len - pos - 4) as u64) < l as u64 {
                return Err(ColumnarError::LengthOutOfBounds);
            }
            let end = pos + 4 + l as usize;
            let mut t: Vec<u8> = Vec::new();
            let mut k: usize = pos + 4;
            while k < end
                invariant
                    pos + 4 <= k <= end <= len == data@.len(),
                    t@ == data@.subrange(pos + 4, k as int),
                decreases end - k,
            {
                t.push(data[k]);
                assert(data@.subrange(pos + 4, k + 1) =~= t@);
                k = k + 1;
            }
            terms.push(t);
            proof {
                assert(here.subrange(4, 4 + l) =~= data@.subrange(pos + 4, end as int));
                assert(here.skip(4 + l) =~= data@.subrange(end as int, len as int));
                let now = Seq::new(terms@.len(), |i: int| terms@[i]@);
                assert(now =~= before.push(data@.subrange(pos + 4, end as int)));
                let tail = parse_terms(data@.subrange(end as int, len as int), (left - 1) as nat);
                if let Some(x) = tail {
                    assert(before + (seq![data@.subrange(pos + 4, end as int)] + x) =~= now + x);
                }
            }
            pos = end;
            left = left - 1;
        }
        let ghost got = Seq::new(terms@.len(), |i: int| terms@[i]@);
        if pos != len {
            return Err(ColumnarError::Malformed);
        }
        assert(got + Seq::<Seq<u8>>::empty() =~= got);
        assert(data@.subrange(len as int, len as int) =~= Seq::<u8>::empty());
        assert(total == Some(got));
        let d = Dictionary { terms };
        let mut i: usize = 1;
        while i < d.terms.len()
            invariant
                1 <= i,
                got == d@,
                d@.len() == n,
                data@.len() >= 4,
                total == Some(got),
                total == parse_terms(data@.skip(4), le_value(data@.subrange(0, 4))),
                forall|k: int| 0 <= k < got.len() ==> #[trigger] got[k].len() <= u32::MAX,
                forall|k: int| 0 <= k < i - 1 ==> lex_lt(#[trigger] got[k], got[k + 1]),
            decreases d@.len() - i,
        {
            if !term_lt(&d.terms[i - 1], &d.terms[i]) {
                assert(!lex_lt(got[i - 1], got[(i - 1) + 1]));
                return Err(ColumnarError::Malformed);
            }
            i = i + 1;
        }
        Ok(d)
    }
}

pub open spec fn prepend_terms(v: Seq<Seq<u8>>, o: Option<Seq<Seq<u8>>>) -> Option<Seq<Seq<u8>>> {
    match o {
        None => None,
        Some(rest) => Some(v + rest),
    }
}

} // verus!
