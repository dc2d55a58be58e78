//! Scanning a plain JSON array of score objects.
//!
//! This is the single-array form of the feed: the whole payload is one
//! array of flat objects, each carrying its raw bytes and, usually, an
//! `"id":` key at its top level.  A missing id is not an error here; the
//! record is yielded without one.

use vstd::prelude::*;

use crate::scan::{
    next_span, object_id, prev_span, records_of_spans, rspans_between, spans_between,
};

pub mod authorization;
pub mod client;
pub mod scores;

verus! {

/// A score id parsed out of a byte run.
#[derive(Clone, Copy, PartialEq, Eq, Debug)]
pub struct ScoreId(pub u64);

impl ScoreId {
    /// Parses the id written at the start of `bytes`: spaces are
    /// skipped, then a non-empty digit run is read.
    pub fn try_parse(bytes: &[u8]) -> (r: Option<ScoreId>)
        ensures
            ({
                match crate::digits::scan_u64_spec(bytes@, 0) {
                    Some(v) => r == Some(ScoreId(v)),
                    None => r is None,
                }
            }),
    {
        match crate::digits::scan_u64(bytes, 0) {
            Some(v) => Some(ScoreId(v)),
            None => None,
        }
    }
}

/// One object scanned out of the array: its raw bytes, re-emitted
/// verbatim, and its id if it carried one.
pub struct Score {
    bytes: Vec<u8>,
    pub id: Option<ScoreId>,
}

impl Score {
    /// The (raw bytes, id) pair this record stands for.
    pub closed spec fn model(self) -> (Seq<u8>, Option<u64>) {
        (
            self.bytes@,
            match self.id {
                Some(s) => Some(s.0),
                None => None,
            },
        )
    }

    /// The raw bytes of the object, exactly as they stood in the buffer.
    pub fn as_bytes(&self) -> (r: &[u8])
        ensures
            r@ == self.model().0,
    {
        self.bytes.as_slice()
    }
}

/// A buffer holding a JSON array of score objects.
pub struct Scores {
    bytes: Vec<u8>,
}

impl View for Scores {
    type V = Seq<u8>;

    closed spec fn view(&self) -> Seq<u8> {
        self.bytes@
    }
}

impl Scores {
    pub fn new(bytes: Vec<u8>) -> (s: Scores)
        ensures
            s@ == bytes@,
    {
        Scores { bytes }
    }

    /// A scanner over the buffer, able to walk it from either end.
    pub fn iter(&self) -> (it: ScoresIter)
        ensures
            it.wf(),
            it.buf() == self@,
            it.start() == 0,
            it.end() == self@.len(),
    {
        let bytes = copy_bytes(&self.bytes);
        let hi = bytes.len();
        ScoresIter { bytes, lo: 0, hi }
    }

    /// The record of the last object in the buffer, if any object closes.
    pub fn last(&self) -> (r: Option<Score>)
        ensures
            ({
                let rs = records_of_spans(self@, rspans_between(self@, 0, self@.len() as int));
                match r {
                    Some(sc) => rs.len() > 0 && sc.model() == rs.first(),
                    None => rs.len() == 0,
                }
            }),
    {
        let mut it = self.iter();
        it.next_back()
    }
}

pub(crate) fn copy_bytes(v: &Vec<u8>) -> (r: Vec<u8>)
    ensures
        r@ == v@,
{
    vstd::slice::slice_to_vec(v.as_slice())
}

/// A double-ended scanner over a `Scores` buffer.  The records still to
/// be yielded are those of the top-level spans between `start` and
/// `end`.
pub struct ScoresIter {
    bytes: Vec<u8>,
    lo: usize,
    hi: usize,
}

impl ScoresIter {
    pub closed spec fn buf(self) -> Seq<u8> {
        self.bytes@
    }

    pub closed spec fn start(self) -> int {
        self.lo as int
    }

    pub closed spec fn end(self) -> int {
        self.hi as int
    }

    pub open spec fn wf(self) -> bool {
        0 <= self.start() <= self.end() <= self.buf().len()
    }

    /// Records ahead of forward iteration, lowest first.
    pub open spec fn remaining_fwd(self) -> Seq<(Seq<u8>, Option<u64>)> {
        records_of_spans(self.buf(), spans_between(self.buf(), self.start(), self.end()))
    }

    /// Records ahead of backward iteration, highest first.
    pub open spec fn remaining_back(self) -> Seq<(Seq<u8>, Option<u64>)> {
        records_of_spans(self.buf(), rspans_between(self.buf(), self.start(), self.end()))
    }

    /// Yields the next record from the low end.
    pub fn next(&mut self) -> (r: Option<Score>)
        requires
            old(self).wf(),
        ensures
            final(self).wf(),
            final(self).buf() == old(self).buf(),
            final(self).end() == old(self).end(),
            match r {
                Some(sc) => {
                    &&& old(self).remaining_fwd().len() > 0
                    &&& sc.model() == old(self).remaining_fwd().first()
                    &&& final(self).remaining_fwd() == old(self).remaining_fwd().drop_first()
                },
                None => old(self).remaining_fwd().len() == 0 && *final(self) == *old(self),
            },
    {
        match next_span(self.bytes.as_slice(), self.lo, self.hi) {
            None => None,
            Some((a, b)) => {
                let raw = span_bytes(&self.bytes, a, b);
                let id = match object_id(raw.as_slice()) {
                    Some(v) => Some(ScoreId(v)),
                    None => None,
                };
                self.lo = b + 1;
                Some(Score { bytes: raw, id })
            },
        }
    }

    /// Yields the next record from the high end.
    pub fn next_back(&mut self) -> (r: Option<Score>)
        requires
            old(self).wf(),
        ensures
            final(self).wf(),
            final(self).buf() == old(self).buf(),
            final(self).start() == old(self).start(),
            match r {
                Some(sc) => {
                    &&& old(self).remaining_back().len() > 0
                    &&& sc.model() == old(self).remaining_back().first()
                    &&& final(self).remaining_back() == old(self).remaining_back().drop_first()
                },
                None => old(self).remaining_back().len() == 0 && *final(self) == *old(self),
            },
    {
        match prev_span(self.bytes.as_slice(), self.lo, self.hi) {
            None => None,
            Some((a, b)) => {
                let raw = span_bytes(&self.bytes, a, b);
                let id = match object_id(raw.as_slice()) {
                    Some(v) => Some(ScoreId(v)),
                    None => None,
                };
                self.hi = a;
                Some(Score { bytes: raw, id })
            },
        }
    }

    /// Yields the last record, walking from the high end.
    pub fn last(self) -> (r: Option<Score>)
        requires
            self.wf(),
        ensures
            match r {
                Some(sc) => self.remaining_back().len() > 0 && sc.model()
                    == self.remaining_back().first(),
                None => self.remaining_back().len() == 0,
            },
    {
        let mut it = self;
        it.next_back()
    }
}

/// Copies the bytes `a ..= b` out of `buf`.
pub(crate) fn span_bytes(buf: &Vec<u8>, a: usize, b: usize) -> (r: Vec<u8>)
    requires
        a <= b < buf@.len(),
    ensures
        r@ == buf@.subrange(a as int, b as int + 1),
{
    let n = buf.len();
    proof {
        assert(b < n);
    }
    let r = vstd::slice::slice_to_vec(&buf.as_slice()[a..b + 1]);
    r
}

} // verus!
