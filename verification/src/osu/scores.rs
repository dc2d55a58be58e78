//! The id-ordered record set and the wrapped-form response parser.
//!
//! A fetched response carries `{"scores": [...], "cursor": ..., ...}`;
//! only the array matters, and only the objects in it.  Parsed records
//! are kept in a set ordered by id, with one record per id, serving both
//! as a transient batch and as the retention history.

use vstd::prelude::*;

use crate::digits::skip_spaces;
use crate::scan::{close_from, object_id, object_id_spec};
use crate::search::{lemma_match_pos_found, lemma_match_pos_none, match_pos_from, matches_at};

verus! {

/// One upstream score: its raw bytes, re-emitted verbatim, and its id.
/// Two scores with the same id stand for the same record, whatever
/// their bytes.
pub struct Score {
    bytes: Vec<u8>,
    pub id: u64,
}

impl Score {
    /// The (raw bytes, id) pair this record stands for.
    pub closed spec fn model(self) -> (Seq<u8>, u64) {
        (self.bytes@, self.id)
    }

    /// A record carrying only an id, used as a range bound.
    pub fn only_id(id: u64) -> (r: Score)
        ensures
            r.model() == (Seq::<u8>::empty(), id),
    {
        let r = Score { bytes: Vec::new(), id };
        proof {
            assert(r.model().0 =~= Seq::<u8>::empty());
        }
        r
    }

    pub fn id(&self) -> (r: u64)
        ensures
            r == self.model().1,
    {
        self.id
    }

    /// The raw bytes of the record, exactly as fetched.
    pub fn as_bytes(&self) -> (r: &[u8])
        ensures
            r@ == self.model().0,
    {
        self.bytes.as_slice()
    }

    pub(crate) fn from_parts(bytes: Vec<u8>, id: u64) -> (r: Score)
        ensures
            r.model() == (bytes@, id),
    {
        Score { bytes, id }
    }
}

impl Clone for Score {
    fn clone(&self) -> (r: Self)
        ensures
            r.model() == self.model(),
    {
        (Score { bytes: crate::osu::copy_bytes(&self.bytes), id: self.id })
    }
}

/// The models of a sequence of records.
pub open spec fn models(v: Seq<Score>) -> Seq<(Seq<u8>, u64)> {
    v.map_values(|sc: Score| sc.model())
}

/// Strictly ascending ids: the order of the set, and its uniqueness.
pub open spec fn ids_sorted(v: Seq<(Seq<u8>, u64)>) -> bool {
    forall|i: int, j: int| 0 <= i < j < v.len() ==> v[i].1 < v[j].1
}

/// Sorted insertion that keeps an already-present id untouched.
pub open spec fn rec_insert(v: Seq<(Seq<u8>, u64)>, r: (Seq<u8>, u64)) -> Seq<(Seq<u8>, u64)>
    decreases v.len(),
{
    if v.len() == 0 {
        seq![r]
    } else if r.1 < v[0].1 {
        seq![r] + v
    } else if r.1 == v[0].1 {
        v
    } else {
        seq![v[0]] + rec_insert(v.drop_first(), r)
    }
}

/// Insertion of a whole batch, in order, each record as `rec_insert`.
pub open spec fn rec_insert_all(
    v: Seq<(Seq<u8>, u64)>,
    rs: Seq<(Seq<u8>, u64)>,
) -> Seq<(Seq<u8>, u64)>
    decreases rs.len(),
{
    if rs.len() == 0 {
        v
    } else {
        rec_insert_all(rec_insert(v, rs.first()), rs.drop_first())
    }
}

/// Merge of two sorted sets; on an id held by both, the record of `y`
/// replaces the record of `x`.
pub open spec fn rec_merge(v: Seq<(Seq<u8>, u64)>, w: Seq<(Seq<u8>, u64)>) -> Seq<(Seq<u8>, u64)>
    decreases v.len() + w.len(),
{
    if v.len() == 0 {
        w
    } else if w.len() == 0 {
        v
    } else if v[0].1 < w[0].1 {
        seq![v[0]] + rec_merge(v.drop_first(), w)
    } else if w[0].1 < v[0].1 {
        seq![w[0]] + rec_merge(v, w.drop_first())
    } else {
        seq![w[0]] + rec_merge(v.drop_first(), w.drop_first())
    }
}

/// Number of leading records with id at most `x`.
pub open spec fn cut_at(v: Seq<(Seq<u8>, u64)>, x: u64) -> int
    decreases v.len(),
{
    if v.len() == 0 {
        0
    } else if v[0].1 <= x {
        1 + cut_at(v.drop_first(), x)
    } else {
        0
    }
}

/// An id-unique record container ordered by ascending id.
pub struct Scores {
    items: Vec<Score>,
}

impl View for Scores {
    type V = Seq<(Seq<u8>, u64)>;

    closed spec fn view(&self) -> Seq<(Seq<u8>, u64)> {
        models(self.items@)
    }
}

impl Scores {
    pub open spec fn wf(self) -> bool {
        ids_sorted(self@)
    }

    pub fn new() -> (r: Scores)
        ensures
            r@ == Seq::<(Seq<u8>, u64)>::empty(),
            r.wf(),
    {
        let r = Scores { items: Vec::new() };
        proof {
            assert(r@ =~= Seq::<(Seq<u8>, u64)>::empty());
        }
        r
    }

    pub fn len(&self) -> (r: usize)
        ensures
            r == self@.len(),
    {
        self.items.len()
    }

    pub fn is_empty(&self) -> (r: bool)
        ensures
            r == (self@.len() == 0),
    {
        self.items.len() == 0
    }

    /// The record with the greatest id, if any.
    pub fn last(&self) -> (r: Option<&Score>)
        ensures
            match r {
                Some(sc) => self@.len() > 0 && sc.model() == self@.last(),
                None => self@.len() == 0,
            },
    {
        match self.items.as_slice().last() {
            Some(sc) => Some(sc),
            None => None,
        }
    }

    /// The record with the smallest id, if any.
    pub fn first(&self) -> (r: Option<&Score>)
        ensures
            match r {
                Some(sc) => self@.len() > 0 && sc.model() == self@.first(),
                None => self@.len() == 0,
            },
    {
        match self.items.as_slice().first() {
            Some(sc) => Some(sc),
            None => None,
        }
    }

    /// Removes the record with the smallest id.
    pub fn pop_first(&mut self)
        requires
            old(self)@.len() > 0,
        ensures
            final(self)@ == old(self)@.drop_first(),
    {
        let _ = self.items.remove(0);
        proof {
            assert(self@ =~= old(self)@.drop_first());
        }
    }

    /// Inserts one record; an id already present keeps its record.
    pub fn insert(&mut self, s: Score)
        requires
            old(self).wf(),
        ensures
            final(self)@ == rec_insert(old(self)@, s.model()),
            final(self).wf(),
    {
        let ghost v0 = self@;
        let ghost sm = s.model();
        let len = self.items.len();
        let mut k: usize = 0;
        while k < len && self.items[k].id < s.id
            invariant
                k <= len,
                len == self.items@.len(),
                self@ == v0,
                sm == s.model(),
                forall|i: int| 0 <= i < k ==> v0[i].1 < sm.1,
            decreases len - k,
        {
            proof {
                assert(v0[k as int] == self.items@[k as int].model());
            }
            k = k + 1;
        }
        proof {
            if k < len {
                assert(v0[k as int] == self.items@[k as int].model());
            }
            lemma_rec_insert_split(v0, sm, k as int);
        }
        if k < len && self.items[k].id == s.id {
            proof {
                assert(rec_insert(v0.skip(k as int), sm) =~= v0.skip(k as int));
                assert(v0.take(k as int) + v0.skip(k as int) =~= v0);
            }
        } else {
            proof {
                if k < len {
                    assert(sm.1 < v0.skip(k as int)[0].1);
                    assert(rec_insert(v0.skip(k as int), sm) =~= seq![sm] + v0.skip(k as int));
                } else {
                    assert(v0.skip(k as int) =~= Seq::<(Seq<u8>, u64)>::empty());
                    assert(rec_insert(v0.skip(k as int), sm) =~= seq![sm]);
                }
            }
            self.items.insert(k, s);
            proof {
                assert(models(self.items@) =~= v0.take(k as int) + (seq![sm] + v0.skip(k as int)));
            }
        }
        proof {
            lemma_rec_insert_sorted(v0, sm);
        }
    }
}

impl Scores {
    /// Merges `other` into this set and empties `other`; where both hold
    /// an id, the record of `other` replaces the one held here.
    pub fn append(&mut self, other: &mut Scores)
        requires
            old(self).wf(),
            old(other).wf(),
        ensures
            final(self)@ == rec_merge(old(self)@, old(other)@),
            final(self).wf(),
            final(other)@ == Seq::<(Seq<u8>, u64)>::empty(),
    {
        let ghost a0 = self@;
        let ghost b0 = other@;
        let mut out: Vec<Score> = Vec::new();
        loop
            invariant_except_break
                models(out@) + rec_merge(models(self.items@), models(other.items@)) == rec_merge(
                    a0,
                    b0,
                ),
            ensures
                models(out@) == rec_merge(a0, b0),
                models(self.items@).len() == 0,
                models(other.items@).len() == 0,
            decreases self.items.len() + other.items.len(),
        {
            if self.items.len() == 0 {
                proof {
                    assert(rec_merge(models(self.items@), models(other.items@)) == models(
                        other.items@,
                    ));
                }
                let ghost outpre = out@;
                let ghost tail = other.items@;
                out.append(&mut other.items);
                proof {
                    assert(models(out@) =~= models(outpre) + models(tail));
                    assert(models(other.items@) =~= Seq::<(Seq<u8>, u64)>::empty());
                }
                break;
            } else if other.items.len() == 0 {
                proof {
                    assert(models(other.items@) =~= Seq::<(Seq<u8>, u64)>::empty());
                    assert(rec_merge(models(self.items@), models(other.items@)) == models(
                        self.items@,
                    ));
                }
                let ghost outpre = out@;
                let ghost tail = self.items@;
                out.append(&mut self.items);
                proof {
                    assert(models(out@) =~= models(outpre) + models(tail));
                }
                break;
            } else {
                let ghost ma = models(self.items@);
                let ghost mb = models(other.items@);
                proof {
                    assert(ma[0] == self.items@[0].model());
                    assert(mb[0] == other.items@[0].model());
                }
                let ghost outpre = out@;
                if self.items[0].id < other.items[0].id {
                    let x = self.items.remove(0);
                    out.push(x);
                    proof {
                        assert(models(self.items@) =~= ma.drop_first());
                        assert(models(out@) =~= models(outpre).push(ma[0]));
                        assert(rec_merge(ma, mb) == seq![ma[0]] + rec_merge(ma.drop_first(), mb));
                        assert(models(outpre).push(ma[0]) + rec_merge(ma.drop_first(), mb) =~= (
                        models(outpre) + rec_merge(ma, mb)));
                    }
                } else if other.items[0].id < self.items[0].id {
                    let y = other.items.remove(0);
                    out.push(y);
                    proof {
                        assert(models(other.items@) =~= mb.drop_first());
                        assert(models(out@) =~= models(outpre).push(mb[0]));
                        assert(rec_merge(ma, mb) == seq![mb[0]] + rec_merge(ma, mb.drop_first()));
                        assert(models(outpre).push(mb[0]) + rec_merge(ma, mb.drop_first()) =~= (
                        models(outpre) + rec_merge(ma, mb)));
                    }
                } else {
                    let _ = self.items.remove(0);
                    let y = other.items.remove(0);
                    out.push(y);
                    proof {
                        assert(models(self.items@) =~= ma.drop_first());
                        assert(models(other.items@) =~= mb.drop_first());
                        assert(models(out@) =~= models(outpre).push(mb[0]));
                        assert(rec_merge(ma, mb) == seq![mb[0]] + rec_merge(
                            ma.drop_first(),
                            mb.drop_first(),
                        ));
                        assert(models(outpre).push(mb[0]) + rec_merge(
                            ma.drop_first(),
                            mb.drop_first(),
                        ) =~= (models(outpre) + rec_merge(ma, mb)));
                    }
                }
            }
        }
        self.items = out;
        proof {
            lemma_rec_merge_sorted(a0, b0);
            assert(final(other)@ =~= Seq::<(Seq<u8>, u64)>::empty());
        }
    }

    /// The records with id strictly greater than `resume`, ascending;
    /// all of them when no resume id is given.
    pub fn after(&self, resume: Option<u64>) -> (r: Vec<Score>)
        requires
            self.wf(),
        ensures
            models(r@) == match resume {
                Some(x) => self@.skip(cut_at(self@, x)),
                None => self@,
            },
    {
        let ghost v = self@;
        let len = self.items.len();
        let start: usize = match resume {
            None => 0,
            Some(x) => {
                let mut k: usize = 0;
                while k < len && self.items[k].id <= x
                    invariant
                        k <= len,
                        len == self.items@.len(),
                        v == self@,
                        forall|i: int| 0 <= i < k ==> v[i].1 <= x,
                    decreases len - k,
                {
                    proof {
                        assert(v[k as int] == self.items@[k as int].model());
                    }
                    k = k + 1;
                }
                proof {
                    if k < len {
                        assert(v[k as int] == self.items@[k as int].model());
                    }
                    lemma_cut_at_is(v, x, k as int);
                }
                k
            },
        };
        let mut r: Vec<Score> = Vec::new();
        let mut i = start;
        while i < len
            invariant
                start <= i <= len,
                len == self.items@.len(),
                v == self@,
                models(r@) =~= v.subrange(start as int, i as int),
            decreases len - i,
        {
            let ghost rpre = r@;
            let x = self.items[i].clone();
            r.push(x);
            proof {
                assert(v[i as int] == self.items@[i as int].model());
                assert(models(r@) =~= models(rpre).push(x.model()));
                assert(models(r@) =~= v.subrange(start as int, i as int + 1));
            }
            i = i + 1;
        }
        proof {
            assert(v.subrange(start as int, len as int) =~= v.skip(start as int));
            if resume is None {
                assert(v.skip(0) =~= v);
            }
        }
        r
    }
}

/// `cut_at` counts exactly the leading records with id at most `x`.
proof fn lemma_cut_at_is(v: Seq<(Seq<u8>, u64)>, x: u64, k: int)
    requires
        0 <= k <= v.len(),
        forall|i: int| 0 <= i < k ==> v[i].1 <= x,
        k < v.len() ==> v[k].1 > x,
    ensures
        cut_at(v, x) == k,
    decreases k,
{
    if k == 0 {
    } else {
        assert(v[0].1 <= x);
        lemma_cut_at_is(v.drop_first(), x, k - 1);
    }
}

/// Every record of a merge is a record of one of the inputs.
proof fn lemma_rec_merge_elems(v: Seq<(Seq<u8>, u64)>, w: Seq<(Seq<u8>, u64)>, q: int)
    requires
        0 <= q < rec_merge(v, w).len(),
    ensures
        (exists|i: int| 0 <= i < v.len() && v[i] == rec_merge(v, w)[q]) || (exists|j: int|
            0 <= j < w.len() && w[j] == rec_merge(v, w)[q]),
    decreases v.len() + w.len(),
{
    let m = rec_merge(v, w);
    if v.len() == 0 {
        assert(w[q] == m[q]);
    } else if w.len() == 0 {
        assert(v[q] == m[q]);
    } else if v[0].1 < w[0].1 {
        if q == 0 {
            assert(v[0] == m[0]);
        } else {
            lemma_rec_merge_elems(v.drop_first(), w, q - 1);
            let rest = rec_merge(v.drop_first(), w);
            assert(m[q] == rest[q - 1]);
            if exists|i: int| 0 <= i < v.drop_first().len() && v.drop_first()[i] == rest[q - 1] {
                let i = choose|i: int|
                    0 <= i < v.drop_first().len() && v.drop_first()[i] == rest[q - 1];
                assert(v[i + 1] == m[q]);
            }
        }
    } else if w[0].1 < v[0].1 {
        if q == 0 {
            assert(w[0] == m[0]);
        } else {
            lemma_rec_merge_elems(v, w.drop_first(), q - 1);
            let rest = rec_merge(v, w.drop_first());
            assert(m[q] == rest[q - 1]);
            if exists|j: int| 0 <= j < w.drop_first().len() && w.drop_first()[j] == rest[q - 1] {
                let j = choose|j: int|
                    0 <= j < w.drop_first().len() && w.drop_first()[j] == rest[q - 1];
                assert(w[j + 1] == m[q]);
            }
        }
    } else {
        if q == 0 {
            assert(w[0] == m[0]);
        } else {
            lemma_rec_merge_elems(v.drop_first(), w.drop_first(), q - 1);
            let rest = rec_merge(v.drop_first(), w.drop_first());
            assert(m[q] == rest[q - 1]);
            if exists|i: int| 0 <= i < v.drop_first().len() && v.drop_first()[i] == rest[q - 1] {
                let i = choose|i: int|
                    0 <= i < v.drop_first().len() && v.drop_first()[i] == rest[q - 1];
                assert(v[i + 1] == m[q]);
            } else {
                let j = choose|j: int|
                    0 <= j < w.drop_first().len() && w.drop_first()[j] == rest[q - 1];
                assert(w[j + 1] == m[q]);
            }
        }
    }
}

/// A merge of sorted inputs is sorted.
pub proof fn lemma_rec_merge_sorted(v: Seq<(Seq<u8>, u64)>, w: Seq<(Seq<u8>, u64)>)
    requires
        ids_sorted(v),
        ids_sorted(w),
    ensures
        ids_sorted(rec_merge(v, w)),
    decreases v.len() + w.len(),
{
    if v.len() == 0 || w.len() == 0 {
    } else {
        let m = rec_merge(v, w);
        if v[0].1 < w[0].1 {
            assert(ids_sorted(v.drop_first()));
            lemma_rec_merge_sorted(v.drop_first(), w);
            let rest = rec_merge(v.drop_first(), w);
            assert forall|q: int| 0 <= q < rest.len() implies v[0].1 < rest[q].1 by {
                lemma_rec_merge_elems(v.drop_first(), w, q);
            }
        } else if w[0].1 < v[0].1 {
            assert(ids_sorted(w.drop_first()));
            lemma_rec_merge_sorted(v, w.drop_first());
            let rest = rec_merge(v, w.drop_first());
            assert forall|q: int| 0 <= q < rest.len() implies w[0].1 < rest[q].1 by {
                lemma_rec_merge_elems(v, w.drop_first(), q);
            }
        } else {
            assert(ids_sorted(v.drop_first()));
            assert(ids_sorted(w.drop_first()));
            lemma_rec_merge_sorted(v.drop_first(), w.drop_first());
            let rest = rec_merge(v.drop_first(), w.drop_first());
            assert forall|q: int| 0 <= q < rest.len() implies w[0].1 < rest[q].1 by {
                lemma_rec_merge_elems(v.drop_first(), w.drop_first(), q);
            }
        }
    }
}

pub const LBRACKET: u8 = 91;

pub const RBRACKET: u8 = 93;

pub const COMMA: u8 = 44;

/// The key `"scores":` as bytes.
pub open spec fn scores_needle() -> Seq<u8> {
    seq![34u8, 115u8, 99u8, 111u8, 114u8, 101u8, 115u8, 34u8, 58u8]
}

/// Ways a wrapped response can be malformed.
#[derive(Clone, Copy, PartialEq, Eq, Debug)]
pub enum DeserializeError {
    /// The payload holds no `"scores":` key.
    MissingScores,
    /// No array opens after the key.
    MissingBracket,
    /// An array element is not an object.
    ExpectedObject,
    /// An object never closes.
    UnbalancedObject,
    /// An object is followed by neither a comma nor the closing bracket.
    MissingSeparator,
    /// An object carries no id.
    MissingId,
}

/// The element spans of the array opening at `i - 1`: spaces, then
/// either the closing bracket (only before the first element) or an
/// object span, which a comma or the closing bracket must follow.
pub open spec fn elems_from(s: Seq<u8>, i: int, first: bool) -> Result<
    Seq<(int, int)>,
    DeserializeError,
>
    decreases s.len() - i,
        via elems_from_decreases
{
    if i < 0 || i > s.len() {
        Err(DeserializeError::ExpectedObject)
    } else {
        let j = skip_spaces(s, i);
        if j >= s.len() {
            Err(DeserializeError::ExpectedObject)
        } else if first && s[j] == RBRACKET {
            Ok(Seq::empty())
        } else if s[j] != crate::scan::LBRACE {
            Err(DeserializeError::ExpectedObject)
        } else {
            let b = close_from(s, j + 1, 1);
            if b >= s.len() {
                Err(DeserializeError::UnbalancedObject)
            } else if b + 1 >= s.len() {
                Err(DeserializeError::MissingSeparator)
            } else if s[b + 1] == COMMA {
                match elems_from(s, b + 2, false) {
                    Ok(rest) => Ok(seq![(j, b)] + rest),
                    Err(e) => Err(e),
                }
            } else if s[b + 1] == RBRACKET {
                Ok(seq![(j, b)])
            } else {
                Err(DeserializeError::MissingSeparator)
            }
        }
    }
}

#[via_fn]
proof fn elems_from_decreases(s: Seq<u8>, i: int, first: bool) {
    if 0 <= i && i <= s.len() {
        crate::digits::lemma_skip_spaces_bounds(s, i);
        let j = skip_spaces(s, i);
        if j < s.len() {
            crate::scan::lemma_close_from_bounds(s, j + 1, 1);
        }
    }
}

/// The element spans of the whole payload: everything before the first
/// `"scores":` key is ignored, then an array must open.
pub open spec fn wrapped_spans(s: Seq<u8>) -> Result<Seq<(int, int)>, DeserializeError> {
    let k = match_pos_from(s, scores_needle(), 0);
    if k >= s.len() {
        Err(DeserializeError::MissingScores)
    } else {
        let j = skip_spaces(s, k + 9);
        if j >= s.len() || s[j] != LBRACKET {
            Err(DeserializeError::MissingBracket)
        } else {
            elems_from(s, j + 1, true)
        }
    }
}

/// The record one span stands for: its raw bytes and its id.
pub open spec fn span_record(s: Seq<u8>, p: (int, int)) -> (Seq<u8>, u64) {
    let raw = s.subrange(p.0, p.1 + 1);
    (
        raw,
        match object_id_spec(raw) {
            Some(v) => v,
            None => 0,
        },
    )
}

/// The records of a wrapped payload, in array order; a record without
/// an id makes the whole payload malformed.
pub open spec fn wrapped_records(s: Seq<u8>) -> Result<Seq<(Seq<u8>, u64)>, DeserializeError> {
    match wrapped_spans(s) {
        Err(e) => Err(e),
        Ok(sp) => {
            if forall|q: int|
                0 <= q < sp.len() ==> #[trigger] object_id_spec(
                    s.subrange(sp[q].0, sp[q].1 + 1),
                ) is Some {
                Ok(sp.map_values(|p: (int, int)| span_record(s, p)))
            } else {
                Err(DeserializeError::MissingId)
            }
        },
    }
}

/// Prefixes already-walked spans onto the outcome of the rest.
pub open spec fn prepend_spans(
    acc: Seq<(int, int)>,
    r: Result<Seq<(int, int)>, DeserializeError>,
) -> Result<Seq<(int, int)>, DeserializeError> {
    match r {
        Ok(rest) => Ok(acc + rest),
        Err(e) => Err(e),
    }
}

fn scores_needle_vec() -> (r: Vec<u8>)
    ensures
        r@ == scores_needle(),
{
    let mut v: Vec<u8> = Vec::new();
    v.push(34);
    v.push(115);
    v.push(99);
    v.push(111);
    v.push(114);
    v.push(101);
    v.push(115);
    v.push(34);
    v.push(58);
    proof {
        assert(v@ =~= scores_needle());
    }
    v
}

/// Parses a wrapped response and inserts its records into a set.
pub struct ScoresDeserializer {
    bytes: Vec<u8>,
}

impl View for ScoresDeserializer {
    type V = Seq<u8>;

    closed spec fn view(&self) -> Seq<u8> {
        self.bytes@
    }
}

impl ScoresDeserializer {
    pub fn new(bytes: Vec<u8>) -> (r: ScoresDeserializer)
        ensures
            r@ == bytes@,
    {
        ScoresDeserializer { bytes }
    }

    /// Parses the payload.  On success every record of the array is
    /// inserted into `scores`, in array order, earlier records keeping
    /// their id; a malformed payload leaves `scores` untouched.
    pub fn deserialize(self, scores: &mut Scores) -> (r: Result<(), DeserializeError>)
        requires
            old(scores).wf(),
        ensures
            final(scores).wf(),
            ({
                match wrapped_records(self@) {
                    Ok(recs) => r is Ok && final(scores)@ == rec_insert_all(old(scores)@, recs),
                    Err(e) => r == Err::<(), DeserializeError>(e) && final(scores)@ == old(
                        scores,
                    )@,
                }
            }),
    {
        let ghost s = self@;
        let len = self.bytes.len();
        let needle = scores_needle_vec();
        let k: usize = match crate::search::find_subslice(self.bytes.as_slice(), needle.as_slice())
        {
            None => {
                proof {
                    lemma_match_pos_none(s, scores_needle(), 0);
                }
                return Err(DeserializeError::MissingScores);
            },
            Some(k) => {
                proof {
                    lemma_match_pos_found(s, scores_needle(), 0, k as int);
                }
                k
            },
        };
        proof {
            assert(scores_needle().len() == 9);
            assert(k + 9 <= len);
        }
        let j = crate::digits::skip_past_spaces(self.bytes.as_slice(), k + 9);
        if j >= len {
            return Err(DeserializeError::MissingBracket);
        }
        if self.bytes[j] != LBRACKET {
            return Err(DeserializeError::MissingBracket);
        }
        proof {
            assert(wrapped_spans(s) == elems_from(s, j as int + 1, true));
        }
        let mut pos: usize = j + 1;
        let mut first: bool = true;
        let mut pv: Vec<(usize, usize)> = Vec::new();
        let ghost mut sp_acc: Seq<(int, int)> = Seq::empty();
        proof {
            assert(sp_acc + elems_from(s, pos as int, first)->Ok_0 =~= elems_from(
                s,
                pos as int,
                first,
            )->Ok_0);
        }
        loop
            invariant_except_break
                pos <= len,
                len == s.len(),
                s == self@,
                scores@ == old(scores)@,
                scores.wf(),
                sp_acc == pv@.map_values(|p: (usize, usize)| (p.0 as int, p.1 as int)),
                forall|q: int|
                    0 <= q < pv@.len() ==> 0 <= #[trigger] pv@[q].0 && pv@[q].0 <= pv@[q].1
                        && pv@[q].1 < len,
                wrapped_spans(s) == prepend_spans(sp_acc, elems_from(s, pos as int, first)),
            ensures
                len == s.len(),
                s == self@,
                scores@ == old(scores)@,
                scores.wf(),
                sp_acc == pv@.map_values(|p: (usize, usize)| (p.0 as int, p.1 as int)),
                forall|q: int|
                    0 <= q < pv@.len() ==> 0 <= #[trigger] pv@[q].0 && pv@[q].0 <= pv@[q].1
                        && pv@[q].1 < len,
                wrapped_spans(s) == Ok::<Seq<(int, int)>, DeserializeError>(sp_acc),
            decreases len - pos,
        {
            let j2 = crate::digits::skip_past_spaces(self.bytes.as_slice(), pos);
            if j2 >= len {
                return Err(DeserializeError::ExpectedObject);
            }
            let c = self.bytes[j2];
            if first && c == RBRACKET {
                proof {
                    assert(elems_from(s, pos as int, first) == Ok::<
                        Seq<(int, int)>,
                        DeserializeError,
                    >(Seq::empty()));
                    assert(sp_acc + Seq::<(int, int)>::empty() =~= sp_acc);
                }
                break;
            }
            if c != crate::scan::LBRACE {
                return Err(DeserializeError::ExpectedObject);
            }
            match crate::scan::find_close(self.bytes.as_slice(), j2) {
                None => {
                    return Err(DeserializeError::UnbalancedObject);
                },
                Some(b) => {
                    if b + 1 >= len {
                        return Err(DeserializeError::MissingSeparator);
                    }
                    let sep = self.bytes[b + 1];
                    let ghost sp_pre = sp_acc;
                    if sep == COMMA {
                        pv.push((j2, b));
                        proof {
                            sp_acc = sp_pre + seq![(j2 as int, b as int)];
                            assert(sp_acc =~= pv@.map_values(
                                |p: (usize, usize)| (p.0 as int, p.1 as int),
                            ));
                            assert(elems_from(s, pos as int, first) == match elems_from(
                                s,
                                b as int + 2,
                                false,
                            ) {
                                Ok(rest) => Ok::<Seq<(int, int)>, DeserializeError>(
                                    seq![(j2 as int, b as int)] + rest,
                                ),
                                Err(e) => Err(e),
                            });
                            if elems_from(s, b as int + 2, false) is Ok {
                                assert(sp_pre + (seq![(j2 as int, b as int)] + elems_from(
                                    s,
                                    b as int + 2,
                                    false,
                                )->Ok_0) =~= sp_acc + elems_from(s, b as int + 2, false)->Ok_0);
                            }
                        }
                        pos = b + 2;
                        first = false;
                    } else if sep == RBRACKET {
                        pv.push((j2, b));
                        proof {
                            sp_acc = sp_pre + seq![(j2 as int, b as int)];
                            assert(sp_acc =~= pv@.map_values(
                                |p: (usize, usize)| (p.0 as int, p.1 as int),
                            ));
                            assert(elems_from(s, pos as int, first) == Ok::<
                                Seq<(int, int)>,
                                DeserializeError,
                            >(seq![(j2 as int, b as int)]));
                            assert(sp_pre + seq![(j2 as int, b as int)] =~= sp_acc);
                        }
                        break;
                    } else {
                        return Err(DeserializeError::MissingSeparator);
                    }
                },
            }
        }
        let ghost sp = sp_acc;
        let nspans = pv.len();
        let mut tv: Vec<Score> = Vec::new();
        let mut q: usize = 0;
        while q < nspans
            invariant
                q <= nspans,
                nspans == pv@.len(),
                s == self@,
                len == s.len(),
                scores@ == old(scores)@,
                scores.wf(),
                wrapped_spans(s) == Ok::<Seq<(int, int)>, DeserializeError>(sp),
                sp == pv@.map_values(|p: (usize, usize)| (p.0 as int, p.1 as int)),
                forall|t: int|
                    0 <= t < pv@.len() ==> 0 <= #[trigger] pv@[t].0 && pv@[t].0 <= pv@[t].1
                        && pv@[t].1 < len,
                forall|t: int|
                    0 <= t < q ==> #[trigger] object_id_spec(
                        s.subrange(sp[t].0, sp[t].1 + 1),
                    ) is Some,
                models(tv@) =~= sp.take(q as int).map_values(|p: (int, int)| span_record(s, p)),
            decreases nspans - q,
        {
            let (a, b) = pv[q];
            let raw = crate::osu::span_bytes(&self.bytes, a, b);
            proof {
                assert(sp[q as int] == (a as int, b as int));
            }
            match object_id(raw.as_slice()) {
                None => {
                    proof {
                        assert(object_id_spec(s.subrange(sp[q as int].0, sp[q as int].1 + 1))
                            is None);
                        assert(sp.len() == nspans);
                        assert(!(forall|t: int|
                            0 <= t < sp.len() ==> #[trigger] object_id_spec(
                                s.subrange(sp[t].0, sp[t].1 + 1),
                            ) is Some));
                        assert(wrapped_records(s) == Err::<Seq<(Seq<u8>, u64)>, DeserializeError>(
                            DeserializeError::MissingId,
                        ));
                    }
                    return Err(DeserializeError::MissingId);
                },
                Some(idv) => {
                    let ghost tv_pre = tv@;
                    tv.push(Score::from_parts(raw, idv));
                    proof {
                        assert(models(tv@) =~= models(tv_pre).push((s.subrange(
                            sp[q as int].0,
                            sp[q as int].1 + 1,
                        ), idv)));
                        assert(sp.take(q as int + 1).map_values(|p: (int, int)| span_record(s, p))
                            =~= sp.take(q as int).map_values(|p: (int, int)| span_record(s, p)).push(
                            span_record(s, sp[q as int]),
                        ));
                    }
                },
            }
            q = q + 1;
        }
        let ghost recs = sp.map_values(|p: (int, int)| span_record(s, p));
        proof {
            assert(sp.take(nspans as int) =~= sp);
            assert(wrapped_records(s) == Ok::<Seq<(Seq<u8>, u64)>, DeserializeError>(recs));
            assert(models(tv@) == recs);
        }
        let ghost h0 = scores@;
        let mut d: usize = 0;
        let ndone = tv.len();
        while d < ndone
            invariant
                d <= ndone,
                ndone == tv@.len() + d,
                recs.len() == ndone,
                scores.wf(),
                models(tv@) =~= recs.skip(d as int),
                scores@ == rec_insert_all(h0, recs.take(d as int)),
            decreases ndone - d,
        {
            let ghost tpre = tv@;
            let x = tv.remove(0);
            proof {
                assert(models(tv@) =~= models(tpre).drop_first());
                assert(models(tpre)[0] == tpre[0].model());
                assert(x.model() == recs[d as int]);
            }
            scores.insert(x);
            proof {
                lemma_rec_insert_all_snoc(h0, recs, d as int);
                assert(recs.skip(d as int).drop_first() =~= recs.skip(d as int + 1));
            }
            d = d + 1;
        }
        proof {
            assert(recs.take(ndone as int) =~= recs);
        }
        Ok(())
    }
}

/// `match_pos_from` never runs backwards or past the end.
proof fn lemma_match_pos_bounds(s: Seq<u8>, needle: Seq<u8>, q: int)
    requires
        0 <= q <= s.len(),
    ensures
        q <= match_pos_from(s, needle, q) <= s.len(),
    decreases s.len() - q,
{
    if q < s.len() && !matches_at(s, needle, q) {
        lemma_match_pos_bounds(s, needle, q + 1);
    }
}

/// What `match_pos_from` finds short of the end is a true occurrence.
proof fn lemma_match_pos_hit(s: Seq<u8>, needle: Seq<u8>, q: int)
    requires
        0 <= q <= s.len(),
        match_pos_from(s, needle, q) < s.len(),
    ensures
        matches_at(s, needle, match_pos_from(s, needle, q)),
    decreases s.len() - q,
{
    if !matches_at(s, needle, q) {
        lemma_match_pos_hit(s, needle, q + 1);
    }
}

/// A key found inside `p` is found at the same place in `p + t`.
proof fn lemma_match_pos_extend(p: Seq<u8>, t: Seq<u8>, needle: Seq<u8>, q: int)
    requires
        0 <= q <= p.len(),
        needle.len() >= 1,
        match_pos_from(p, needle, q) < p.len(),
    ensures
        match_pos_from(p + t, needle, q) == match_pos_from(p, needle, q),
    decreases p.len() - q,
{
    let k = match_pos_from(p, needle, q);
    lemma_match_pos_bounds(p, needle, q);
    lemma_match_pos_hit(p, needle, q);
    assert(k + needle.len() <= p.len());
    if matches_at(p, needle, q) {
        assert((p + t).subrange(q, q + needle.len() as int) =~= p.subrange(
            q,
            q + needle.len() as int,
        ));
        assert(matches_at(p + t, needle, q));
    } else {
        assert(q < k);
        assert((p + t).subrange(q, q + needle.len() as int) =~= p.subrange(
            q,
            q + needle.len() as int,
        ));
        assert(!matches_at(p + t, needle, q));
        lemma_match_pos_extend(p, t, needle, q + 1);
    }
}

/// A space run that ends inside `p` ends at the same place in `p + t`.
proof fn lemma_skip_spaces_extend(p: Seq<u8>, t: Seq<u8>, i: int)
    requires
        0 <= i,
        skip_spaces(p, i) < p.len(),
    ensures
        skip_spaces(p + t, i) == skip_spaces(p, i),
    decreases p.len() - i,
{
    let j = skip_spaces(p, i);
    crate::digits::lemma_skip_spaces_bounds(p, i);
    if i < p.len() && p[i] == crate::digits::SPACE {
        lemma_skip_spaces_extend(p, t, i + 1);
    }
}

/// A close found inside `p` is found at the same place in `p + t`.
proof fn lemma_close_extend(p: Seq<u8>, t: Seq<u8>, i: int, d: int)
    requires
        0 <= i <= p.len(),
        close_from(p, i, d) < p.len(),
    ensures
        close_from(p + t, i, d) == close_from(p, i, d),
    decreases p.len() - i,
{
    crate::scan::lemma_close_from_bounds(p, i, d);
    let d2 = d + crate::scan::brace_delta(p[i]);
    if d2 != 0 {
        lemma_close_extend(p, t, i + 1, d2);
    }
}

/// Every span an element walk yields lies inside the walked buffer.
proof fn lemma_elems_bounds(p: Seq<u8>, i: int, first: bool)
    requires
        0 <= i <= p.len(),
        elems_from(p, i, first) is Ok,
    ensures
        forall|q: int|
            0 <= q < elems_from(p, i, first)->Ok_0.len() ==> {
                &&& 0 <= #[trigger] elems_from(p, i, first)->Ok_0[q].0
                &&& elems_from(p, i, first)->Ok_0[q].0 < elems_from(p, i, first)->Ok_0[q].1
                &&& elems_from(p, i, first)->Ok_0[q].1 < p.len()
            },
    decreases p.len() - i,
{
    let j = skip_spaces(p, i);
    crate::digits::lemma_skip_spaces_bounds(p, i);
    if j < p.len() && !(first && p[j] == RBRACKET) && p[j] == crate::scan::LBRACE {
        let b = close_from(p, j + 1, 1);
        crate::scan::lemma_close_from_bounds(p, j + 1, 1);
        if b < p.len() && b + 1 < p.len() && p[b + 1] == COMMA {
            lemma_elems_bounds(p, b + 2, false);
        }
    }
}

/// An element walk that succeeds inside `p` reads nothing past it:
/// appending anything leaves its result unchanged.
proof fn lemma_elems_extend(p: Seq<u8>, t: Seq<u8>, i: int, first: bool)
    requires
        0 <= i <= p.len(),
        elems_from(p, i, first) is Ok,
    ensures
        elems_from(p + t, i, first) == elems_from(p, i, first),
    decreases p.len() - i,
{
    let j = skip_spaces(p, i);
    crate::digits::lemma_skip_spaces_bounds(p, i);
    lemma_skip_spaces_extend(p, t, i);
    if first && p[j] == RBRACKET {
    } else {
        let b = close_from(p, j + 1, 1);
        crate::scan::lemma_close_from_bounds(p, j + 1, 1);
        lemma_close_extend(p, t, j + 1, 1);
        if p[b + 1] == COMMA {
            lemma_elems_extend(p, t, b + 2, false);
        }
    }
}

/// Law: the scores array alone decides the result.  A payload whose
/// text through the closing bracket of the array parses successfully
/// parses to exactly the same records whatever bytes follow — the
/// `cursor` and `cursor_string` fields are ignored entirely, whatever
/// objects or arrays they nest.
pub proof fn lemma_tail_ignored(p: Seq<u8>, t: Seq<u8>)
    requires
        wrapped_records(p) is Ok,
    ensures
        wrapped_records(p + t) == wrapped_records(p),
{
    let k = match_pos_from(p, scores_needle(), 0);
    assert(scores_needle().len() == 9);
    lemma_match_pos_bounds(p, scores_needle(), 0);
    assert(wrapped_spans(p) is Ok);
    assert(k < p.len());
    lemma_match_pos_extend(p, t, scores_needle(), 0);
    lemma_match_pos_hit(p, scores_needle(), 0);
    assert(k + 9 <= p.len());
    let j = skip_spaces(p, k + 9);
    crate::digits::lemma_skip_spaces_bounds(p, k + 9);
    assert(j < p.len() && p[j] == LBRACKET);
    lemma_skip_spaces_extend(p, t, k + 9);
    assert((p + t)[j] == p[j]);
    lemma_elems_extend(p, t, j + 1, true);
    let sp = wrapped_spans(p)->Ok_0;
    assert(wrapped_spans(p + t) == wrapped_spans(p));
    lemma_elems_bounds(p, j + 1, true);
    assert forall|q: int| 0 <= q < sp.len() implies (p + t).subrange(sp[q].0, sp[q].1 + 1)
        == p.subrange(sp[q].0, sp[q].1 + 1) by {
        assert((p + t).subrange(sp[q].0, sp[q].1 + 1) =~= p.subrange(sp[q].0, sp[q].1 + 1));
    }
    assert(sp.map_values(|pr: (int, int)| span_record(p + t, pr)) =~= sp.map_values(
        |pr: (int, int)| span_record(p, pr),
    ));
}

/// A left fold over one more record applies `rec_insert` last.
proof fn lemma_rec_insert_all_snoc(v: Seq<(Seq<u8>, u64)>, rs: Seq<(Seq<u8>, u64)>, d: int)
    requires
        0 <= d < rs.len(),
    ensures
        rec_insert_all(v, rs.take(d + 1)) == rec_insert(rec_insert_all(v, rs.take(d)), rs[d]),
    decreases d,
{
    if d == 0 {
        assert(rs.take(0) =~= Seq::<(Seq<u8>, u64)>::empty());
        assert(rec_insert_all(v, rs.take(0)) == v);
        let one = rs.take(1);
        assert(one.len() == 1 && one[0] == rs[0]);
        assert(one.drop_first() =~= Seq::<(Seq<u8>, u64)>::empty());
        assert(rec_insert_all(v, one) == rec_insert_all(rec_insert(v, rs[0]), one.drop_first()));
    } else {
        let w = rec_insert(v, rs[0]);
        assert(rs.take(d + 1).drop_first() =~= rs.drop_first().take(d));
        assert(rs.take(d).drop_first() =~= rs.drop_first().take(d - 1));
        assert(rs.take(d + 1)[0] == rs[0]);
        assert(rs.take(d)[0] == rs[0]);
        lemma_rec_insert_all_snoc(w, rs.drop_first(), d - 1);
        assert(rs.drop_first()[d - 1] == rs[d]);
    }
}

/// `rec_insert` walks past a strictly smaller prefix unchanged.
proof fn lemma_rec_insert_split(v: Seq<(Seq<u8>, u64)>, r: (Seq<u8>, u64), k: int)
    requires
        0 <= k <= v.len(),
        forall|i: int| 0 <= i < k ==> v[i].1 < r.1,
    ensures
        rec_insert(v, r) == v.take(k) + rec_insert(v.skip(k), r),
    decreases k,
{
    if k == 0 {
        assert(v.skip(0) =~= v);
        assert(v.take(0) + rec_insert(v, r) =~= rec_insert(v, r));
    } else {
        assert(v[0].1 < r.1);
        lemma_rec_insert_split(v.drop_first(), r, k - 1);
        assert(v.drop_first().take(k - 1) =~= v.take(k).drop_first());
        assert(v.drop_first().skip(k - 1) =~= v.skip(k));
        assert(seq![v[0]] + (v.drop_first().take(k - 1) + rec_insert(v.skip(k), r)) =~= v.take(k)
            + rec_insert(v.skip(k), r));
    }
}

/// Insertion into a sorted set leaves it sorted, adds the id if it was
/// absent, and disturbs no other record.
pub proof fn lemma_rec_insert_sorted(v: Seq<(Seq<u8>, u64)>, r: (Seq<u8>, u64))
    requires
        ids_sorted(v),
    ensures
        ids_sorted(rec_insert(v, r)),
        rec_insert(v, r).len() >= v.len(),
    decreases v.len(),
{
    if v.len() != 0 && r.1 > v[0].1 {
        assert(ids_sorted(v.drop_first()));
        lemma_rec_insert_sorted(v.drop_first(), r);
        let rest = rec_insert(v.drop_first(), r);
        assert forall|q: int| 0 <= q < rest.len() implies v[0].1 < rest[q].1 by {
            lemma_rec_insert_ids(v.drop_first(), r, q);
        }
    }
}

/// Every record of an insertion result is the new record or one of the
/// old ones.
proof fn lemma_rec_insert_ids(v: Seq<(Seq<u8>, u64)>, r: (Seq<u8>, u64), q: int)
    requires
        0 <= q < rec_insert(v, r).len(),
    ensures
        rec_insert(v, r)[q] == r || exists|i: int| 0 <= i < v.len() && v[i] == rec_insert(v, r)[q],
    decreases v.len(),
{
    if v.len() == 0 {
    } else if r.1 < v[0].1 {
        if q > 0 {
            assert(v[q - 1] == rec_insert(v, r)[q]);
        }
    } else if r.1 == v[0].1 {
    } else {
        if q > 0 {
            lemma_rec_insert_ids(v.drop_first(), r, q - 1);
            if rec_insert(v.drop_first(), r)[q - 1] != r {
                let i = choose|i: int|
                    0 <= i < v.drop_first().len() && v.drop_first()[i] == rec_insert(
                        v.drop_first(),
                        r,
                    )[q - 1];
                assert(v[i + 1] == rec_insert(v, r)[q]);
            }
        }
    }
}

} // verus!
