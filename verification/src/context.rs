//! The history and broadcast engine.
//!
//! One engine owns the retention history, the transient fetch batch and
//! the running cursor.  Each poll tick fetches into the batch, deepens
//! the fetch while whole pages are still missing, hands the newly seen
//! records out for broadcast, and merges the batch into the history,
//! evicting the smallest ids past the retention cap.  The surrounding
//! tasks do the waiting and the sending; every decision is made here.

use vstd::prelude::*;

use crate::config::Setup;
use crate::osu::scores::{
    cut_at, ids_sorted, models, rec_merge, wrapped_records, DeserializeError, Score, Scores,
    ScoresDeserializer,
};

verus! {

/// Deepening stops once a fetch moves the smallest seen id down by
/// less than this many ids, safely below the upstream page size.
pub const ID_THRESHOLD: u64 = 900;

/// The engine: retention history, transient batch, retention cap and
/// the running cursor.
pub struct Context {
    history: Scores,
    batch: Scores,
    max_history_len: usize,
    cursor_id: Option<u64>,
}

impl Context {
    /// The retained records, ascending by id.
    pub closed spec fn history_view(self) -> Seq<(Seq<u8>, u64)> {
        self.history@
    }

    /// The records fetched during the running tick, ascending by id.
    pub closed spec fn batch_view(self) -> Seq<(Seq<u8>, u64)> {
        self.batch@
    }

    /// The retention cap.
    pub closed spec fn cap(self) -> int {
        self.max_history_len as int
    }

    /// The running cursor: the smallest id observed since last reset.
    pub closed spec fn cursor(self) -> Option<u64> {
        self.cursor_id
    }

    pub open spec fn wf(self) -> bool {
        &&& ids_sorted(self.history_view())
        &&& ids_sorted(self.batch_view())
        &&& self.history_view().len() <= self.cap()
    }

    pub fn new(setup: &Setup) -> (r: Context)
        ensures
            r.wf(),
            r.history_view() == Seq::<(Seq<u8>, u64)>::empty(),
            r.batch_view() == Seq::<(Seq<u8>, u64)>::empty(),
            r.cap() == setup.history_length as int,
            r.cursor() == setup.resume_score_id,
    {
        Context {
            history: Scores::new(),
            batch: Scores::new(),
            max_history_len: setup.history_length,
            cursor_id: setup.resume_score_id,
        }
    }

    /// The cursor to fetch with, also remembered by the caller as the
    /// tick's starting cursor.
    pub fn cursor_id(&self) -> (r: Option<u64>)
        ensures
            r == self.cursor(),
    {
        self.cursor_id
    }

    /// Acknowledges a stale cursor on the tick's first fetch: the
    /// cursor is cleared, and the fetch is retried without one exactly
    /// when a cursor had been set.
    pub fn on_stale_cursor(&mut self) -> (retry: bool)
        ensures
            final(self).cursor() is None,
            retry == (old(self).cursor() is Some),
            final(self).history_view() == old(self).history_view(),
            final(self).batch_view() == old(self).batch_view(),
            final(self).cap() == old(self).cap(),
            old(self).wf() ==> final(self).wf(),
    {
        let had = self.cursor_id.is_some();
        self.cursor_id = None;
        had
    }

    /// Parses a fetched page into the batch.  A malformed payload
    /// changes nothing and is the fetch attempt's failure.
    pub fn ingest(&mut self, payload: &[u8]) -> (r: Result<(), DeserializeError>)
        requires
            old(self).wf(),
        ensures
            final(self).wf(),
            final(self).history_view() == old(self).history_view(),
            final(self).cap() == old(self).cap(),
            final(self).cursor() == old(self).cursor(),
            ({
                match wrapped_records(payload@) {
                    Ok(recs) => r is Ok && final(self).batch_view()
                        == crate::osu::scores::rec_insert_all(old(self).batch_view(), recs),
                    Err(e) => r == Err::<(), DeserializeError>(e) && final(self).batch_view()
                        == old(self).batch_view(),
                }
            }),
    {
        let bytes = vstd::slice::slice_to_vec(payload);
        ScoresDeserializer::new(bytes).deserialize(&mut self.batch)
    }

    /// One deepening decision after a successful fetch: the cursor
    /// becomes the smallest id seen this tick, and another fetch is
    /// asked for exactly when the smallest id moved down by at least
    /// `ID_THRESHOLD` from the previous cursor.
    pub fn deepen_step(&mut self) -> (r: Option<u64>)
        requires
            old(self).wf(),
        ensures
            final(self).wf(),
            final(self).history_view() == old(self).history_view(),
            final(self).batch_view() == old(self).batch_view(),
            final(self).cap() == old(self).cap(),
            ({
                if old(self).batch_view().len() == 0 {
                    final(self).cursor() is None && r is None
                } else {
                    let next = old(self).batch_view().first().1;
                    final(self).cursor() == Some(next) && r == (match old(self).cursor() {
                        Some(prev) => if next + ID_THRESHOLD <= prev {
                            Some(next)
                        } else {
                            None
                        },
                        None => None,
                    })
                }
            }),
    {
        let next: u64 = match self.batch.first() {
            None => {
                self.cursor_id = None;
                return None;
            },
            Some(sc) => sc.id(),
        };
        let prev = self.cursor_id;
        self.cursor_id = Some(next);
        match prev {
            None => None,
            Some(prev) => {
                if next <= u64::MAX - ID_THRESHOLD && next + ID_THRESHOLD <= prev {
                    Some(next)
                } else {
                    None
                }
            },
        }
    }

    /// The records of the batch with id greater than the tick's
    /// starting cursor, ascending: what this tick broadcasts.
    pub fn compute_broadcast(&self, prev_cursor: Option<u64>) -> (r: Vec<Score>)
        requires
            self.wf(),
        ensures
            models(r@) == match prev_cursor {
                Some(x) => self.batch_view().skip(cut_at(self.batch_view(), x)),
                None => self.batch_view(),
            },
    {
        self.batch.after(prev_cursor)
    }

    /// Merges the batch into the history and evicts the smallest ids
    /// until the retention cap holds; the batch is left empty.
    pub fn merge_batch(&mut self)
        requires
            old(self).wf(),
        ensures
            final(self).wf(),
            final(self).cap() == old(self).cap(),
            final(self).cursor() == old(self).cursor(),
            final(self).batch_view() == Seq::<(Seq<u8>, u64)>::empty(),
            ({
                let merged = rec_merge(old(self).history_view(), old(self).batch_view());
                let dropped = if merged.len() > old(self).cap() {
                    merged.len() - old(self).cap()
                } else {
                    0
                };
                final(self).history_view() == merged.skip(dropped)
            }),
    {
        let ghost merged = rec_merge(self.history_view(), self.batch_view());
        self.history.append(&mut self.batch);
        let cap = self.max_history_len;
        let ghost mut dropped: int = 0;
        proof {
            assert(self.history@.skip(0) =~= self.history@);
        }
        while self.history.len() > cap
            invariant
                self.history.wf(),
                self.batch@ == Seq::<(Seq<u8>, u64)>::empty(),
                cap == self.max_history_len,
                self.cursor_id == old(self).cursor_id,
                0 <= dropped <= merged.len(),
                self.history@ == merged.skip(dropped),
                dropped > 0 ==> merged.len() - dropped >= cap,
            decreases self.history@.len(),
        {
            self.history.pop_first();
            proof {
                dropped = dropped + 1;
                assert(merged.skip(dropped - 1).drop_first() =~= merged.skip(dropped));
            }
        }
    }

    /// The retained records with id greater than the resume id, or all
    /// of them without one: what a new session replays.
    pub fn replay(&self, resume_id: Option<u64>) -> (r: Vec<Score>)
        requires
            self.wf(),
        ensures
            models(r@) == match resume_id {
                Some(x) => self.history_view().skip(cut_at(self.history_view(), x)),
                None => self.history_view(),
            },
    {
        self.history.after(resume_id)
    }

    /// The decimal bytes of the greatest retained id, `0` with nothing
    /// retained: the one frame of the disconnect handshake.
    pub fn disconnect_reply(&self) -> (r: Vec<u8>)
        ensures
            r@ == crate::digits::dec_digits(
                if self.history_view().len() == 0 {
                    0nat
                } else {
                    self.history_view().last().1 as nat
                },
            ),
    {
        let id: u64 = match self.history.last() {
            Some(sc) => sc.id(),
            None => 0,
        };
        crate::digits::u64_to_dec(id)
    }
}

/// Law: deepening terminates.  `deepen_step` asks for another fetch
/// only when the smallest seen id moved down by at least
/// `ID_THRESHOLD`, so along any run of cursors `cs` whose rounds all
/// continue — `cs[i + 1] + ID_THRESHOLD <= cs[i]`, the `Some` case of
/// `deepen_step` — the number of extra fetches is bounded by the
/// starting cursor over the threshold; a tick can never deepen
/// forever.
pub proof fn lemma_deepening_terminates(cs: Seq<u64>)
    requires
        cs.len() >= 1,
        forall|i: int| 0 <= i < cs.len() - 1 ==> cs[i + 1] + ID_THRESHOLD <= #[trigger] cs[i],
    ensures
        (cs.len() - 1) * ID_THRESHOLD <= cs[0],
    decreases cs.len(),
{
    if cs.len() > 1 {
        let rest = cs.drop_first();
        assert forall|i: int| 0 <= i < rest.len() - 1 implies rest[i + 1] + ID_THRESHOLD
            <= #[trigger] rest[i] by {
            assert(rest[i] == cs[i + 1] && rest[i + 1] == cs[i + 2]);
        }
        lemma_deepening_terminates(rest);
        assert(rest[0] == cs[1]);
        assert(cs[1] + ID_THRESHOLD <= cs[0]);
        assert((cs.len() - 1) * ID_THRESHOLD == (rest.len() - 1) * ID_THRESHOLD + ID_THRESHOLD);
    }
}

/// Law: a merge bounded by the cap retains the greatest-id records
/// seen.  Everything evicted is smaller than everything retained, the
/// retained part stays within the cap, and it is still sorted.
pub proof fn lemma_eviction_retains_greatest(
    h: Seq<(Seq<u8>, u64)>,
    b: Seq<(Seq<u8>, u64)>,
    cap: int,
)
    requires
        ids_sorted(h),
        ids_sorted(b),
        0 <= cap,
    ensures
        ({
            let merged = rec_merge(h, b);
            let dropped = if merged.len() > cap {
                merged.len() - cap
            } else {
                0
            };
            let kept = merged.skip(dropped);
            &&& kept.len() <= cap
            &&& ids_sorted(kept)
            &&& forall|i: int, j: int|
                #![trigger merged[i], kept[j]]
                0 <= i < dropped && 0 <= j < kept.len() ==> merged[i].1 < kept[j].1
        }),
{
    crate::osu::scores::lemma_rec_merge_sorted(h, b);
    let merged = rec_merge(h, b);
    let dropped = if merged.len() > cap {
        merged.len() - cap
    } else {
        0
    };
    let kept = merged.skip(dropped);
    assert forall|i: int, j: int|
        #![trigger merged[i], kept[j]]
        0 <= i < dropped && 0 <= j < kept.len() implies merged[i].1 < kept[j].1 by {
        assert(kept[j] == merged[dropped + j]);
    }
}

/// Law: replaying from a resume id yields exactly the retained records
/// with a greater id, in ascending order, and none with a smaller or
/// equal one.
pub proof fn lemma_resume_exact(v: Seq<(Seq<u8>, u64)>, x: u64)
    requires
        ids_sorted(v),
    ensures
        ({
            let k = cut_at(v, x);
            let replayed = v.skip(k);
            &&& 0 <= k <= v.len()
            &&& forall|j: int| 0 <= j < replayed.len() ==> #[trigger] replayed[j].1 > x
            &&& forall|i: int| 0 <= i < v.len() && v[i].1 > x ==> k <= i
            &&& ids_sorted(replayed)
        }),
{
    lemma_cut_at_bounds(v, x);
    let k = cut_at(v, x);
    let replayed = v.skip(k);
    assert forall|j: int| 0 <= j < replayed.len() implies #[trigger] replayed[j].1 > x by {
        assert(replayed[j] == v[k + j]);
        if k + j > k {
            assert(v[k as int].1 < v[k + j].1);
        }
    }
}

/// The cut at `x` sits between the records with id at most `x` and
/// those beyond it.
proof fn lemma_cut_at_bounds(v: Seq<(Seq<u8>, u64)>, x: u64)
    requires
        ids_sorted(v),
    ensures
        0 <= cut_at(v, x) <= v.len(),
        forall|i: int| 0 <= i < cut_at(v, x) ==> #[trigger] v[i].1 <= x,
        cut_at(v, x) < v.len() ==> v[cut_at(v, x)].1 > x,
    decreases v.len(),
{
    if v.len() > 0 && v[0].1 <= x {
        assert(ids_sorted(v.drop_first()));
        lemma_cut_at_bounds(v.drop_first(), x);
        let k = cut_at(v, x);
        assert(k == 1 + cut_at(v.drop_first(), x));
        assert forall|i: int| 0 <= i < k implies #[trigger] v[i].1 <= x by {
            if i > 0 {
                assert(v.drop_first()[i - 1].1 <= x);
            }
        }
        if k < v.len() {
            assert(v.drop_first()[k - 1].1 > x);
        }
    }
}

} // verus!
