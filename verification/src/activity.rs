//! Activity metrics: consecutive-run grouping over stored entries and the
//! query log, and day-length time bucketing.
//!
//! Grouping is run-based: consecutive items with the same key form one group
//! (so time-bucketed input should be ordered by timestamp). Counts cap at the
//! counter's maximum.

use vstd::prelude::*;
use crate::seqs::{spec_get, lemma_spec_get_at, lemma_spec_get_none, lemma_take_push,
    lemma_filter_push};
use crate::store::{Store, find_u32_key, entries_view};
use crate::types::{DateMetrics, EntryModel, QueryModel};

verus! {

/// Nanoseconds in one day-length bucket.
pub const DAY_NS: u64 = 86_400_000_000;

/// A count one higher, capped at the counter's maximum.
pub open spec fn sat_inc(c: u32) -> u32 {
    if c < u32::MAX {
        (c + 1) as u32
    } else {
        u32::MAX
    }
}

/// The consecutive runs of a key sequence: each maximal block of equal
/// adjacent keys becomes one pair of its key and its length.
pub open spec fn runs_of(keys: Seq<u64>) -> Seq<(u64, u32)>
    decreases keys.len(),
{
    if keys.len() == 0 {
        Seq::<(u64, u32)>::empty()
    } else {
        let prev = runs_of(keys.drop_last());
        let k = keys.last();
        if prev.len() > 0 && prev.last().0 == k {
            prev.update(prev.len() - 1, (k, sat_inc(prev.last().1)))
        } else {
            prev.push((k, 1u32))
        }
    }
}

/// A timestamp's day bucket: truncated to a whole number of day-lengths
/// (integer division, not calendar-aware).
pub open spec fn day_bucket(t: u64) -> u64 {
    (((t as int) / (DAY_NS as int)) * (DAY_NS as int)) as u64
}

/// Truncates a timestamp to the start of its day bucket.
pub fn day_bucket_exec(t: u64) -> (r: u64)
    ensures
        r == day_bucket(t),
{
    let d = t / DAY_NS;
    proof {
        vstd::arithmetic::div_mod::lemma_fundamental_div_mod(t as int, DAY_NS as int);
        assert((t as int) == (DAY_NS as int) * ((t as int) / (DAY_NS as int)) + (t as int) % (
        DAY_NS as int));
        assert((d as int) * (DAY_NS as int) <= t as int);
    }
    d * DAY_NS
}

/// Folds one more key into the runs built so far.
fn push_run(out: &mut Vec<(u64, u32)>, k: u64, Ghost(keys): Ghost<Seq<u64>>)
    requires
        old(out)@ == runs_of(keys),
    ensures
        final(out)@ == runs_of(keys.push(k)),
{
    proof {
        assert(keys.push(k).drop_last() =~= keys);
        assert(keys.push(k).last() == k);
    }
    let n = out.len();
    if n > 0 && out[n - 1].0 == k {
        let last = out[n - 1];
        let c: u32 = if last.1 < u32::MAX {
            last.1 + 1
        } else {
            u32::MAX
        };
        out.remove(n - 1);
        out.push((k, c));
        proof {
            assert(out@ =~= runs_of(keys).update(runs_of(keys).len() - 1, (k, sat_inc(last.1))));
        }
    } else {
        out.push((k, 1));
    }
}

impl Store {
    /// How many entries each producer contributed, grouped over consecutive
    /// runs of entries from the same producer, in stored order. A dataset
    /// without a collection reports nothing.
    pub fn get_producers_stats(&self, dataset_id: u32) -> (r: Vec<(u64, u32)>)
        ensures
            r@ == (match spec_get(self@.dataset_values, dataset_id) {
                Some(c) => runs_of(c.map_values(|e: EntryModel| e.producer)),
                None => Seq::<(u64, u32)>::empty(),
            }),
    {
        let found = find_u32_key(&self.dataset_values, dataset_id);
        match found {
            Some(i) => {
                proof {
                    assert forall|j: int| 0 <= j < i implies (#[trigger] self@.dataset_values[j]).0
                        != dataset_id by {
                        assert(self@.dataset_values[j].0 == self.dataset_values@[j].0);
                    }
                    lemma_spec_get_at(self@.dataset_values, dataset_id, i as int);
                }
                let ghost c = self@.dataset_values[i as int].1;
                let ghost keys = c.map_values(|e: EntryModel| e.producer);
                let list = &self.dataset_values[i].1;
                let mut out: Vec<(u64, u32)> = Vec::new();
                let mut j: usize = 0;
                while j < list.len()
                    invariant
                        0 <= j <= list@.len(),
                        c == entries_view(list@),
                        c.len() == list@.len(),
                        keys == c.map_values(|e: EntryModel| e.producer),
                        keys.len() == c.len(),
                        out@ == runs_of(keys.take(j as int)),
                    decreases list@.len() - j,
                {
                    let k = list[j].producer;
                    proof {
                        assert(list@[j as int]@ == c[j as int]);
                        assert(k == keys[j as int]);
                        lemma_take_push(keys, j as int);
                    }
                    push_run(&mut out, k, Ghost(keys.take(j as int)));
                    j = j + 1;
                }
                proof {
                    assert(keys.take(keys.len() as int) =~= keys);
                }
                out
            },
            None => {
                proof {
                    assert forall|j: int|
                        0 <= j < self@.dataset_values.len() implies (
                    #[trigger] self@.dataset_values[j]).0 != dataset_id by {
                        assert(self@.dataset_values[j].0 == self.dataset_values@[j].0);
                    }
                    lemma_spec_get_none(self@.dataset_values, dataset_id);
                }
                Vec::new()
            },
        }
    }

    /// When the dataset has a collection: its entries counted per day bucket
    /// of their creation time, grouped over consecutive runs in stored order.
    pub fn get_dataset_activity(&self, dataset_id: u32) -> (r: Option<Vec<DateMetrics>>)
        ensures
            match r {
                Some(v) => spec_get(self@.dataset_values, dataset_id) is Some && v@.map_values(
                    |d: DateMetrics| (d.date, d.value),
                ) == runs_of(
                    spec_get(self@.dataset_values, dataset_id)->Some_0.map_values(
                        |e: EntryModel| day_bucket(e.created_at),
                    ),
                ),
                None => spec_get(self@.dataset_values, dataset_id) is None,
            },
    {
        let found = find_u32_key(&self.dataset_values, dataset_id);
        match found {
            Some(i) => {
                proof {
                    assert forall|j: int| 0 <= j < i implies (#[trigger] self@.dataset_values[j]).0
                        != dataset_id by {
                        assert(self@.dataset_values[j].0 == self.dataset_values@[j].0);
                    }
                    lemma_spec_get_at(self@.dataset_values, dataset_id, i as int);
                }
                let ghost c = self@.dataset_values[i as int].1;
                let ghost keys = c.map_values(|e: EntryModel| day_bucket(e.created_at));
                let list = &self.dataset_values[i].1;
                let mut runs: Vec<(u64, u32)> = Vec::new();
                let mut j: usize = 0;
                while j < list.len()
                    invariant
                        0 <= j <= list@.len(),
                        c == entries_view(list@),
                        c.len() == list@.len(),
                        keys == c.map_values(|e: EntryModel| day_bucket(e.created_at)),
                        keys.len() == c.len(),
                        runs@ == runs_of(keys.take(j as int)),
                    decreases list@.len() - j,
                {
                    let k = day_bucket_exec(list[j].created_at);
                    proof {
                        assert(list@[j as int]@ == c[j as int]);
                        assert(k == keys[j as int]);
                        lemma_take_push(keys, j as int);
                    }
                    push_run(&mut runs, k, Ghost(keys.take(j as int)));
                    j = j + 1;
                }
                proof {
                    assert(keys.take(keys.len() as int) =~= keys);
                }
                let mut out: Vec<DateMetrics> = Vec::new();
                let mut q: usize = 0;
                while q < runs.len()
                    invariant
                        0 <= q <= runs@.len(),
                        out@.len() == q,
                        forall|p: int|
                            0 <= p < q ==> ((#[trigger] out@[p]).date, out@[p].value) == runs@[p],
                    decreases runs@.len() - q,
                {
                    out.push(DateMetrics { date: runs[q].0, value: runs[q].1 });
                    q = q + 1;
                }
                proof {
                    assert(out@.map_values(|d: DateMetrics| (d.date, d.value)) =~= runs@);
                }
                Some(out)
            },
            None => {
                proof {
                    assert forall|j: int|
                        0 <= j < self@.dataset_values.len() implies (
                    #[trigger] self@.dataset_values[j]).0 != dataset_id by {
                        assert(self@.dataset_values[j].0 == self.dataset_values@[j].0);
                    }
                    lemma_spec_get_none(self@.dataset_values, dataset_id);
                }
                None
            },
        }
    }

    /// The dataset's logged queries counted per day bucket of their
    /// timestamp, grouped over consecutive runs in log order.
    pub fn get_dataset_query_activity(&self, dataset_id: u32) -> (r: Vec<DateMetrics>)
        ensures
            r@.map_values(|d: DateMetrics| (d.date, d.value)) == runs_of(
                self@.queries.filter(
                    |p: (u32, QueryModel)| p.1.query_meta.dataset_id == dataset_id,
                ).map_values(|p: (u32, QueryModel)| day_bucket(p.1.timestamp)),
            ),
    {
        let ghost mq = self@.queries;
        let ghost qpred = |p: (u32, QueryModel)| p.1.query_meta.dataset_id == dataset_id;
        let ghost keyf = |p: (u32, QueryModel)| day_bucket(p.1.timestamp);
        let mut runs: Vec<(u64, u32)> = Vec::new();
        let mut i: usize = 0;
        while i < self.queries.len()
            invariant
                0 <= i <= self.queries@.len(),
                mq == self@.queries,
                mq.len() == self.queries@.len(),
                qpred == (|p: (u32, QueryModel)| p.1.query_meta.dataset_id == dataset_id),
                keyf == (|p: (u32, QueryModel)| day_bucket(p.1.timestamp)),
                runs@ == runs_of(mq.take(i as int).filter(qpred).map_values(keyf)),
            decreases self.queries@.len() - i,
        {
            let pair = &self.queries[i];
            proof {
                assert((pair.0, pair.1@) == mq[i as int]);
                lemma_take_push(mq, i as int);
                lemma_filter_push(mq.take(i as int), qpred, mq[i as int]);
            }
            if pair.1.query_meta.dataset_id == dataset_id {
                let k = day_bucket_exec(pair.1.timestamp);
                proof {
                    assert(qpred(mq[i as int]));
                    assert(k == keyf(mq[i as int]));
                    assert(mq.take(i + 1 as int).filter(qpred).map_values(keyf) =~= mq.take(
                        i as int,
                    ).filter(qpred).map_values(keyf).push(keyf(mq[i as int])));
                }
                push_run(&mut runs, k, Ghost(mq.take(i as int).filter(qpred).map_values(keyf)));
            } else {
                proof {
                    assert(!qpred(mq[i as int]));
                    assert(mq.take(i + 1 as int).filter(qpred).map_values(keyf) =~= mq.take(
                        i as int,
                    ).filter(qpred).map_values(keyf));
                }
            }
            i = i + 1;
        }
        proof {
            assert(mq.take(mq.len() as int) =~= mq);
        }
        let mut out: Vec<DateMetrics> = Vec::new();
        let mut q: usize = 0;
        while q < runs.len()
            invariant
                0 <= q <= runs@.len(),
                out@.len() == q,
                forall|p: int|
                    0 <= p < q ==> ((#[trigger] out@[p]).date, out@[p].value) == runs@[p],
            decreases runs@.len() - q,
        {
            out.push(DateMetrics { date: runs[q].0, value: runs[q].1 });
            q = q + 1;
        }
        proof {
            assert(out@.map_values(|d: DateMetrics| (d.date, d.value)) =~= runs@);
        }
        out
    }
}

} // verus!
