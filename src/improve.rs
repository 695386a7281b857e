use crate::sched::{Schedule, ScheduleStats};
use crate::simulate::score_of;
use crate::{Score, StreetId, Time};
use std::sync::atomic::{AtomicBool, Ordering};
use std::sync::Arc;
use vstd::prelude::*;

verus! {

broadcast use vstd::std_specs::hash::group_hash_axioms;

/// A search for a better schedule.
pub trait Improver {
    /// A schedule that scores strictly more than `schedule`, with its score,
    /// or `None` when none was found before `abort_flag` was raised.
    fn improve<'a>(&self, abort_flag: Arc<AtomicBool>, schedule: Schedule<'a>) -> (r: Option<
        (Schedule<'a>, Score),
    >)
        requires
            schedule.wf(),
        ensures
            r matches Some((s, score)) ==> {
                &&& s.wf()
                &&& s.simulation == schedule.simulation
                &&& score == score_of(&s)
                &&& score > score_of(&schedule)
            },
    ;
}

/// Whether a stop was asked for.
pub fn aborted(abort_flag: &Arc<AtomicBool>) -> bool {
    let flag: &AtomicBool = abort_flag;
    flag.load(Ordering::SeqCst)
}

/// Whether the pairs are ordered by decreasing wait time.
pub open spec fn by_wait_desc(v: Seq<(StreetId, Time)>) -> bool {
    forall|i: int, j: int| 0 <= i < j < v.len() ==> (#[trigger] v[i]).1 >= (#[trigger] v[j]).1
}

/// The streets whose total wait time in `stats` is at least `min_wait_time`,
/// by decreasing wait time and, for equal times, by street id.
pub fn streets_by_wait(stats: &ScheduleStats, num_streets: usize, min_wait_time: Time) -> (r: Vec<
    (StreetId, Time),
>)
    ensures
        by_wait_desc(r@),
        forall|i: int|
            0 <= i < r@.len() ==> {
                &&& (#[trigger] r@[i]).0 < num_streets
                &&& stats.total_wait_time@.contains_key(r@[i].0)
                &&& stats.total_wait_time@[r@[i].0] == r@[i].1
                &&& r@[i].1 >= min_wait_time
            },
        forall|s: StreetId|
            s < num_streets && #[trigger] stats.total_wait_time@.contains_key(s)
                && stats.total_wait_time@[s] >= min_wait_time ==> exists|i: int|
                0 <= i < r@.len() && r@[i].0 == s,
{
    let mut r: Vec<(StreetId, Time)> = Vec::new();
    let mut s: usize = 0;
    while s < num_streets
        invariant
            0 <= s <= num_streets,
            by_wait_desc(r@),
            forall|i: int|
                0 <= i < r@.len() ==> {
                    &&& (#[trigger] r@[i]).0 < s
                    &&& stats.total_wait_time@.contains_key(r@[i].0)
                    &&& stats.total_wait_time@[r@[i].0] == r@[i].1
                    &&& r@[i].1 >= min_wait_time
                },
            forall|x: StreetId|
                x < s && #[trigger] stats.total_wait_time@.contains_key(x)
                    && stats.total_wait_time@[x] >= min_wait_time ==> exists|i: int|
                    0 <= i < r@.len() && r@[i].0 == x,
        decreases num_streets - s,
    {
        match stats.total_wait_time.get(&s) {
            Some(w) => {
                let wait = *w;
                if wait >= min_wait_time {
                    let mut p: usize = 0;
                    while p < r.len()
                        invariant
                            0 <= p <= r@.len(),
                            forall|i: int| 0 <= i < p ==> (#[trigger] r@[i]).1 >= wait,
                        ensures
                            p == r@.len() || r@[p as int].1 < wait,
                            forall|i: int| 0 <= i < p ==> (#[trigger] r@[i]).1 >= wait,
                        decreases r@.len() - p,
                    {
                        if r[p].1 < wait {
                            break;
                        }
                        p += 1;
                    }
                    let ghost old_r = r@;
                    r.insert(p, (s, wait));
                    proof {
                        assert forall|i: int, j: int| 0 <= i < j < r@.len() implies (
                        #[trigger] r@[i]).1 >= (#[trigger] r@[j]).1 by {
                            if i < p && j < p {
                                assert(r@[i] == old_r[i] && r@[j] == old_r[j]);
                            } else if i < p && j == p {
                                assert(r@[i] == old_r[i]);
                            } else if i < p {
                                assert(r@[i] == old_r[i] && r@[j] == old_r[j - 1]);
                            } else if i == p {
                                assert(r@[j] == old_r[j - 1]);
                                if j - 1 > p {
                                    assert(old_r[p as int].1 >= old_r[j - 1].1);
                                }
                            } else {
                                assert(r@[i] == old_r[i - 1] && r@[j] == old_r[j - 1]);
                            }
                        }
                        assert forall|i: int| 0 <= i < r@.len() implies {
                            &&& (#[trigger] r@[i]).0 < s + 1
                            &&& stats.total_wait_time@.contains_key(r@[i].0)
                            &&& stats.total_wait_time@[r@[i].0] == r@[i].1
                            &&& r@[i].1 >= min_wait_time
                        } by {
                            if i < p {
                                assert(r@[i] == old_r[i]);
                            } else if i > p {
                                assert(r@[i] == old_r[i - 1]);
                            }
                        }
                        assert forall|x: StreetId|
                            x < s + 1 && #[trigger] stats.total_wait_time@.contains_key(x)
                                && stats.total_wait_time@[x] >= min_wait_time implies exists|i: int|
                            0 <= i < r@.len() && r@[i].0 == x by {
                            if x == s {
                                assert(r@[p as int].0 == x);
                            } else {
                                let k = choose|k: int| 0 <= k < old_r.len() && old_r[k].0 == x;
                                if k < p {
                                    assert(r@[k].0 == x);
                                } else {
                                    assert(r@[k + 1].0 == x);
                                }
                            }
                        }
                    }
                }
            },
            None => {},
        }
        s += 1;
    }
    r
}

/// Runs an improver round after round, keeping each better schedule.
pub struct IncrementalImprover {
    max_rounds: Option<u32>,
    abort_flag: Arc<AtomicBool>,
}

impl IncrementalImprover {
    pub fn new(abort_flag: Arc<AtomicBool>) -> (r: Self)
        ensures
            r.max_rounds() == None::<u32>,
    {
        Self { max_rounds: None, abort_flag }
    }

    pub closed spec fn max_rounds(&self) -> Option<u32> {
        self.max_rounds
    }

    pub fn set_max_rounds(&mut self, rounds: u32)
        ensures
            final(self).max_rounds() == Some(rounds),
    {
        self.max_rounds = Some(rounds);
    }

    /// Improves `initial_schedule` until the improver finds nothing better,
    /// the rounds run out, or a stop is asked for; the result never scores
    /// less than the start.
    pub fn improve<'a, I: Improver>(&self, initial_schedule: &Schedule<'a>, improver: &I) -> (r:
        Schedule<'a>)
        requires
            initial_schedule.wf(),
        ensures
            r.wf(),
            r.simulation == initial_schedule.simulation,
            score_of(&r) >= score_of(initial_schedule),
            self.max_rounds() == Some(0u32) ==> r.intersections@ == initial_schedule.intersections@,
            score_of(&r) == score_of(initial_schedule) ==> r.intersections@
                == initial_schedule.intersections@,
            r.intersections@ == initial_schedule.intersections@ || score_of(&r) > score_of(
                initial_schedule,
            ),
    {
        let mut schedule = initial_schedule.clone();
        proof {
            crate::simulate::lemma_same_plan_same_outcome(initial_schedule, &schedule);
        }
        let start = schedule.stats();
        let mut round: u64 = 1;
        while self.max_rounds.is_none() || round <= self.max_rounds.unwrap() as u64
            invariant
                schedule.wf(),
                schedule.simulation == initial_schedule.simulation,
                score_of(&schedule) >= score_of(initial_schedule),
                score_of(&schedule) <= u64::MAX,
                round >= 1,
                score_of(&schedule) == score_of(initial_schedule) ==> schedule.intersections@
                    == initial_schedule.intersections@,
                self.max_rounds == Some(0u32) ==> schedule.intersections@
                    == initial_schedule.intersections@,
            decreases u64::MAX - score_of(&schedule),
        {
            let candidate = schedule.clone();
            proof {
                crate::simulate::lemma_same_plan_same_outcome(&schedule, &candidate);
            }
            match improver.improve(self.abort_flag.clone(), candidate) {
                Some((new_schedule, _new_score)) => {
                    schedule = new_schedule;
                },
                None => {
                    break;
                },
            }
            if aborted(&self.abort_flag) {
                break;
            }
            if round == u64::MAX {
                break;
            }
            round = round + 1;
        }
        schedule
    }
}

} // verus!
