use crate::improve::{aborted, streets_by_wait, Improver};
use crate::sched::Schedule;
use crate::simulate::score_of;
use crate::{Score, Time};
use std::sync::atomic::AtomicBool;
use std::sync::Arc;
use vstd::prelude::*;

verus! {

broadcast use vstd::std_specs::hash::group_hash_axioms;

/// Tries random orders of the intersections where cars wait longest.
pub struct ShuffleImprover {
    min_wait_time: Time,
    max_streets: usize,
    max_shuffles: usize,
}

impl Default for ShuffleImprover {
    fn default() -> (r: Self)
        ensures
            r.min_wait_time() == 10,
            r.max_streets() == 10,
            r.max_shuffles() == 10,
    {
        Self { min_wait_time: 10, max_streets: 10, max_shuffles: 10 }
    }
}

impl ShuffleImprover {
    pub closed spec fn min_wait_time(&self) -> Time {
        self.min_wait_time
    }

    pub closed spec fn max_streets(&self) -> usize {
        self.max_streets
    }

    pub closed spec fn max_shuffles(&self) -> usize {
        self.max_shuffles
    }

    pub fn set_min_wait_time(&mut self, min_wait_time: u32)
        ensures
            final(self).min_wait_time() == min_wait_time,
            final(self).max_streets() == old(self).max_streets(),
            final(self).max_shuffles() == old(self).max_shuffles(),
    {
        self.min_wait_time = min_wait_time;
    }

    pub fn set_max_streets(&mut self, max_streets: usize)
        ensures
            final(self).max_streets() == max_streets,
            final(self).min_wait_time() == old(self).min_wait_time(),
            final(self).max_shuffles() == old(self).max_shuffles(),
    {
        self.max_streets = max_streets;
    }

    pub fn set_max_shuffles(&mut self, max_shuffles: usize)
        ensures
            final(self).max_shuffles() == max_shuffles,
            final(self).min_wait_time() == old(self).min_wait_time(),
            final(self).max_streets() == old(self).max_streets(),
    {
        self.max_shuffles = max_shuffles;
    }
}

pub open spec fn factorial(n: nat) -> nat
    decreases n,
{
    if n <= 1 {
        1
    } else {
        n * factorial((n - 1) as nat)
    }
}

/// `num * (num - 1) * ... * (k + 1)`.
pub open spec fn falling(num: nat, k: nat) -> nat
    decreases num,
{
    if num <= k {
        1
    } else {
        num * falling((num - 1) as nat, k)
    }
}

proof fn lemma_falling_factorial(num: nat, k: nat)
    requires
        1 <= k <= num,
    ensures
        factorial(num) == falling(num, k) * factorial(k),
    decreases num,
{
    if num > k {
        lemma_falling_factorial((num - 1) as nat, k);
        let a = falling((num - 1) as nat, k);
        let f = factorial(k);
        assert(factorial(num) == num * factorial((num - 1) as nat));
        assert(falling(num, k) == num * a);
        assert(factorial((num - 1) as nat) == a * f);
        assert(num * (a * f) == (num * a) * f) by (nonlinear_arith);
        assert(factorial(num) == falling(num, k) * factorial(k));
    } else {
        assert(falling(num, k) == 1);
        assert(1 * factorial(k) == factorial(k));
    }
}

proof fn lemma_factorial_pos(n: nat)
    ensures
        factorial(n) >= 1,
    decreases n,
{
    if n > 1 {
        lemma_factorial_pos((n - 1) as nat);
        assert(n * factorial((n - 1) as nat) >= 1) by (nonlinear_arith)
            requires
                n > 1,
                factorial((n - 1) as nat) >= 1,
        ;
    }
}

/// `num!`, or `max` when that is smaller (and `num` at least 2).
pub fn bounded_factorial(num: usize, max: usize) -> (r: usize)
    ensures
        r == if factorial(num as nat) > max && num >= 2 {
            max as nat
        } else {
            factorial(num as nat)
        },
{
    let mut fact: u128 = 1;
    let mut n: usize = num;
    while n >= 2
        invariant
            1 <= n <= num || (n == num && num < 2),
            fact == falling(num as nat, n as nat),
            fact <= max || (fact == 1 && n == num),
        decreases n,
    {
        proof {
            assert(falling(num as nat, (n - 1) as nat) == falling(num as nat, n as nat) * n) by {
                lemma_falling_step(num as nat, (n - 1) as nat);
            }
            assert(fact * n <= 0xffff_ffff_ffff_ffff * 0xffff_ffff_ffff_ffffu128) by (nonlinear_arith)
                requires
                    fact <= max || fact == 1,
                    max <= 0xffff_ffff_ffff_ffff,
                    n <= 0xffff_ffff_ffff_ffff,
            ;
        }
        fact = fact * n as u128;
        n -= 1;
        if fact > max as u128 {
            proof {
                if n >= 1 {
                    lemma_falling_factorial(num as nat, n as nat);
                    lemma_factorial_pos(n as nat);
                    assert(falling(num as nat, n as nat) * factorial(n as nat) >= falling(
                        num as nat,
                        n as nat,
                    )) by (nonlinear_arith)
                        requires
                            factorial(n as nat) >= 1,
                    ;
                }
            }
            return max;
        }
    }
    proof {
        if num >= 1 {
            lemma_falling_factorial(num as nat, n as nat);
            assert(factorial(n as nat) == 1);
        } else {
            assert(falling(0, n as nat) == 1);
        }
    }
    fact as usize
}

/// `falling(num, k) == falling(num, k + 1) * (k + 1)` below `num`.
proof fn lemma_falling_step(num: nat, k: nat)
    requires
        k < num,
    ensures
        falling(num, k) == falling(num, k + 1) * (k + 1),
    decreases num,
{
    if num == k + 1 {
        assert(falling((num - 1) as nat, k) == 1);
    } else {
        lemma_falling_step((num - 1) as nat, k);
        assert(num * (falling((num - 1) as nat, k + 1) * (k + 1)) == (num * falling(
            (num - 1) as nat,
            k + 1,
        )) * (k + 1)) by (nonlinear_arith);
    }
}

impl Improver for ShuffleImprover {
    fn improve<'a>(&self, abort_flag: Arc<AtomicBool>, schedule: Schedule<'a>) -> (r: Option<
        (Schedule<'a>, Score),
    >) {
        let sim = schedule.simulation;
        let stats = match schedule.stats() {
            Ok(s) => s,
            Err(_) => {
                return None;
            },
        };
        // Streets by total wait time
        let wait_times = streets_by_wait(&stats, sim.streets.len(), self.min_wait_time);
        let mut best_count: usize = 0;
        let mut best_score: Score = stats.score;
        let mut best_sched: Option<Schedule<'a>> = None;
        let mut i: usize = 0;
        while i < wait_times.len() && i < self.max_streets
            invariant
                schedule.wf(),
                sim == schedule.simulation,
                best_score >= score_of(&schedule),
                best_sched is None ==> best_score == score_of(&schedule),
                best_sched matches Some(s) ==> s.wf() && s.simulation == sim && best_score
                    == score_of(&s) && best_score > score_of(&schedule),
                0 <= i <= wait_times@.len(),
                forall|k: int| 0 <= k < wait_times@.len() ==> (#[trigger] wait_times@[k]).0 < sim.streets@.len(),
            decreases wait_times@.len() - i,
        {
            let street_id = wait_times[i].0;
            i += 1;
            let inter_id = sim.streets[street_id].end_intersection;
            if !schedule.intersections.contains_key(&inter_id) || schedule.is_street_always_green(
                street_id,
            ) {
                // This street is always green so can't be improved
                continue;
            }
            let num_streets = schedule.num_streets_in_intersection(street_id);
            let shuffles = bounded_factorial(num_streets, self.max_shuffles);
            let mut add_time: Time = 0;
            let mut stop = false;
            while add_time <= 2 && !stop
                invariant
                    schedule.wf(),
                    sim == schedule.simulation,
                    street_id < sim.streets@.len(),
                    inter_id == sim.street_end(street_id),
                    best_score >= score_of(&schedule),
                    best_sched is None ==> best_score == score_of(&schedule),
                    best_sched matches Some(s) ==> s.wf() && s.simulation == sim && best_score
                        == score_of(&s) && best_score > score_of(&schedule),
                    add_time <= 3,
                decreases 3 - add_time,
            {
                let mut new_schedule = schedule.clone();
                let cycle = new_schedule.cycle_at(inter_id);
                if add_time > 0 && cycle <= u32::MAX - add_time {
                    new_schedule.add_street_time(street_id, add_time);
                }
                let mut n: usize = 0;
                loop
                    invariant
                        schedule.wf(),
                        new_schedule.wf(),
                        sim == schedule.simulation,
                        new_schedule.simulation == sim,
                        street_id < sim.streets@.len(),
                        best_score >= score_of(&schedule),
                        best_sched is None ==> best_score == score_of(&schedule),
                        best_sched matches Some(s) ==> s.wf() && s.simulation == sim && best_score
                            == score_of(&s) && best_score > score_of(&schedule),
                        n <= shuffles,
                    decreases shuffles - n,
                {
                    if aborted(&abort_flag) {
                        stop = true;
                        break;
                    }
                    let new_stats = match new_schedule.stats() {
                        Ok(st) => st,
                        Err(_) => {
                            stop = true;
                            break;
                        },
                    };
                    if new_stats.score > best_score {
                        best_count += if best_count < 5 {
                            1
                        } else {
                            0
                        };
                        best_score = new_stats.score;
                        let cand = new_schedule.clone();
                        proof {
                            crate::simulate::lemma_same_plan_same_outcome(&new_schedule, &cand);
                        }
                        best_sched = Some(cand);
                    }
                    if n == shuffles {
                        break;
                    }
                    new_schedule.shuffle_intersection(street_id);
                    n += 1;
                }
                if aborted(&abort_flag) {
                    stop = true;
                }
                add_time += 1;
            }
            if stop || best_count >= 5 {
                break;
            }
        }
        match best_sched {
            Some(s) => Some((s, best_score)),
            None => None,
        }
    }
}

} // verus!
