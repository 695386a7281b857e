use crate::improve::streets_by_wait;
use crate::naive::Naive;
use crate::sched::{Schedule, Scheduler};
use crate::shuffle::bounded_factorial;
use crate::simulate::score_of;
use crate::{Score, Simulation, Time};
use vstd::prelude::*;

verus! {

broadcast use vstd::std_specs::hash::group_hash_axioms;

/// Starts from the naive schedule and, round after round, keeps the best of
/// a few extra seconds and random orders at the busiest streets.
pub struct IncrementalScheduler {
    rounds: u32,
    min_wait_time: Time,
    max_streets_per_round: usize,
    max_shuffles_per_street: usize,
}

impl Default for IncrementalScheduler {
    fn default() -> (r: Self)
        ensures
            r.rounds() == 10,
            r.min_wait_time() == 10,
            r.max_streets_per_round() == 10,
            r.max_shuffles_per_street() == 10,
    {
        Self { rounds: 10, min_wait_time: 10, max_streets_per_round: 10, max_shuffles_per_street: 10 }
    }
}

impl IncrementalScheduler {
    pub closed spec fn rounds(&self) -> u32 {
        self.rounds
    }

    pub closed spec fn min_wait_time(&self) -> Time {
        self.min_wait_time
    }

    pub closed spec fn max_streets_per_round(&self) -> usize {
        self.max_streets_per_round
    }

    pub closed spec fn max_shuffles_per_street(&self) -> usize {
        self.max_shuffles_per_street
    }

    pub fn set_rounds(&mut self, rounds: u32)
        ensures
            final(self).rounds() == rounds,
            final(self).min_wait_time() == old(self).min_wait_time(),
            final(self).max_streets_per_round() == old(self).max_streets_per_round(),
            final(self).max_shuffles_per_street() == old(self).max_shuffles_per_street(),
    {
        self.rounds = rounds;
    }

    pub fn set_min_wait_time(&mut self, min_wait_time: u32)
        ensures
            final(self).min_wait_time() == min_wait_time,
            final(self).rounds() == old(self).rounds(),
            final(self).max_streets_per_round() == old(self).max_streets_per_round(),
            final(self).max_shuffles_per_street() == old(self).max_shuffles_per_street(),
    {
        self.min_wait_time = min_wait_time;
    }

    pub fn set_max_streets_per_round(&mut self, max_streets_per_round: usize)
        ensures
            final(self).max_streets_per_round() == max_streets_per_round,
            final(self).rounds() == old(self).rounds(),
            final(self).min_wait_time() == old(self).min_wait_time(),
            final(self).max_shuffles_per_street() == old(self).max_shuffles_per_street(),
    {
        self.max_streets_per_round = max_streets_per_round;
    }

    pub fn set_max_shuffles_per_street(&mut self, max_shuffles: usize)
        ensures
            final(self).max_shuffles_per_street() == max_shuffles,
            final(self).rounds() == old(self).rounds(),
            final(self).min_wait_time() == old(self).min_wait_time(),
            final(self).max_streets_per_round() == old(self).max_streets_per_round(),
    {
        self.max_shuffles_per_street = max_shuffles;
    }
}

impl Scheduler for IncrementalScheduler {
    fn schedule<'a>(&self, simulation: &'a Simulation) -> (r: Schedule<'a>) {
        let start = Naive {}.schedule(simulation);
        self.improve_from(start)
    }
}

impl IncrementalScheduler {
    /// Runs the rounds from `start`; the result never scores less.
    pub fn improve_from<'a>(&self, start: Schedule<'a>) -> (r: Schedule<'a>)
        requires
            start.wf(),
        ensures
            r.wf(),
            r.simulation == start.simulation,
            score_of(&r) >= score_of(&start),
    {
        let simulation = start.simulation;
        let ghost s0 = start;
        let mut schedule = start;
        let mut round: u32 = 1;
        while round <= self.rounds
            invariant
                schedule.wf(),
                schedule.simulation == simulation,
                s0.simulation == simulation,
                score_of(&schedule) >= score_of(&s0),
                round >= 1,
            decreases self.rounds + 1 - round,
        {
            let stats = match schedule.stats() {
                Ok(st) => st,
                Err(_) => {
                    break;
                },
            };
            // Streets by total wait time
            let wait_times = streets_by_wait(&stats, simulation.streets.len(), self.min_wait_time);
            let mut best_count: usize = 0;
            let mut best_score: Score = stats.score;
            let mut best_change: Option<Schedule<'a>> = None;
            let mut i: usize = 0;
            while i < wait_times.len() && i < self.max_streets_per_round
                invariant
                    best_score >= score_of(&schedule),
                    schedule.wf(),
                    schedule.simulation == simulation,
                    best_score >= score_of(&schedule),
                    best_change matches Some(s) ==> best_score >= score_of(&schedule) && s.wf() && s.simulation == simulation
                        && best_score == score_of(&s),
                    0 <= i <= wait_times@.len(),
                    forall|k: int|
                        0 <= k < wait_times@.len() ==> (#[trigger] wait_times@[k]).0
                            < simulation.streets@.len(),
                decreases wait_times@.len() - i,
            {
                let street_id = wait_times[i].0;
                i += 1;
                let inter_id = simulation.streets[street_id].end_intersection;
                if !schedule.intersections.contains_key(&inter_id)
                    || schedule.is_street_always_green(street_id) {
                    // This street is always green so can't be improved
                    continue;
                }
                let shuffles = bounded_factorial(
                    schedule.num_streets_in_intersection(street_id),
                    self.max_shuffles_per_street,
                );
                let mut add_time: Time = 0;
                while add_time <= 2
                    invariant
                        best_score >= score_of(&schedule),
                        schedule.wf(),
                        schedule.simulation == simulation,
                        street_id < simulation.streets@.len(),
                        inter_id == simulation.street_end(street_id),
                        best_change matches Some(s) ==> best_score >= score_of(&schedule) && s.wf() && s.simulation == simulation
                            && best_score == score_of(&s),
                        add_time <= 3,
                    decreases 3 - add_time,
                {
                    let mut new_schedule = schedule.clone();
                    if add_time > 0 && new_schedule.cycle_at(inter_id) <= u32::MAX - add_time {
                        new_schedule.add_street_time(street_id, add_time);
                    }
                    let mut n: usize = 0;
                    loop
                        invariant
                            best_score >= score_of(&schedule),
                            schedule.wf(),
                            new_schedule.wf(),
                            schedule.simulation == simulation,
                            new_schedule.simulation == simulation,
                            street_id < simulation.streets@.len(),
                            best_change matches Some(s) ==> best_score >= score_of(&schedule) && s.wf() && s.simulation == simulation
                                && best_score == score_of(&s),
                            n <= shuffles,
                        decreases shuffles - n,
                    {
                        let new_stats = match new_schedule.stats() {
                            Ok(st) => st,
                            Err(_) => {
                                break;
                            },
                        };
                        if new_stats.score > best_score {
                            best_count += if best_count < 5 {
                                1
                            } else {
                                0
                            };
                            best_score = new_stats.score;
                            let cand = new_schedule.clone();
                            proof {
                                crate::simulate::lemma_same_plan_same_outcome(&new_schedule, &cand);
                            }
                            best_change = Some(cand);
                        }
                        if n == shuffles {
                            break;
                        }
                        new_schedule.shuffle_intersection(street_id);
                        n += 1;
                    }
                    add_time += 1;
                }
                if best_count >= 5 {
                    break;
                }
            }
            match best_change {
                Some(new_schedule) => {
                    schedule = new_schedule;
                },
                None => {
                    // No further improvements could be made
                    break;
                },
            }
            if round == u32::MAX {
                break;
            }
            round += 1;
        }
        schedule
    }
}

} // verus!
