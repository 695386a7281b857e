use crate::improve::{aborted, streets_by_wait, Improver};
use crate::intersect::reorder_intersection;
use crate::sched::Schedule;
use crate::simulate::score_of;
use crate::{IntersectionId, Score, StreetId, Time};
use std::sync::atomic::AtomicBool;
use std::sync::Arc;
use vstd::prelude::*;

verus! {

broadcast use vstd::std_specs::hash::group_hash_axioms;

/// Reorders the intersections where cars wait longest, then tries giving
/// their busiest streets more time.
pub struct GreedyImprover {
    min_wait_time: Time,
    max_streets: usize,
    max_add_time: Time,
}

impl Default for GreedyImprover {
    fn default() -> (r: Self)
        ensures
            r.min_wait_time() == 10,
            r.max_streets() == 10,
            r.max_add_time() == 1,
    {
        Self { min_wait_time: 10, max_streets: 10, max_add_time: 1 }
    }
}

impl GreedyImprover {
    pub closed spec fn min_wait_time(&self) -> Time {
        self.min_wait_time
    }

    pub closed spec fn max_streets(&self) -> usize {
        self.max_streets
    }

    pub closed spec fn max_add_time(&self) -> Time {
        self.max_add_time
    }

    pub fn set_min_wait_time(&mut self, min_wait_time: Time)
        ensures
            final(self).min_wait_time() == min_wait_time,
            final(self).max_streets() == old(self).max_streets(),
            final(self).max_add_time() == old(self).max_add_time(),
    {
        self.min_wait_time = min_wait_time;
    }

    pub fn set_max_streets(&mut self, max_streets: usize)
        ensures
            final(self).max_streets() == max_streets,
            final(self).min_wait_time() == old(self).min_wait_time(),
            final(self).max_add_time() == old(self).max_add_time(),
    {
        self.max_streets = max_streets;
    }

    pub fn set_max_add_time(&mut self, max_add_time: Time)
        ensures
            final(self).max_add_time() == max_add_time,
            final(self).min_wait_time() == old(self).min_wait_time(),
            final(self).max_streets() == old(self).max_streets(),
    {
        self.max_add_time = max_add_time;
    }
}

impl Improver for GreedyImprover {
    fn improve<'a>(&self, abort_flag: Arc<AtomicBool>, schedule: Schedule<'a>) -> (r: Option<
        (Schedule<'a>, Score),
    >) {
        let sim = schedule.simulation;
        let stats = match schedule.stats() {
            Ok(s) => s,
            Err(_) => {
                return None;
            },
        };
        // Streets by total wait time, leaving out those always green
        let by_wait = streets_by_wait(&stats, sim.streets.len(), self.min_wait_time);
        let mut wait_times: Vec<(StreetId, Time)> = Vec::new();
        let mut i: usize = 0;
        while i < by_wait.len() && wait_times.len() < self.max_streets
            invariant
                schedule.wf(),
                sim == schedule.simulation,
                0 <= i <= by_wait@.len(),
                forall|k: int| 0 <= k < by_wait@.len() ==> (#[trigger] by_wait@[k]).0 < sim.streets@.len(),
                forall|k: int| 0 <= k < wait_times@.len() ==> (#[trigger] wait_times@[k]).0 < sim.streets@.len(),
            decreases by_wait@.len() - i,
        {
            let street_id = by_wait[i].0;
            let inter_id = sim.streets[street_id].end_intersection;
            let always_green = match schedule.intersections.get(&inter_id) {
                Some(_) => schedule.is_street_always_green(street_id),
                None => false,
            };
            if !always_green {
                wait_times.push(by_wait[i]);
            }
            i += 1;
        }
        // Intersections of those streets, in that order
        let mut inter_ids: Vec<IntersectionId> = Vec::new();
        let mut i: usize = 0;
        while i < wait_times.len()
            invariant
                schedule.wf(),
                sim == schedule.simulation,
                0 <= i <= wait_times@.len(),
                forall|k: int| 0 <= k < wait_times@.len() ==> (#[trigger] wait_times@[k]).0 < sim.streets@.len(),
            decreases wait_times@.len() - i,
        {
            let inter_id = sim.streets[wait_times[i].0].end_intersection;
            let mut seen = false;
            let mut k: usize = 0;
            while k < inter_ids.len()
                invariant
                    0 <= k <= inter_ids@.len(),
                decreases inter_ids@.len() - k,
            {
                if inter_ids[k] == inter_id {
                    seen = true;
                }
                k += 1;
            }
            if !seen {
                inter_ids.push(inter_id);
            }
            i += 1;
        }
        let mut best_count: usize = 0;
        let mut best_score: Score = stats.score;
        let mut best_sched: Option<Schedule<'a>> = None;
        // First, try to improve each intersection by reordering streets
        // without changing their times
        let mut i: usize = 0;
        while i < inter_ids.len()
            invariant
                schedule.wf(),
                sim == schedule.simulation,
                best_score >= score_of(&schedule),
                best_sched is None ==> best_score == score_of(&schedule),
                best_sched matches Some(s) ==> s.wf() && s.simulation == sim && best_score
                    == score_of(&s) && best_score > score_of(&schedule),
                0 <= i <= inter_ids@.len(),
                best_count <= i,
            decreases inter_ids@.len() - i,
        {
            if aborted(&abort_flag) {
                break;
            }
            let inter_id = inter_ids[i];
            i += 1;
            if schedule.intersections.contains_key(&inter_id) {
                let mut new_schedule = schedule.clone();
                let new_score = reorder_intersection(&mut new_schedule, inter_id);
                if new_score > best_score {
                    best_count += 1;
                    best_score = new_score;
                    best_sched = Some(new_schedule);
                    if best_count >= 5 {
                        break;
                    }
                }
            }
        }
        let mut best_count: usize = 0;
        if best_sched.is_some() {
            // If a better schedule was found, return it
            return match best_sched {
                Some(s) => Some((s, best_score)),
                None => None,
            };
        }
        if aborted(&abort_flag) {
            return None;
        }
        // Try to improve schedule by adding time to busy streets
        let mut add_time: Time = 1;
        while add_time <= self.max_add_time
            invariant
                schedule.wf(),
                sim == schedule.simulation,
                best_score >= score_of(&schedule),
                best_sched is None ==> best_score == score_of(&schedule),
                best_sched matches Some(s) ==> s.wf() && s.simulation == sim && best_score
                    == score_of(&s) && best_score > score_of(&schedule),
                1 <= add_time,
                best_sched is None,
                best_count == 0,
                forall|k: int| 0 <= k < wait_times@.len() ==> (#[trigger] wait_times@[k]).0 < sim.streets@.len(),
            decreases self.max_add_time + 1 - add_time,
        {
            let mut stop = false;
            let mut i: usize = 0;
            while i < wait_times.len()
                invariant
                    schedule.wf(),
                    sim == schedule.simulation,
                    best_score >= score_of(&schedule),
                    best_sched is None ==> best_score == score_of(&schedule),
                    best_sched matches Some(s) ==> s.wf() && s.simulation == sim && best_score
                        == score_of(&s) && best_score > score_of(&schedule),
                    1 <= add_time,
                    0 <= i <= wait_times@.len(),
                    best_count <= i,
                    best_sched is None ==> best_count == 0,
                    forall|k: int| 0 <= k < wait_times@.len() ==> (#[trigger] wait_times@[k]).0 < sim.streets@.len(),
                decreases wait_times@.len() - i,
            {
                if aborted(&abort_flag) {
                    stop = true;
                    break;
                }
                let street_id = wait_times[i].0;
                i += 1;
                let inter_id = sim.streets[street_id].end_intersection;
                if schedule.cycle_at(inter_id) <= u32::MAX - add_time {
                    let mut new_schedule = schedule.clone();
                    new_schedule.add_street_time(street_id, add_time);
                    let new_score = reorder_intersection(&mut new_schedule, inter_id);
                    if new_score > best_score {
                        best_count = best_count + 1;
                        best_score = new_score;
                        best_sched = Some(new_schedule);
                        if best_count >= 5 {
                            stop = true;
                            break;
                        }
                    }
                }
            }
            if stop || best_sched.is_some() {
                return match best_sched {
                    Some(s) => Some((s, best_score)),
                    None => None,
                };
            }
            if add_time == u32::MAX {
                break;
            }
            add_time += 1;
        }
        match best_sched {
            Some(s) => Some((s, best_score)),
            None => None,
        }
    }
}

} // verus!
