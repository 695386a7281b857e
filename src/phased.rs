use crate::improve::{aborted, streets_by_wait, Improver};
use crate::intersect::reorder_intersection;
use crate::sched::{Schedule, ScheduleStats};
use crate::shuffle::bounded_factorial;
use crate::simulate::score_of;
use crate::{IntersectionId, Score, StreetId, Time};
use std::sync::atomic::AtomicBool;
use std::sync::Arc;
use vstd::prelude::*;

verus! {

broadcast use vstd::std_specs::hash::group_hash_axioms;

/// `r`, when there is one, is a schedule of the same city that scores more
/// than `base`, with its score.
pub open spec fn improves<'a>(base: &Schedule<'a>, r: Option<(Schedule<'a>, Score)>) -> bool {
    r matches Some((s, score)) ==> {
        &&& s.wf()
        &&& s.simulation == base.simulation
        &&& score == score_of(&s)
        &&& score > score_of(base)
    }
}

/// Tries, in turn, removing streets never crossed, adding streets that
/// wait, reordering intersections, lengthening busy streets, adding or
/// removing a second or two, shuffling, and larger changes of time;
/// returns the first change that scores more.
pub struct PhasedImprover {
    max_add_time: Time,
    max_sub_time: Time,
    max_streets_per_inter: usize,
    max_shuffles_per_inter: usize,
}

impl Default for PhasedImprover {
    fn default() -> (r: Self)
        ensures
            r.max_add_time() == 10,
            r.max_sub_time() == 5,
            r.max_streets_per_inter() == 30,
            r.max_shuffles() == 259,
    {
        Self {
            max_add_time: 10,
            max_sub_time: 5,
            max_streets_per_inter: 30,
            max_shuffles_per_inter: 259,
        }
    }
}

impl PhasedImprover {
    pub closed spec fn max_add_time(&self) -> Time {
        self.max_add_time
    }

    pub closed spec fn max_sub_time(&self) -> Time {
        self.max_sub_time
    }

    pub closed spec fn max_streets_per_inter(&self) -> usize {
        self.max_streets_per_inter
    }

    pub closed spec fn max_shuffles(&self) -> usize {
        self.max_shuffles_per_inter
    }

    pub fn set_max_add_time(&mut self, max_add_time: Time)
        ensures
            final(self).max_add_time() == max_add_time,
            final(self).max_sub_time() == old(self).max_sub_time(),
            final(self).max_streets_per_inter() == old(self).max_streets_per_inter(),
            final(self).max_shuffles() == old(self).max_shuffles(),
    {
        self.max_add_time = max_add_time;
    }

    pub fn set_max_sub_time(&mut self, max_sub_time: Time)
        ensures
            final(self).max_sub_time() == max_sub_time,
            final(self).max_add_time() == old(self).max_add_time(),
            final(self).max_streets_per_inter() == old(self).max_streets_per_inter(),
            final(self).max_shuffles() == old(self).max_shuffles(),
    {
        self.max_sub_time = max_sub_time;
    }

    pub fn set_max_shuffles(&mut self, max_shuffles_per_inter: usize)
        ensures
            final(self).max_shuffles() == max_shuffles_per_inter,
            final(self).max_add_time() == old(self).max_add_time(),
            final(self).max_sub_time() == old(self).max_sub_time(),
            final(self).max_streets_per_inter() == old(self).max_streets_per_inter(),
    {
        self.max_shuffles_per_inter = max_shuffles_per_inter;
    }

    pub fn set_max_streets_per_inter(&mut self, max_streets_per_inter: usize)
        ensures
            final(self).max_streets_per_inter() == max_streets_per_inter,
            final(self).max_add_time() == old(self).max_add_time(),
            final(self).max_sub_time() == old(self).max_sub_time(),
            final(self).max_shuffles() == old(self).max_shuffles(),
    {
        self.max_streets_per_inter = max_streets_per_inter;
    }

    /// Removes every street that no car crossed, then each one alone.
    fn phase1<'a>(
        &self,
        abort_flag: &Arc<AtomicBool>,
        schedule: &Schedule<'a>,
        curr_stats: &ScheduleStats,
        intersections: &Vec<(IntersectionId, u64)>,
    ) -> (r: Option<(Schedule<'a>, Score)>)
        requires
            schedule.wf(),
            curr_stats.score == score_of(schedule),
        ensures
            improves(schedule, r),
    {
        let sim = schedule.simulation;
        let mut new_sched = schedule.clone();
        let mut modified: Vec<IntersectionId> = Vec::new();
        let mut removed: Vec<(IntersectionId, StreetId)> = Vec::new();
        let mut i: usize = 0;
        while i < intersections.len()
            invariant
                schedule.wf(),
                new_sched.wf(),
                new_sched.simulation == sim,
                sim == schedule.simulation,
                forall|k: int| 0 <= k < removed@.len() ==> (#[trigger] removed@[k]).1 < sim.streets@.len(),
                0 <= i <= intersections@.len(),
            decreases intersections@.len() - i,
        {
            let inter_id = intersections[i].0;
            i += 1;
            let turns = match schedule.intersections.get(&inter_id) {
                Some(inter) => &inter.turns,
                None => {
                    continue;
                },
            };
            let mut j: usize = 0;
            while j < turns.len()
                invariant
                    schedule.wf(),
                    new_sched.wf(),
                    new_sched.simulation == sim,
                    sim == schedule.simulation,
                    schedule.intersections@.contains_key(inter_id),
                    turns == &schedule.intersections@[inter_id].turns,
                    forall|k: int| 0 <= k < removed@.len() ==> (#[trigger] removed@[k]).1 < sim.streets@.len(),
                    0 <= j <= turns@.len(),
                decreases turns@.len() - j,
            {
                let street_id = turns[j].0;
                j += 1;
                proof {
                    assert(schedule.intersections@[inter_id].turns@[j - 1].0 < sim.streets@.len());
                }
                if curr_stats.crossed_streets.contains(&street_id) {
                    // Street was crossed by a car
                    continue;
                }
                match new_sched.get_street_time(street_id) {
                    Some(time) => {
                        proof {
                            let t = new_sched.turns_at(sim.street_end(street_id));
                            let w = crate::sched::index_of(t, street_id)->Some_0;
                            assert(t[w].0 == street_id);
                        }
                        new_sched.sub_street_time(street_id, time);
                        removed.push((sim.streets[street_id].end_intersection, street_id));
                        modified.push(sim.streets[street_id].end_intersection);
                    },
                    None => {},
                }
            }
        }
        if removed.len() == 0 || modified.len() == 0 {
            return None;
        }
        let mut new_score: Score = 0;
        let mut k: usize = 0;
        while k < modified.len()
            invariant
                new_sched.wf(),
                new_sched.simulation == sim,
                sim == schedule.simulation,
                schedule.wf(),
                0 <= k <= modified@.len(),
                k > 0 ==> new_score == score_of(&new_sched),
            decreases modified@.len() - k,
        {
            if new_sched.intersections.contains_key(&modified[k]) {
                new_score = reorder_intersection(&mut new_sched, modified[k]);
            } else {
                new_score = match new_sched.stats() {
                    Ok(st) => st.score,
                    Err(_) => 0,
                };
            }
            k += 1;
        }
        if new_score > curr_stats.score {
            return Some((new_sched, new_score));
        }
        // Try to remove streets individually, return as soon as an
        // improvement is found
        let mut k: usize = 0;
        while k < removed.len()
            invariant
                schedule.wf(),
                sim == schedule.simulation,
                curr_stats.score == score_of(schedule),
                forall|x: int| 0 <= x < removed@.len() ==> (#[trigger] removed@[x]).1 < sim.streets@.len(),
                0 <= k <= removed@.len(),
            decreases removed@.len() - k,
        {
            if aborted(abort_flag) {
                return None;
            }
            let (inter_id, street_id) = removed[k];
            k += 1;
            let mut new_sched = schedule.clone();
            match new_sched.get_street_time(street_id) {
                Some(time) => {
                    proof {
                        let t = new_sched.turns_at(sim.street_end(street_id));
                        let w = crate::sched::index_of(t, street_id)->Some_0;
                        assert(t[w].0 == street_id);
                    }
                    new_sched.sub_street_time(street_id, time);
                    if new_sched.intersections.contains_key(&inter_id) {
                        let new_score = reorder_intersection(&mut new_sched, inter_id);
                        if new_score > curr_stats.score {
                            return Some((new_sched, new_score));
                        }
                    }
                },
                None => {},
            }
        }
        // No improvement found
        None
    }

    /// Adds, with a second of green, each street that cars wait at but that
    /// is not in the schedule.
    fn phase2<'a>(
        &self,
        abort_flag: &Arc<AtomicBool>,
        schedule: &Schedule<'a>,
        curr_stats: &ScheduleStats,
        streets: &Vec<(StreetId, Time)>,
    ) -> (r: Option<(Schedule<'a>, Score)>)
        requires
            schedule.wf(),
            curr_stats.score == score_of(schedule),
            forall|k: int| 0 <= k < streets@.len() ==> (#[trigger] streets@[k]).0 < schedule.simulation.streets@.len(),
        ensures
            improves(schedule, r),
    {
        let sim = schedule.simulation;
        let mut i: usize = 0;
        while i < streets.len()
            invariant
                schedule.wf(),
                sim == schedule.simulation,
                curr_stats.score == score_of(schedule),
                forall|k: int| 0 <= k < streets@.len() ==> (#[trigger] streets@[k]).0 < sim.streets@.len(),
                0 <= i <= streets@.len(),
            decreases streets@.len() - i,
        {
            if aborted(abort_flag) {
                break;
            }
            let street_id = streets[i].0;
            i += 1;
            if curr_stats.crossed_streets.contains(&street_id) {
                continue;
            }
            if schedule.get_street_time(street_id).is_some() {
                continue;
            }
            let inter_id = sim.streets[street_id].end_intersection;
            if schedule.cycle_at(inter_id) == u32::MAX {
                continue;
            }
            let mut new_schedule = schedule.clone();
            proof {
                let t = schedule.turns_at(inter_id);
                if crate::sched::has_street(t, street_id) {
                    let w = choose|w: int| 0 <= w < t.len() && t[w].0 == street_id;
                    assert(crate::sched::index_of(t, street_id) is Some);
                }
            }
            new_schedule.add_street(inter_id, street_id, 1);
            let new_score = reorder_intersection(&mut new_schedule, inter_id);
            if new_score > curr_stats.score {
                return Some((new_schedule, new_score));
            }
        }
        // No improvement found
        None
    }

    /// Reorders intersection `inter_id`, when that scores more.
    fn try_reorder<'a>(&self, schedule: &Schedule<'a>, curr_score: Score, inter_id: IntersectionId) -> (r:
        Option<(Schedule<'a>, Score)>)
        requires
            schedule.wf(),
            curr_score == score_of(schedule),
        ensures
            improves(schedule, r),
    {
        if !schedule.intersections.contains_key(&inter_id) {
            return None;
        }
        let mut new_schedule = schedule.clone();
        let new_score = reorder_intersection(&mut new_schedule, inter_id);
        if new_score > curr_score {
            Some((new_schedule, new_score))
        } else {
            // No improvement found
            None
        }
    }

    /// Gives `street_id` one more second and reorders its intersection,
    /// when that scores more.
    fn try_add_street_time<'a>(&self, schedule: &Schedule<'a>, curr_score: Score, street_id: StreetId) -> (r:
        Option<(Schedule<'a>, Score)>)
        requires
            schedule.wf(),
            curr_score == score_of(schedule),
            street_id < schedule.simulation.streets@.len(),
        ensures
            improves(schedule, r),
    {
        let inter_id = schedule.simulation.streets[street_id].end_intersection;
        if !schedule.intersections.contains_key(&inter_id) {
            return None;
        }
        let num_streets = schedule.num_streets_in_intersection(street_id);
        if num_streets > self.max_streets_per_inter || schedule.cycle_at(inter_id) == u32::MAX {
            return None;
        }
        let mut new_schedule = schedule.clone();
        new_schedule.add_street_time(street_id, 1);
        let new_score = reorder_intersection(&mut new_schedule, inter_id);
        if new_score > curr_score {
            Some((new_schedule, new_score))
        } else {
            // No improvement found
            None
        }
    }

    /// Tries up to `shuffles` random orders of intersection `inter_id`.
    fn try_shuffles<'a>(
        &self,
        abort_flag: &Arc<AtomicBool>,
        schedule: &Schedule<'a>,
        curr_score: Score,
        inter_id: IntersectionId,
        shuffles: usize,
    ) -> (r: Option<(Schedule<'a>, Score)>)
        requires
            schedule.wf(),
            curr_score == score_of(schedule),
        ensures
            improves(schedule, r),
    {
        let sim = schedule.simulation;
        let mut new_schedule = schedule.clone();
        let mut n: usize = 0;
        while n < shuffles
            invariant
                schedule.wf(),
                new_schedule.wf(),
                new_schedule.simulation == sim,
                sim == schedule.simulation,
                curr_score == score_of(schedule),
                0 <= n <= shuffles,
            decreases shuffles - n,
        {
            if aborted(abort_flag) {
                return None;
            }
            new_schedule.shuffle_intersection_at(inter_id);
            let new_score = match new_schedule.stats() {
                Ok(st) => st.score,
                Err(_) => 0,
            };
            if new_score > curr_score {
                return Some((new_schedule, new_score));
            }
            n += 1;
        }
        // No improvement found
        None
    }

    /// At intersection `inter_id`, the best of adding `add_time` to a
    /// street that cars wait at or taking `sub_time` from one they do not.
    fn add_or_sub_inter_time<'a>(
        &self,
        schedule: &Schedule<'a>,
        curr_stats: &ScheduleStats,
        inter_id: IntersectionId,
        add_time: Time,
        sub_time: Time,
    ) -> (r: Option<(Schedule<'a>, Score)>)
        requires
            schedule.wf(),
            curr_stats.score == score_of(schedule),
        ensures
            improves(schedule, r),
    {
        let sim = schedule.simulation;
        let turns = match schedule.intersections.get(&inter_id) {
            Some(inter) => &inter.turns,
            None => {
                return None;
            },
        };
        let mut add_time = add_time;
        if turns.len() > self.max_streets_per_inter {
            // Can't add time to streets of this intersection
            add_time = 0;
            if sub_time == 0 {
                return None;
            }
        }
        let mut best_score: Score = curr_stats.score;
        let mut best_sched: Option<Schedule<'a>> = None;
        let mut j: usize = 0;
        while j < turns.len()
            invariant
                schedule.wf(),
                sim == schedule.simulation,
                schedule.intersections@.contains_key(inter_id),
                turns == &schedule.intersections@[inter_id].turns,
                best_score >= score_of(schedule),
                best_sched is None ==> best_score == score_of(schedule),
                best_sched matches Some(s) ==> s.wf() && s.simulation == sim && best_score
                    == score_of(&s) && best_score > score_of(schedule),
                0 <= j <= turns@.len(),
            decreases turns@.len() - j,
        {
            let (street_id, street_time) = turns[j];
            j += 1;
            proof {
                assert(schedule.intersections@[inter_id].turns@[j - 1].0 < sim.streets@.len());
            }
            let wait_time = match curr_stats.total_wait_time.get(&street_id) {
                Some(w) => *w,
                None => 0,
            };
            if wait_time > 0 {
                if add_time == 0 {
                    // Can't add time
                    continue;
                }
            } else if sub_time == 0 || street_time < sub_time {
                // Can't subtract time
                continue;
            }
            let end_id = sim.streets[street_id].end_intersection;
            let mut new_schedule = schedule.clone();
            if wait_time > 0 {
                if new_schedule.cycle_at(end_id) > u32::MAX - add_time {
                    continue;
                }
                new_schedule.add_street_time(street_id, add_time);
            } else {
                match new_schedule.get_street_time(street_id) {
                    Some(_) => {
                        proof {
                            let t = new_schedule.turns_at(sim.street_end(street_id));
                            let w = crate::sched::index_of(t, street_id)->Some_0;
                            assert(t[w].0 == street_id);
                        }
                        new_schedule.sub_street_time(street_id, sub_time);
                    },
                    None => {
                        continue;
                    },
                }
            }
            if !new_schedule.intersections.contains_key(&end_id) {
                continue;
            }
            let new_score = reorder_intersection(&mut new_schedule, end_id);
            if new_score > best_score {
                best_score = new_score;
                best_sched = Some(new_schedule);
            }
        }
        match best_sched {
            Some(s) => Some((s, best_score)),
            None => None,
        }
    }

    /// For each intersection in turn, `add_or_sub_inter_time`; the first
    /// change that scores more.
    fn add_or_sub_loop<'a>(
        &self,
        abort_flag: &Arc<AtomicBool>,
        schedule: &Schedule<'a>,
        curr_stats: &ScheduleStats,
        intersections: &Vec<(IntersectionId, u64)>,
        add_time: Time,
        sub_time: Time,
    ) -> (r: Option<(Schedule<'a>, Score)>)
        requires
            schedule.wf(),
            curr_stats.score == score_of(schedule),
        ensures
            improves(schedule, r),
    {
        let mut i: usize = 0;
        while i < intersections.len()
            invariant
                schedule.wf(),
                curr_stats.score == score_of(schedule),
                0 <= i <= intersections@.len(),
            decreases intersections@.len() - i,
        {
            if aborted(abort_flag) {
                return None;
            }
            let inter_id = intersections[i].0;
            i += 1;
            let r = self.add_or_sub_inter_time(schedule, curr_stats, inter_id, add_time, sub_time);
            if r.is_some() {
                return r;
            }
        }
        None
    }

    /// `add_or_sub_loop` for the times `from`, `from + 1`, ... up to `to`,
    /// adding one second more than is taken away, within the limits.
    fn add_or_sub_time_range<'a>(
        &self,
        from: Time,
        to: Time,
        abort_flag: &Arc<AtomicBool>,
        schedule: &Schedule<'a>,
        curr_stats: &ScheduleStats,
        intersections: &Vec<(IntersectionId, u64)>,
    ) -> (r: Option<(Schedule<'a>, Score)>)
        requires
            schedule.wf(),
            curr_stats.score == score_of(schedule),
        ensures
            improves(schedule, r),
    {
        let mut time: Time = from;
        while time <= to
            invariant
                schedule.wf(),
                curr_stats.score == score_of(schedule),
            decreases to - time,
        {
            let add_time: Time = if time < self.max_add_time {
                time + 1
            } else {
                0
            };
            let sub_time: Time = if time <= self.max_sub_time {
                time
            } else {
                0
            };
            if add_time == 0 && sub_time == 0 {
                break;
            }
            let result = self.add_or_sub_loop(
                abort_flag,
                schedule,
                curr_stats,
                intersections,
                add_time,
                sub_time,
            );
            if result.is_some() || aborted(abort_flag) {
                return result;
            }
            if time == to {
                break;
            }
            time += 1;
        }
        // No improvement found
        None
    }
}

impl Improver for PhasedImprover {
    fn improve<'a>(&self, abort_flag: Arc<AtomicBool>, schedule: Schedule<'a>) -> (r: Option<
        (Schedule<'a>, Score),
    >) {
        let sim = schedule.simulation;
        let stats = match schedule.stats() {
            Ok(s) => s,
            Err(_) => {
                return None;
            },
        };
        // Streets that cars wait at, by wait time, but those always green
        let by_wait = streets_by_wait(&stats, sim.streets.len(), 1);
        let mut streets: Vec<(StreetId, Time)> = Vec::new();
        let mut i: usize = 0;
        while i < by_wait.len()
            invariant
                schedule.wf(),
                sim == schedule.simulation,
                0 <= i <= by_wait@.len(),
                forall|k: int| 0 <= k < by_wait@.len() ==> (#[trigger] by_wait@[k]).0 < sim.streets@.len(),
                forall|k: int| 0 <= k < streets@.len() ==> (#[trigger] streets@[k]).0 < sim.streets@.len(),
            decreases by_wait@.len() - i,
        {
            let street_id = by_wait[i].0;
            let inter_id = sim.streets[street_id].end_intersection;
            let always_green = schedule.intersections.contains_key(&inter_id)
                && schedule.is_street_always_green(street_id);
            if !always_green {
                streets.push(by_wait[i]);
            }
            i += 1;
        }
        // Total wait time by intersection, largest first
        let mut intersections: Vec<(IntersectionId, u64)> = Vec::new();
        let mut i: usize = 0;
        while i < streets.len()
            invariant
                schedule.wf(),
                sim == schedule.simulation,
                0 <= i <= streets@.len(),
                forall|k: int| 0 <= k < streets@.len() ==> (#[trigger] streets@[k]).0 < sim.streets@.len(),
            decreases streets@.len() - i,
        {
            let (street_id, wait) = streets[i];
            let inter_id = sim.streets[street_id].end_intersection;
            let mut k: usize = 0;
            while k < intersections.len()
                invariant
                    0 <= k <= intersections@.len(),
                    forall|x: int| 0 <= x < k ==> (#[trigger] intersections@[x]).0 != inter_id,
                decreases intersections@.len() - k,
            {
                if intersections[k].0 == inter_id {
                    break;
                }
                k += 1;
            }
            if k < intersections.len() {
                let total = intersections[k].1.saturating_add(wait as u64);
                intersections.set(k, (inter_id, total));
            } else {
                intersections.push((inter_id, wait as u64));
            }
            i += 1;
        }
        let mut sorted: Vec<(IntersectionId, u64)> = Vec::new();
        let mut i: usize = 0;
        while i < intersections.len()
            invariant
                0 <= i <= intersections@.len(),
            decreases intersections@.len() - i,
        {
            let item = intersections[i];
            let mut p: usize = 0;
            while p < sorted.len()
                invariant
                    0 <= p <= sorted@.len(),
                decreases sorted@.len() - p,
            {
                if sorted[p].1 < item.1 {
                    break;
                }
                p += 1;
            }
            sorted.insert(p, item);
            i += 1;
        }
        let intersections = sorted;
        let curr_score = stats.score;
        // Phase 1: remove streets never crossed
        let result = self.phase1(&abort_flag, &schedule, &stats, &intersections);
        if result.is_some() || aborted(&abort_flag) {
            return result;
        }
        // Phase 2: add streets that cars wait at
        let result = self.phase2(&abort_flag, &schedule, &stats, &streets);
        if result.is_some() || aborted(&abort_flag) {
            return result;
        }
        // Phase 3: reorder intersections
        let mut i: usize = 0;
        while i < intersections.len()
            invariant
                schedule.wf(),
                curr_score == score_of(&schedule),
                0 <= i <= intersections@.len(),
            decreases intersections@.len() - i,
        {
            if aborted(&abort_flag) {
                return None;
            }
            let result = self.try_reorder(&schedule, curr_score, intersections[i].0);
            if result.is_some() {
                return result;
            }
            i += 1;
        }
        // Phase 4: one more second to streets that cars wait at
        if self.max_add_time > 0 {
            let mut i: usize = 0;
            while i < streets.len()
                invariant
                    schedule.wf(),
                    sim == schedule.simulation,
                    curr_score == score_of(&schedule),
                    forall|k: int| 0 <= k < streets@.len() ==> (#[trigger] streets@[k]).0 < sim.streets@.len(),
                    0 <= i <= streets@.len(),
                decreases streets@.len() - i,
            {
                if aborted(&abort_flag) {
                    return None;
                }
                let result = self.try_add_street_time(&schedule, curr_score, streets[i].0);
                if result.is_some() {
                    return result;
                }
                i += 1;
            }
        }
        // Phase 5: add or take one or two seconds
        let result = self.add_or_sub_time_range(1, 2, &abort_flag, &schedule, &stats, &intersections);
        if result.is_some() || aborted(&abort_flag) {
            return result;
        }
        // Phase 6: shuffle intersections
        let mut i: usize = 0;
        while i < intersections.len()
            invariant
                schedule.wf(),
                curr_score == score_of(&schedule),
                0 <= i <= intersections@.len(),
            decreases intersections@.len() - i,
        {
            let inter_id = intersections[i].0;
            let num_streets = match schedule.intersections.get(&inter_id) {
                Some(inter) => inter.turns.len(),
                None => 0,
            };
            let shuffles = bounded_factorial(num_streets, self.max_shuffles_per_inter);
            let result = self.try_shuffles(&abort_flag, &schedule, curr_score, inter_id, shuffles);
            if result.is_some() || aborted(&abort_flag) {
                return result;
            }
            i += 1;
        }
        // Phase 7: larger changes of time
        let top = if self.max_add_time > self.max_sub_time {
            self.max_add_time
        } else {
            self.max_sub_time
        };
        self.add_or_sub_time_range(3, top, &abort_flag, &schedule, &stats, &intersections)
    }
}

} // verus!
