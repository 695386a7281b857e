use crate::sched::{has_street, Schedule, Scheduler};
use crate::simulate::{traffic_wf, Traffic};
use crate::{IntersectionId, Simulation, StreetId, Time};
use vstd::prelude::*;

verus! {

broadcast use vstd::std_specs::hash::group_hash_axioms;

/// Street `s` is crossed by a car that can arrive in time.
pub open spec fn timely(sim: &Simulation, s: StreetId) -> bool {
    exists|c: int, i: int|
        0 <= c < sim.car_paths@.len() && 0 <= i < sim.car_paths@[c]@.len() - 1
            && crate::min_travel_time(sim, sim.car_paths@[c]@) <= sim.duration
            && #[trigger] sim.car_paths@[c]@[i] == s
}

/// Street `s` is a timely street that ends at intersection `k`.
pub open spec fn good(sim: &Simulation, k: int, s: StreetId) -> bool {
    &&& (s as int) < sim.streets@.len()
    &&& sim.street_end(s) as int == k
    &&& timely(sim, s)
}

/// Builds one-second phases while running the cars: each street gets the
/// slot that is open when its first car reaches the light.
#[derive(Default)]
pub struct AdaptiveScheduler {}

impl Scheduler for AdaptiveScheduler {
    fn schedule<'a>(&self, simulation: &'a Simulation) -> (r: Schedule<'a>)
        ensures
            forall|k: IntersectionId, i: int|
                #![trigger r.turns_at(k)[i]]
                0 <= i < r.turns_at(k).len() ==> r.turns_at(k)[i].1 == 1 && good(
                    simulation,
                    k as int,
                    r.turns_at(k)[i].0,
                ),
    {
        let ns = simulation.streets.len();
        let ni = simulation.num_intersections as usize;
        // Streets crossed by the cars that can arrive in time, and not given
        // a slot yet
        let mut pending: Vec<bool> = Vec::new();
        let mut s: usize = 0;
        while s < ns
            invariant
                ns == simulation.streets@.len(),
                0 <= s <= ns,
                pending@.len() == s,
                forall|x: int| 0 <= x < s ==> !#[trigger] pending@[x],
            decreases ns - s,
        {
            pending.push(false);
            s += 1;
        }
        let mut c: usize = 0;
        while c < simulation.car_paths.len()
            invariant
                simulation.wf(),
                ns == simulation.streets@.len(),
                pending@.len() == ns,
                forall|x: int| 0 <= x < pending@.len() && #[trigger] pending@[x] ==> timely(simulation, x as StreetId),
                0 <= c <= simulation.car_paths@.len(),
            decreases simulation.car_paths@.len() - c,
        {
            let path = &simulation.car_paths[c];
            let rest = simulation.min_travel_time_capped(path);
            if rest <= simulation.duration as u64 {
                let mut i: usize = 0;
                while i < path.len() - 1
                    invariant
                        simulation.wf(),
                        c < simulation.car_paths@.len(),
                        path == &simulation.car_paths@[c as int],
                        path@.len() >= 1,
                        0 <= i <= path@.len(),
                        pending@.len() == ns,
                        crate::min_travel_time(simulation, path@) <= simulation.duration,
                        forall|x: int| 0 <= x < pending@.len() && #[trigger] pending@[x] ==> timely(simulation, x as StreetId),
                        ns == simulation.streets@.len(),
                    decreases path@.len() - i,
                {
                    let street_id = path[i];
                    proof {
                        assert(simulation.car_paths@[c as int]@[i as int] == street_id);
                    }
                    pending.set(street_id, true);
                    proof {
                        assert(timely(simulation, street_id));
                    }
                    i += 1;
                }
            }
            c += 1;
        }
        // The streets of each intersection that need a slot, by id
        let mut crossed: Vec<Vec<StreetId>> = Vec::new();
        let mut k: usize = 0;
        while k < ni
            invariant
                0 <= k <= ni,
                crossed@.len() == k,
                pending@.len() == ns,
                forall|x: int| 0 <= x < pending@.len() && #[trigger] pending@[x] ==> timely(simulation, x as StreetId),
                forall|x: int| 0 <= x < k ==> (#[trigger] crossed@[x])@.len() == 0,
            decreases ni - k,
        {
            crossed.push(Vec::new());
            k += 1;
        }
        let mut s: usize = 0;
        while s < ns
            invariant
                simulation.wf(),
                ns == simulation.streets@.len(),
                ni == simulation.num_intersections,
                pending@.len() == ns,
                forall|x: int| 0 <= x < pending@.len() && #[trigger] pending@[x] ==> timely(simulation, x as StreetId),
                crossed@.len() == ni,
                0 <= s <= ns,
                forall|k: int, j: int|
                    0 <= k < ni && 0 <= j < crossed@[k]@.len() ==> good(simulation, k, #[trigger] crossed@[k]@[j]),
            decreases ns - s,
        {
            if pending[s] {
                let k = simulation.streets[s].end_intersection as usize;
                crossed[k].push(s);
                proof {
                    assert forall|k2: int, j: int|
                        0 <= k2 < ni && 0 <= j < crossed@[k2]@.len() implies good(
                        simulation,
                        k2,
                        #[trigger] crossed@[k2]@[j],
                    ) by {
                        if k2 != k {
                        }
                    }
                }
            }
            s += 1;
        }
        // One slot of a second per street, filled as cars arrive
        let mut order: Vec<Vec<Option<StreetId>>> = Vec::new();
        let mut k: usize = 0;
        while k < ni
            invariant
                0 <= k <= ni,
                crossed@.len() == ni,
                order@.len() == k,
                forall|x: int| 0 <= x < k ==> (#[trigger] order@[x])@.len() == crossed@[x]@.len(),
                forall|x: int, j: int| 0 <= x < k && 0 <= j < order@[x]@.len() ==> #[trigger] order@[x]@[j] is None,
            decreases ni - k,
        {
            let mut slots: Vec<Option<StreetId>> = Vec::new();
            let mut j: usize = 0;
            while j < crossed[k].len()
                invariant
                    0 <= j <= crossed@[k as int]@.len(),
                    k < ni,
                    crossed@.len() == ni,
                    slots@.len() == j,
                    forall|x: int| 0 <= x < j ==> #[trigger] slots@[x] is None,
                decreases crossed@[k as int]@.len() - j,
            {
                slots.push(None);
                j += 1;
            }
            order.push(slots);
            k += 1;
        }
        let mut traffic = Traffic::start(simulation);
        let mut t: Time = 0;
        while t <= simulation.duration
            invariant
                simulation.wf(),
                traffic_wf(simulation, traffic.model()),
                ns == simulation.streets@.len(),
                ni == simulation.num_intersections,
                pending@.len() == ns,
                forall|x: int| 0 <= x < pending@.len() && #[trigger] pending@[x] ==> timely(simulation, x as StreetId),
                order@.len() == ni,
                forall|k: int, j: int|
                    0 <= k < ni && 0 <= j < order@[k]@.len() && #[trigger] order@[k]@[j] is Some
                        ==> good(simulation, k, order@[k]@[j]->Some_0),
            decreases simulation.duration + 1 - t,
        {
            traffic.advance(simulation);
            // Let cars at the top of the queue cross intersections if possible
            let mut s: usize = 0;
            while s < ns
                invariant
                    simulation.wf(),
                    traffic_wf(simulation, traffic.model()),
                    ns == simulation.streets@.len(),
                    ni == simulation.num_intersections,
                    pending@.len() == ns,
                forall|x: int| 0 <= x < pending@.len() && #[trigger] pending@[x] ==> timely(simulation, x as StreetId),
                    order@.len() == ni,
                    forall|k: int, j: int|
                        0 <= k < ni && 0 <= j < order@[k]@.len() && #[trigger] order@[k]@[j] is Some
                            ==> good(simulation, k, order@[k]@[j]->Some_0),
                    0 <= s <= ns,
                decreases ns - s,
            {
                if traffic.queues[s].len() > 0 {
                    let k = simulation.streets[s].end_intersection as usize;
                    let len = order[k].len();
                    if len > 0 {
                        let slot_pos = (t as usize) % len;
                        let go = match order[k][slot_pos] {
                            // The current slot is already assigned to a street
                            Some(open_street) => open_street == s,
                            None => {
                                if pending[s] {
                                    // Assign the current slot to the street
                                    pending.set(s, false);
                                    order[k].set(slot_pos, Some(s));
                                    proof {
                                        assert forall|k2: int, j: int|
                                            0 <= k2 < ni && 0 <= j < order@[k2]@.len()
                                                && #[trigger] order@[k2]@[j] is Some implies good(
                                                simulation,
                                                k2,
                                                order@[k2]@[j]->Some_0,
                                            ) by {
                                            if k2 != k {
                                            }
                                        }
                                    }
                                    true
                                } else {
                                    // The street was given another slot, or
                                    // it needs none
                                    false
                                }
                            },
                        };
                        if go {
                            traffic.cross(simulation, s);
                        }
                    }
                }
                s += 1;
            }
            t += 1;
        }
        let mut schedule = Schedule::new(simulation);
        let mut used: Vec<bool> = Vec::new();
        let mut s: usize = 0;
        while s < ns
            invariant
                0 <= s <= ns,
                used@.len() == s,
                forall|x: int| 0 <= x < s ==> !used@[x],
            decreases ns - s,
        {
            used.push(false);
            s += 1;
        }
        proof {
            assert forall|k: IntersectionId, i: int|
                #![trigger schedule.turns_at(k)[i]]
                0 <= i < schedule.turns_at(k).len() implies used@[schedule.turns_at(k)[i].0 as int]
                    && schedule.turns_at(k)[i].1 == 1 && good(simulation, k as int, schedule.turns_at(k)[i].0) by {
                assert(!schedule.intersections@.contains_key(k));
            }
        }
        let mut k: usize = 0;
        while k < ni
            invariant
                schedule.wf(),
                schedule.simulation == simulation,
                ns == simulation.streets@.len(),
                ni == simulation.num_intersections,
                used@.len() == ns,
                pending@.len() == ns,
                order@.len() == ni,
                crossed@.len() == ni,
                forall|k: int, j: int|
                    0 <= k < ni && 0 <= j < order@[k]@.len() && #[trigger] order@[k]@[j] is Some
                        ==> good(simulation, k, order@[k]@[j]->Some_0),
                forall|k: int, j: int|
                    0 <= k < ni && 0 <= j < crossed@[k]@.len() ==> good(simulation, k, #[trigger] crossed@[k]@[j]),
                forall|k2: IntersectionId, i: int|
                    #![trigger schedule.turns_at(k2)[i]]
                    0 <= i < schedule.turns_at(k2).len() ==> used@[schedule.turns_at(k2)[i].0 as int]
                        && schedule.turns_at(k2)[i].1 == 1 && good(simulation, k2 as int, schedule.turns_at(k2)[i].0),
                0 <= k <= ni,
            decreases ni - k,
        {
            let inter_id = k as IntersectionId;
            let mut j: usize = 0;
            while j < order[k].len()
                invariant
                    schedule.wf(),
                    schedule.simulation == simulation,
                    ns == simulation.streets@.len(),
                    ni == simulation.num_intersections,
                    k < ni,
                    inter_id == k,
                    used@.len() == ns,
                    pending@.len() == ns,
                    order@.len() == ni,
                    crossed@.len() == ni,
                    forall|k: int, j: int|
                        0 <= k < ni && 0 <= j < order@[k]@.len() && #[trigger] order@[k]@[j] is Some
                            ==> good(simulation, k, order@[k]@[j]->Some_0),
                    forall|k: int, j: int|
                        0 <= k < ni && 0 <= j < crossed@[k]@.len() ==> good(simulation, k, #[trigger] crossed@[k]@[j]),
                    forall|k2: IntersectionId, i: int|
                        #![trigger schedule.turns_at(k2)[i]]
                        0 <= i < schedule.turns_at(k2).len() ==> used@[schedule.turns_at(k2)[i].0 as int]
                        && schedule.turns_at(k2)[i].1 == 1 && good(simulation, k2 as int, schedule.turns_at(k2)[i].0),
                    0 <= j <= order@[k as int]@.len(),
                decreases order@[k as int]@.len() - j,
            {
                let street = match order[k][j] {
                    Some(s) => Some(s),
                    None => {
                        // The slot was never taken: give it to a street that
                        // got none
                        let mut found: Option<StreetId> = None;
                        let mut x: usize = 0;
                        while x < crossed[k].len()
                            invariant
                                0 <= x <= crossed@[k as int]@.len(),
                                k < ni,
                                crossed@.len() == ni,
                                used@.len() == ns,
                                pending@.len() == ns,
                                forall|k: int, j: int|
                                    0 <= k < ni && 0 <= j < crossed@[k]@.len() ==> good(simulation, k, #[trigger] crossed@[k]@[j]),
                                ns == simulation.streets@.len(),
                                found matches Some(s) ==> good(simulation, k as int, s),
                            decreases crossed@[k as int]@.len() - x,
                        {
                            let cand = crossed[k][x];
                            if pending[cand] && !used[cand] {
                                found = Some(cand);
                                break;
                            }
                            x += 1;
                        }
                        found
                    },
                };
                proof {
                    assert(street matches Some(s) ==> good(simulation, k as int, s));
                }
                match street {
                    Some(s) => {
                        if !used[s] && schedule.cycle_at(inter_id) < u32::MAX {
                            proof {
                                assert(!has_street(schedule.turns_at(inter_id), s)) by {
                                    if has_street(schedule.turns_at(inter_id), s) {
                                        let w = choose|w: int|
                                            0 <= w < schedule.turns_at(inter_id).len()
                                                && schedule.turns_at(inter_id)[w].0 == s;
                                        assert(used@[schedule.turns_at(inter_id)[w].0 as int]);
                                    }
                                }
                            }
                            let ghost before = schedule;
                            schedule.add_street(inter_id, s, 1);
                            used.set(s, true);
                            proof {
                                assert forall|k2: IntersectionId, i: int|
                                    #![trigger schedule.turns_at(k2)[i]]
                                    0 <= i < schedule.turns_at(k2).len() implies used@[schedule.turns_at(
                                        k2,
                                    )[i].0 as int] && schedule.turns_at(k2)[i].1 == 1 && good(
                                        simulation,
                                        k2 as int,
                                        schedule.turns_at(k2)[i].0,
                                    ) by {
                                    if k2 != inter_id && before.intersections@.contains_key(k2) {
                                        assert(schedule.turns_at(k2) == before.turns_at(k2));
                                        assert(before.turns_at(k2)[i] == schedule.turns_at(k2)[i]);
                                    } else if k2 != inter_id {
                                        assert(!schedule.intersections@.contains_key(k2));
                                    } else if i < before.turns_at(k2).len() {
                                        assert(schedule.turns_at(k2)[i] == before.turns_at(k2)[i]);
                                    }
                                }
                            }
                        }
                    },
                    None => {},
                }
                j += 1;
            }
            k += 1;
        }
        schedule
    }
}

} // verus!
