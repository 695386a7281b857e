use crate::sched::{has_street, prefix_time, Schedule, Scheduler};
use crate::{IntersectionId, Simulation, StreetId, Time};
use vstd::prelude::*;

verus! {

broadcast use vstd::std_specs::hash::group_hash_axioms;

/// Sum of the travel times of a whole path.
pub open spec fn path_travel_time(sim: &Simulation, path: Seq<StreetId>) -> int {
    crate::travel_time_from(sim, path, 0)
}

/// Street `s` is one that some car crosses, on a path it can finish in time.
pub open spec fn crossed_in_time(sim: &Simulation, s: StreetId) -> bool {
    exists|c: int, i: int|
        0 <= c < sim.car_paths@.len() && 0 <= i < sim.car_paths@[c]@.len() - 1
            && path_travel_time(sim, sim.car_paths@[c]@) <= sim.duration
            && #[trigger] sim.car_paths@[c]@[i] == s
}

/// Gives every street that a car crosses a green phase of one second.
#[derive(Default)]
pub struct Naive {}

/// Phases that all last a second have a cycle as long as their number.
proof fn lemma_unit_cycle(t: Seq<(StreetId, Time)>, n: int)
    requires
        0 <= n <= t.len(),
        forall|i: int| 0 <= i < t.len() ==> #[trigger] t[i].1 == 1,
    ensures
        prefix_time(t, n) == n,
    decreases n,
{
    if n > 0 {
        lemma_unit_cycle(t, n - 1);
    }
}

impl Scheduler for Naive {
    fn schedule<'a>(&self, simulation: &'a Simulation) -> (r: Schedule<'a>)
        ensures
            forall|k: IntersectionId, i: int|
                #![trigger r.turns_at(k)[i]]
                0 <= i < r.turns_at(k).len() ==> {
                    &&& r.turns_at(k)[i].1 == 1
                    &&& crossed_in_time(simulation, r.turns_at(k)[i].0)
                    &&& simulation.street_end(r.turns_at(k)[i].0) == k
                },
            forall|k: IntersectionId| #[trigger]
                r.intersections@.contains_key(k) ==> r.turns_at(k).len() > 0,
            simulation.streets@.len() <= u32::MAX ==> forall|s: StreetId|
                (s as int) < simulation.streets@.len() && #[trigger] crossed_in_time(simulation, s)
                    ==> has_street(r.turns_at(simulation.street_end(s)), s),
    {
        let mut schedule = Schedule::new(simulation);
        let ns = simulation.streets.len();
        // Streets crossed by cars whose whole journey fits in the duration;
        // the other cars leave their streets out (although other cars may
        // bring them in)
        let mut crossed: Vec<bool> = Vec::new();
        let mut s: usize = 0;
        while s < ns
            invariant
                ns == simulation.streets@.len(),
                0 <= s <= ns,
                crossed@.len() == s,
                forall|k: int| 0 <= k < s ==> !crossed@[k],
            decreases ns - s,
        {
            crossed.push(false);
            s += 1;
        }
        let mut c: usize = 0;
        while c < simulation.car_paths.len()
            invariant
                simulation.wf(),
                ns == simulation.streets@.len(),
                0 <= c <= simulation.car_paths@.len(),
                crossed@.len() == ns,
                forall|k: int| 0 <= k < crossed@.len() && #[trigger] crossed@[k] ==> crossed_in_time(
                    simulation,
                    k as StreetId,
                ),
                forall|c2: int, i: int|
                    0 <= c2 < c && 0 <= i < simulation.car_paths@[c2]@.len() - 1
                        && path_travel_time(simulation, simulation.car_paths@[c2]@)
                        <= simulation.duration ==> crossed@[#[trigger] simulation.car_paths@[c2]@[i] as int],
            decreases simulation.car_paths@.len() - c,
        {
            let path = &simulation.car_paths[c];
            let rest = simulation.min_travel_time_capped(path);
            let first = simulation.streets[path[0]].travel_time as u64;
            proof {
                assert(crate::travel_time_from(simulation, path@, 0) == first
                    + crate::travel_time_from(simulation, path@, 1));
                crate::lemma_travel_time_monotone(simulation, path@, 1, path@.len() as int);
            }
            if rest <= simulation.duration as u64 && first + rest <= simulation.duration as u64 {
                let mut i: usize = 0;
                while i < path.len() - 1
                    invariant
                        simulation.wf(),
                        ns == simulation.streets@.len(),
                        c < simulation.car_paths@.len(),
                        path == &simulation.car_paths@[c as int],
                        path_travel_time(simulation, path@) <= simulation.duration,
                        0 <= i <= path@.len(),
                        path@.len() >= 1,
                        crossed@.len() == ns,
                        forall|k: int| 0 <= k < crossed@.len() && #[trigger] crossed@[k] ==> crossed_in_time(
                            simulation,
                            k as StreetId,
                        ),
                        forall|c2: int, i2: int|
                            0 <= c2 < c && 0 <= i2 < simulation.car_paths@[c2]@.len() - 1
                                && path_travel_time(simulation, simulation.car_paths@[c2]@)
                                <= simulation.duration ==> crossed@[#[trigger] simulation.car_paths@[c2]@[i2] as int],
                        forall|i2: int| 0 <= i2 < i ==> crossed@[#[trigger] path@[i2] as int],
                    decreases path@.len() - i,
                {
                    let street_id = path[i];
                    proof {
                        assert(simulation.car_paths@[c as int]@[i as int] == street_id);
                    }
                    crossed.set(street_id, true);
                    i += 1;
                }
            }
            proof {
                assert forall|c2: int, i2: int|
                    0 <= c2 < c + 1 && 0 <= i2 < simulation.car_paths@[c2]@.len() - 1
                        && path_travel_time(simulation, simulation.car_paths@[c2]@)
                        <= simulation.duration implies crossed@[#[trigger] simulation.car_paths@[c2]@[i2] as int] by {
                    if c2 == c {
                        assert(simulation.car_paths@[c2]@ == path@);
                        assert(path@[i2] == simulation.car_paths@[c2]@[i2]);
                    }
                }
            }
            c += 1;
        }
        let mut s: usize = 0;
        while s < ns
            invariant
                schedule.wf(),
                schedule.simulation == simulation,
                ns == simulation.streets@.len(),
                0 <= s <= ns,
                crossed@.len() == ns,
                forall|k: int| 0 <= k < crossed@.len() && #[trigger] crossed@[k] ==> crossed_in_time(
                    simulation,
                    k as StreetId,
                ),
                forall|k: IntersectionId, i: int|
                    #![trigger schedule.turns_at(k)[i]]
                    0 <= i < schedule.turns_at(k).len() ==> {
                        &&& schedule.turns_at(k)[i].0 < s
                        &&& schedule.turns_at(k)[i].1 == 1
                        &&& crossed@[schedule.turns_at(k)[i].0 as int]
                        &&& simulation.street_end(schedule.turns_at(k)[i].0) == k
                    },
                forall|k: IntersectionId| #[trigger]
                    schedule.intersections@.contains_key(k) ==> schedule.turns_at(k).len() > 0,
                forall|k: IntersectionId| #[trigger] schedule.turns_at(k).len() <= s,
                ns <= u32::MAX ==> forall|x: StreetId|
                    (x as int) < s && #[trigger] crossed@[x as int] ==> has_street(
                        schedule.turns_at(simulation.street_end(x)),
                        x,
                    ),
            decreases ns - s,
        {
            if crossed[s] {
                let inter_id = simulation.streets[s].end_intersection;
                let cycle = schedule.cycle_at(inter_id);
                if cycle < u32::MAX {
                    proof {
                        assert(!has_street(schedule.turns_at(inter_id), s)) by {
                            if has_street(schedule.turns_at(inter_id), s) {
                                let w = choose|w: int| 0 <= w < schedule.turns_at(inter_id).len()
                                    && schedule.turns_at(inter_id)[w].0 == s;
                                assert(schedule.turns_at(inter_id)[w].0 < s);
                            }
                        }
                    }
                    let ghost before = schedule;
                    schedule.add_street(inter_id, s, 1);
                    proof {
                        assert forall|k: IntersectionId, i: int|
                            #![trigger schedule.turns_at(k)[i]]
                            0 <= i < schedule.turns_at(k).len() implies {
                            &&& schedule.turns_at(k)[i].0 < s + 1
                            &&& schedule.turns_at(k)[i].1 == 1
                            &&& crossed@[schedule.turns_at(k)[i].0 as int]
                            &&& simulation.street_end(schedule.turns_at(k)[i].0) == k
                        } by {
                            if k != inter_id && before.intersections@.contains_key(k) {
                                assert(schedule.turns_at(k) == before.turns_at(k));
                            } else if k != inter_id {
                                assert(!schedule.intersections@.contains_key(k));
                            } else if i < before.turns_at(k).len() {
                                assert(schedule.turns_at(k)[i] == before.turns_at(k)[i]);
                            }
                        }
                        assert forall|k: IntersectionId| #[trigger]
                            schedule.intersections@.contains_key(k) implies schedule.turns_at(k).len()
                            > 0 by {
                            if k != inter_id {
                                assert(before.intersections@.contains_key(k));
                            }
                        }
                        assert forall|k: IntersectionId| #[trigger] schedule.turns_at(k).len() <= s + 1 by {
                            if k != inter_id && before.intersections@.contains_key(k) {
                                assert(schedule.turns_at(k) == before.turns_at(k));
                            } else if k != inter_id {
                                assert(!schedule.intersections@.contains_key(k));
                            }
                        }
                        if ns <= u32::MAX {
                            assert forall|x: StreetId|
                                (x as int) < s + 1 && #[trigger] crossed@[x as int] implies has_street(
                                schedule.turns_at(simulation.street_end(x)),
                                x,
                            ) by {
                                let kx = simulation.street_end(x);
                                if x == s {
                                    let t = schedule.turns_at(inter_id);
                                    assert(t[t.len() - 1].0 == s);
                                } else {
                                    let bt = before.turns_at(kx);
                                    assert(has_street(bt, x));
                                    let w = choose|w: int| 0 <= w < bt.len() && bt[w].0 == x;
                                    if kx != inter_id && before.intersections@.contains_key(kx) {
                                        assert(schedule.turns_at(kx) == bt);
                                    } else if kx == inter_id {
                                        assert(schedule.turns_at(kx)[w] == bt[w]);
                                    }
                                }
                            }
                        }
                    }
                } else {
                    proof {
                        if ns <= u32::MAX {
                            let t = schedule.turns_at(inter_id);
                            assert forall|i: int| 0 <= i < t.len() implies #[trigger] t[i].1 == 1 by {}
                            lemma_unit_cycle(t, t.len() as int);
                            assert(t.len() <= s);
                            assert(false);
                        }
                    }
                }
            }
            s += 1;
        }
        proof {
            assert forall|x: StreetId|
                (x as int) < ns && #[trigger] crossed_in_time(simulation, x) implies crossed@[x as int] by {
                let (c2, i2) = choose|c2: int, i2: int|
                    0 <= c2 < simulation.car_paths@.len() && 0 <= i2 < simulation.car_paths@[c2]@.len() - 1
                        && path_travel_time(simulation, simulation.car_paths@[c2]@) <= simulation.duration
                        && #[trigger] simulation.car_paths@[c2]@[i2] == x;
            }
            assert forall|k: IntersectionId, i: int|
                #![trigger schedule.turns_at(k)[i]]
                0 <= i < schedule.turns_at(k).len() implies crossed_in_time(simulation, schedule.turns_at(k)[i].0) by {
                assert(crossed@[schedule.turns_at(k)[i].0 as int]);
            }
        }
        schedule
    }
}

} // verus!
