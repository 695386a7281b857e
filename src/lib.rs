use vstd::prelude::*;

pub mod adapt;
pub mod greedy;
pub mod improve;
pub mod incr;
pub mod intersect;
pub mod load;
pub mod naive;
pub mod names;
pub mod perm;
pub mod phased;
pub mod round_trip;
pub mod sched;
pub mod shuffle;
pub mod simulate;
pub mod sums;
pub mod text;

verus! {

/// Simulation time, in seconds.
pub type Time = u32;

pub type CarId = usize;

pub type StreetId = usize;

pub type IntersectionId = u32;

/// Points earned by a schedule.
pub type Score = u64;

/// The city and the journeys of its cars: fixed for a whole run.
pub struct Simulation {
    pub duration: Time,
    pub num_intersections: u32,
    pub streets: Vec<Street>,
    pub car_paths: Vec<Vec<StreetId>>,
    pub bonus: u32,
}

pub struct Street {
    pub name: String,
    pub start_insersection: IntersectionId,
    pub end_intersection: IntersectionId,
    pub travel_time: Time,
}

/// Element-by-element copy of a vector of plain values.
pub fn copy_vec<T: Copy>(v: &Vec<T>) -> (r: Vec<T>)
    ensures
        r@ == v@,
{
    let mut r: Vec<T> = Vec::with_capacity(v.len());
    let mut i: usize = 0;
    while i < v.len()
        invariant
            0 <= i <= v@.len(),
            r@ == v@.subrange(0, i as int),
        decreases v@.len() - i,
    {
        r.push(v[i]);
        i += 1;
    }
    proof {
        assert(v@.subrange(0, v@.len() as int) =~= v@);
    }
    r
}

/// Sum of the travel times of `path[from..]`.
pub open spec fn travel_time_from(sim: &Simulation, path: Seq<StreetId>, from: int) -> int
    decreases path.len() - from,
{
    if from >= path.len() {
        0
    } else {
        sim.streets@[path[from] as int].travel_time as int + travel_time_from(sim, path, from + 1)
    }
}

/// Fewest seconds a car needs after leaving its first street.
pub open spec fn min_travel_time(sim: &Simulation, path: Seq<StreetId>) -> int {
    travel_time_from(sim, path, 1)
}

/// Best score that car `c` could ever earn.
pub open spec fn car_best_score(sim: &Simulation, c: int) -> int {
    let mt = min_travel_time(sim, sim.car_paths@[c]@);
    sim.bonus as int + if mt <= sim.duration as int {
        sim.duration as int - mt
    } else {
        0
    }
}

/// Sum of `car_best_score` over the cars `0..n`.
pub open spec fn best_score_upto(sim: &Simulation, n: int) -> int
    decreases n,
{
    if n <= 0 {
        0
    } else {
        best_score_upto(sim, n - 1) + car_best_score(sim, n - 1)
    }
}

impl Simulation {
    /// Every street id in a path is a street, every street ends at an
    /// intersection, and the largest possible score fits in a `Score`.
    pub open spec fn wf(&self) -> bool {
        &&& self.duration < u32::MAX
        &&& forall|s: int|
            0 <= s < self.streets@.len() ==> {
                &&& (#[trigger] self.streets@[s]).end_intersection < self.num_intersections
                &&& self.streets@[s].travel_time >= 1
            }
        &&& forall|c: int|
            0 <= c < self.car_paths@.len() ==> #[trigger] self.car_paths@[c]@.len() >= 1
        &&& forall|c: int, i: int|
            0 <= c < self.car_paths@.len() && 0 <= i < self.car_paths@[c]@.len()
                ==> #[trigger] self.car_paths@[c]@[i] < self.streets@.len()
        &&& self.car_paths@.len() <= usize::MAX
        &&& self.car_paths@.len() * (self.bonus + self.duration) <= u64::MAX
    }

    pub open spec fn num_streets(&self) -> nat {
        self.streets@.len()
    }

    pub open spec fn num_cars(&self) -> nat {
        self.car_paths@.len()
    }

    pub open spec fn street_end(&self, s: StreetId) -> IntersectionId {
        self.streets@[s as int].end_intersection
    }

    /// The score of a schedule under which every car goes straight through
    /// every light.
    pub fn max_theoretical_score(&self) -> (r: Score)
        requires
            self.wf(),
        ensures
            r == best_score_upto(self, self.car_paths@.len() as int),
    {
        let mut total: u64 = 0;
        let mut c: usize = 0;
        while c < self.car_paths.len()
            invariant
                self.wf(),
                0 <= c <= self.car_paths@.len(),
                total == best_score_upto(self, c as int),
                total <= c * (self.bonus + self.duration),
            decreases self.car_paths@.len() - c,
        {
            let path = &self.car_paths[c];
            let mt = self.min_travel_time_capped(path);
            let best: u64 = if mt <= self.duration as u64 {
                self.bonus as u64 + (self.duration as u64 - mt)
            } else {
                self.bonus as u64
            };
            proof {
                assert(best <= self.bonus + self.duration);
                assert((c + 1) * (self.bonus + self.duration) == c * (self.bonus + self.duration)
                    + (self.bonus + self.duration)) by (nonlinear_arith);
                assert((c + 1) * (self.bonus + self.duration) <= self.car_paths@.len() * (
                self.bonus + self.duration)) by (nonlinear_arith)
                    requires
                        c + 1 <= self.car_paths@.len(),
                ;
            }
            total = total + best;
            c = c + 1;
        }
        total
    }

    /// `min_travel_time(path)` when it is at most the duration, else some
    /// larger value.
    fn min_travel_time_capped(&self, path: &Vec<StreetId>) -> (r: u64)
        requires
            self.wf(),
            forall|i: int| 0 <= i < path@.len() ==> path@[i] < self.streets@.len(),
        ensures
            min_travel_time(self, path@) <= self.duration ==> r == min_travel_time(self, path@),
            min_travel_time(self, path@) > self.duration ==> r > self.duration,
    {
        let mut i: usize = path.len();
        let mut acc: u64 = 0;
        while i > 1
            invariant
                self.wf(),
                forall|k: int| 0 <= k < path@.len() ==> path@[k] < self.streets@.len(),
                1 <= i <= path@.len() || (i == path@.len() && i <= 1),
                acc == travel_time_from(self, path@, i as int),
                acc <= self.duration,
            decreases i,
        {
            i = i - 1;
            acc = acc + self.streets[path[i]].travel_time as u64;
            if acc > self.duration as u64 {
                proof {
                    lemma_travel_time_monotone(self, path@, 1, i as int);
                }
                return acc;
            }
        }
        proof {
            if path@.len() == 0 {
                assert(travel_time_from(self, path@, 1) == 0);
            }
        }
        acc
    }
}

/// Travel times are non-negative, so dropping streets from the front can
/// only lower the sum.
pub proof fn lemma_travel_time_monotone(sim: &Simulation, path: Seq<StreetId>, a: int, b: int)
    requires
        0 <= a <= b,
    ensures
        travel_time_from(sim, path, a) >= travel_time_from(sim, path, b),
    decreases b - a,
{
    if a < b {
        lemma_travel_time_monotone(sim, path, a + 1, b);
    }
}

} // verus!
