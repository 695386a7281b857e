use crate::sched::{Car, CarState, Schedule, ScheduleStats};
use crate::{CarId, IntersectionId, Score, Simulation, StreetId, Time};
use std::collections::HashMap;
use std::collections::HashSet;
use std::collections::VecDeque;
use vstd::prelude::*;

verus! {

broadcast use vstd::std_specs::hash::group_hash_axioms;

/// What the simulation needs to know of one car.
pub struct CarModel {
    /// Streets still ahead, the next one last.
    pub path: Seq<StreetId>,
    pub remain_time: int,
    pub state: CarState,
}

/// All cars and all queues of waiting cars, one queue per street.
pub struct TrafficModel {
    pub cars: Seq<CarModel>,
    pub queues: Seq<Seq<CarId>>,
}

impl Car {
    pub open spec fn model(&self) -> CarModel {
        CarModel {
            path: self.remain_path@,
            remain_time: self.remain_time as int,
            state: self.state,
        }
    }
}

pub open spec fn travel_of(sim: &Simulation, s: StreetId) -> int {
    sim.streets@[s as int].travel_time as int
}

/// Every car as it stands before time 0: at the start of its path.
pub open spec fn initial_traffic(sim: &Simulation) -> TrafficModel {
    TrafficModel {
        cars: Seq::new(
            sim.car_paths@.len(),
            |c: int|
                CarModel {
                    path: sim.car_paths@[c]@.reverse(),
                    remain_time: 0,
                    state: CarState::Waiting,
                },
        ),
        queues: Seq::new(sim.streets@.len(), |s: int| Seq::<CarId>::empty()),
    }
}

/// Car `c` takes its place at the light closing its first street; a car
/// whose path is that one street has already arrived.
pub open spec fn start_step(m: TrafficModel, c: int) -> TrafficModel {
    let car = m.cars[c];
    let rest = car.path.drop_last();
    if rest.len() == 0 {
        TrafficModel {
            cars: m.cars.update(c, CarModel { path: rest, state: CarState::Arrived, ..car }),
            queues: m.queues,
        }
    } else {
        let s = car.path.last() as int;
        TrafficModel {
            cars: m.cars.update(c, CarModel { path: rest, ..car }),
            queues: m.queues.update(s, m.queues[s].push(c as CarId)),
        }
    }
}

pub open spec fn start_upto(m: TrafficModel, n: int) -> TrafficModel
    decreases n,
{
    if n <= 0 {
        m
    } else {
        start_step(start_upto(m, n - 1), n - 1)
    }
}

/// Car `c` drives one second; at the end of its street it arrives or joins
/// the queue of that street.
pub open spec fn advance_step(m: TrafficModel, c: int) -> TrafficModel {
    let car = m.cars[c];
    if car.state != CarState::Ready {
        m
    } else if car.remain_time > 1 {
        TrafficModel {
            cars: m.cars.update(c, CarModel { remain_time: car.remain_time - 1, ..car }),
            queues: m.queues,
        }
    } else {
        let rest = car.path.drop_last();
        if rest.len() == 0 {
            TrafficModel {
                cars: m.cars.update(
                    c,
                    CarModel { path: rest, remain_time: 0, state: CarState::Arrived },
                ),
                queues: m.queues,
            }
        } else {
            let s = car.path.last() as int;
            TrafficModel {
                cars: m.cars.update(
                    c,
                    CarModel { path: rest, remain_time: 0, state: CarState::Waiting },
                ),
                queues: m.queues.update(s, m.queues[s].push(c as CarId)),
            }
        }
    }
}

/// Cars `0..n` drive one second, in the order of their ids.
pub open spec fn advance_upto(m: TrafficModel, n: int) -> TrafficModel
    decreases n,
{
    if n <= 0 {
        m
    } else {
        advance_step(advance_upto(m, n - 1), n - 1)
    }
}

/// The first car waiting on street `s` goes through the light.
pub open spec fn cross_step(sim: &Simulation, m: TrafficModel, s: int) -> TrafficModel {
    let c = m.queues[s][0] as int;
    let car = m.cars[c];
    TrafficModel {
        cars: m.cars.update(
            c,
            CarModel {
                remain_time: travel_of(sim, car.path.last()),
                state: CarState::Ready,
                ..car
            },
        ),
        queues: m.queues.update(s, m.queues[s].drop_first()),
    }
}

/// Whether the light at the end of street `s` is green at time `t`.
pub open spec fn lit(sched: &Schedule, s: int, t: int) -> bool {
    sched.green(sched.simulation.street_end(s as StreetId), s as StreetId, t)
}

/// Streets `0..n` let their first waiting car through where the light is
/// green at `t`.
pub open spec fn cross_upto(sched: &Schedule, m: TrafficModel, t: int, n: int) -> TrafficModel
    decreases n,
{
    if n <= 0 {
        m
    } else {
        let p = cross_upto(sched, m, t, n - 1);
        if p.queues[n - 1].len() > 0 && lit(sched, n - 1, t) {
            cross_step(sched.simulation, p, n - 1)
        } else {
            p
        }
    }
}

/// Number of cars among `cars` that have arrived.
pub open spec fn count_arrived(cars: Seq<CarModel>) -> int
    decreases cars.len(),
{
    if cars.len() == 0 {
        0
    } else {
        count_arrived(cars.drop_last()) + if cars.last().state == CarState::Arrived {
            1int
        } else {
            0
        }
    }
}

/// The streets still ahead of car `c` are the end of its planned path: the
/// streets it has left behind are a prefix of that path.
pub open spec fn follows_plan(sim: &Simulation, c: int, car: CarModel) -> bool {
    let p = sim.car_paths@[c]@;
    &&& car.path.len() <= p.len()
    &&& forall|i: int|
        0 <= i < car.path.len() ==> #[trigger] car.path[i] == p[p.len() - 1 - i]
}

/// What holds of the traffic at every step of a simulation.
pub open spec fn traffic_wf(sim: &Simulation, m: TrafficModel) -> bool {
    &&& sim.wf()
    &&& m.cars.len() == sim.car_paths@.len()
    &&& m.queues.len() == sim.streets@.len()
    &&& forall|c: int|
        0 <= c < m.cars.len() ==> {
            &&& follows_plan(sim, c, #[trigger] m.cars[c])
            &&& 0 <= m.cars[c].remain_time <= u32::MAX
            &&& m.cars[c].state == CarState::Ready ==> m.cars[c].remain_time >= 1
                && m.cars[c].path.len() >= 1
        }
    &&& forall|s: int, k: int|
        0 <= s < m.queues.len() && 0 <= k < m.queues[s].len() ==> {
            &&& #[trigger] m.queues[s][k] < m.cars.len()
            &&& m.cars[m.queues[s][k] as int].state == CarState::Waiting
            &&& m.cars[m.queues[s][k] as int].path.len() >= 1
        }
    &&& forall|s1: int, k1: int, s2: int, k2: int|
        0 <= s1 < m.queues.len() && 0 <= k1 < m.queues[s1].len() && 0 <= s2 < m.queues.len() && 0
            <= k2 < m.queues[s2].len() && #[trigger] m.queues[s1][k1] == #[trigger] m.queues[s2][k2]
            ==> s1 == s2 && k1 == k2
}

pub proof fn lemma_count_arrived_bounds(cars: Seq<CarModel>)
    ensures
        0 <= count_arrived(cars) <= cars.len(),
    decreases cars.len(),
{
    if cars.len() > 0 {
        lemma_count_arrived_bounds(cars.drop_last());
    }
}

pub proof fn lemma_count_arrived_update(cars: Seq<CarModel>, i: int, v: CarModel)
    requires
        0 <= i < cars.len(),
    ensures
        count_arrived(cars.update(i, v)) == count_arrived(cars) - (if cars[i].state
            == CarState::Arrived {
            1int
        } else {
            0
        }) + (if v.state == CarState::Arrived {
            1int
        } else {
            0
        }),
    decreases cars.len(),
{
    let u = cars.update(i, v);
    if i == cars.len() - 1 {
        assert(u.drop_last() =~= cars.drop_last());
    } else {
        assert(u.drop_last() =~= cars.drop_last().update(i, v));
        lemma_count_arrived_update(cars.drop_last(), i, v);
    }
}

/// A car that is not queued anywhere may join the queue of street `s`.
proof fn lemma_push_keeps_distinct(m: TrafficModel, s: int, c: CarId, q2: Seq<Seq<CarId>>)
    requires
        0 <= s < m.queues.len(),
        q2 == m.queues.update(s, m.queues[s].push(c)),
        forall|s1: int, k1: int|
            0 <= s1 < m.queues.len() && 0 <= k1 < m.queues[s1].len() ==> #[trigger] m.queues[s1][k1]
                != c,
        forall|s1: int, k1: int, s2: int, k2: int|
            0 <= s1 < m.queues.len() && 0 <= k1 < m.queues[s1].len() && 0 <= s2 < m.queues.len()
                && 0 <= k2 < m.queues[s2].len() && #[trigger] m.queues[s1][k1]
                == #[trigger] m.queues[s2][k2] ==> s1 == s2 && k1 == k2,
    ensures
        forall|s1: int, k1: int, s2: int, k2: int|
            0 <= s1 < q2.len() && 0 <= k1 < q2[s1].len() && 0 <= s2 < q2.len() && 0 <= k2
                < q2[s2].len() && #[trigger] q2[s1][k1] == #[trigger] q2[s2][k2] ==> s1 == s2 && k1
                == k2,
{
    assert forall|s1: int, k1: int, s2: int, k2: int|
        0 <= s1 < q2.len() && 0 <= k1 < q2[s1].len() && 0 <= s2 < q2.len() && 0 <= k2
            < q2[s2].len() && #[trigger] q2[s1][k1] == #[trigger] q2[s2][k2] implies s1 == s2 && k1
        == k2 by {
        let new1 = s1 == s && k1 == m.queues[s].len();
        let new2 = s2 == s && k2 == m.queues[s].len();
        if !new1 {
            assert(q2[s1][k1] == m.queues[s1][k1]);
        }
        if !new2 {
            assert(q2[s2][k2] == m.queues[s2][k2]);
        }
    }
}

pub proof fn lemma_start_step(sim: &Simulation, m: TrafficModel, c: int)
    requires
        traffic_wf(sim, m),
        0 <= c < m.cars.len(),
        m.cars[c] == initial_traffic(sim).cars[c],
        forall|s: int, k: int|
            0 <= s < m.queues.len() && 0 <= k < m.queues[s].len() ==> #[trigger] m.queues[s][k]
                < c,
    ensures
        traffic_wf(sim, start_step(m, c)),
        forall|s: int, k: int|
            0 <= s < m.queues.len() && 0 <= k < start_step(m, c).queues[s].len()
                ==> #[trigger] start_step(m, c).queues[s][k] < c + 1,
        count_arrived(start_step(m, c).cars) == count_arrived(m.cars) + if start_step(
            m,
            c,
        ).cars[c].state == CarState::Arrived {
            1int
        } else {
            0
        },
{
    let n = start_step(m, c);
    let car = m.cars[c];
    let p = sim.car_paths@[c]@;
    assert(car.path =~= p.reverse());
    assert(car.path.len() >= 1);
    let newcar = n.cars[c];
    lemma_count_arrived_update(m.cars, c, newcar);
    assert(follows_plan(sim, c, newcar));
    if car.path.drop_last().len() > 0 {
        let s = car.path.last() as int;
        assert(car.path.last() == p[p.len() - 1 - (car.path.len() - 1)]);
        assert(s < sim.streets@.len());
        lemma_push_keeps_distinct(m, s, c as CarId, n.queues);
        assert forall|s1: int, k: int|
            0 <= s1 < n.queues.len() && 0 <= k < n.queues[s1].len() implies {
            &&& #[trigger] n.queues[s1][k] < n.cars.len()
            &&& n.cars[n.queues[s1][k] as int].state == CarState::Waiting
            &&& n.cars[n.queues[s1][k] as int].path.len() >= 1
        } by {
            if !(s1 == s && k == m.queues[s].len()) {
                assert(n.queues[s1][k] == m.queues[s1][k]);
            }
        }
    }
    assert forall|ci: int| 0 <= ci < n.cars.len() implies {
        &&& follows_plan(sim, ci, #[trigger] n.cars[ci])
        &&& 0 <= n.cars[ci].remain_time <= u32::MAX
        &&& n.cars[ci].state == CarState::Ready ==> n.cars[ci].remain_time >= 1
            && n.cars[ci].path.len() >= 1
    } by {
        if ci != c {
            assert(n.cars[ci] == m.cars[ci]);
        }
    }
}

pub proof fn lemma_advance_step(sim: &Simulation, m: TrafficModel, c: int)
    requires
        traffic_wf(sim, m),
        0 <= c < m.cars.len(),
    ensures
        traffic_wf(sim, advance_step(m, c)),
        count_arrived(advance_step(m, c).cars) == count_arrived(m.cars) + if m.cars[c].state
            != CarState::Arrived && advance_step(m, c).cars[c].state == CarState::Arrived {
            1int
        } else {
            0
        },
{
    let n = advance_step(m, c);
    let car = m.cars[c];
    if car.state == CarState::Ready {
        let newcar = n.cars[c];
        lemma_count_arrived_update(m.cars, c, newcar);
        assert(follows_plan(sim, c, newcar));
        let p = sim.car_paths@[c]@;
        if car.remain_time <= 1 && car.path.drop_last().len() > 0 {
            let s = car.path.last() as int;
            assert(car.path.last() == p[p.len() - 1 - (car.path.len() - 1)]);
            assert(s < sim.streets@.len());
            assert forall|s1: int, k1: int|
                0 <= s1 < m.queues.len() && 0 <= k1 < m.queues[s1].len() implies #[trigger] m.queues[s1][k1]
                != c as CarId by {
                assert(m.cars[m.queues[s1][k1] as int].state == CarState::Waiting);
                if m.queues[s1][k1] as int == c {
                    assert(m.cars[c].state == CarState::Waiting);
                }
            }
            lemma_push_keeps_distinct(m, s, c as CarId, n.queues);
            assert forall|s1: int, k: int|
                0 <= s1 < n.queues.len() && 0 <= k < n.queues[s1].len() implies {
                &&& #[trigger] n.queues[s1][k] < n.cars.len()
                &&& n.cars[n.queues[s1][k] as int].state == CarState::Waiting
                &&& n.cars[n.queues[s1][k] as int].path.len() >= 1
            } by {
                if !(s1 == s && k == m.queues[s].len()) {
                    assert(n.queues[s1][k] == m.queues[s1][k]);
                    assert(m.cars[m.queues[s1][k] as int].state == CarState::Waiting);
                }
            }
        } else {
            assert forall|s1: int, k: int|
                0 <= s1 < n.queues.len() && 0 <= k < n.queues[s1].len() implies {
                &&& #[trigger] n.queues[s1][k] < n.cars.len()
                &&& n.cars[n.queues[s1][k] as int].state == CarState::Waiting
                &&& n.cars[n.queues[s1][k] as int].path.len() >= 1
            } by {
                assert(m.cars[m.queues[s1][k] as int].state == CarState::Waiting);
            }
        }
        assert forall|ci: int| 0 <= ci < n.cars.len() implies {
            &&& follows_plan(sim, ci, #[trigger] n.cars[ci])
            &&& 0 <= n.cars[ci].remain_time <= u32::MAX
            &&& n.cars[ci].state == CarState::Ready ==> n.cars[ci].remain_time >= 1
                && n.cars[ci].path.len() >= 1
        } by {
            if ci != c {
                assert(n.cars[ci] == m.cars[ci]);
            }
        }
    }
}

pub proof fn lemma_cross_step(sim: &Simulation, m: TrafficModel, s: int)
    requires
        traffic_wf(sim, m),
        0 <= s < m.queues.len(),
        m.queues[s].len() > 0,
    ensures
        traffic_wf(sim, cross_step(sim, m, s)),
        count_arrived(cross_step(sim, m, s).cars) == count_arrived(m.cars),
{
    let n = cross_step(sim, m, s);
    let c = m.queues[s][0] as int;
    let car = m.cars[c];
    let p = sim.car_paths@[c]@;
    assert(car.path.last() == p[p.len() - 1 - (car.path.len() - 1)]);
    lemma_count_arrived_update(m.cars, c, n.cars[c]);
    assert(follows_plan(sim, c, n.cars[c]));
    assert forall|s1: int, k: int|
        0 <= s1 < n.queues.len() && 0 <= k < n.queues[s1].len() implies {
        &&& #[trigger] n.queues[s1][k] < n.cars.len()
        &&& n.cars[n.queues[s1][k] as int].state == CarState::Waiting
        &&& n.cars[n.queues[s1][k] as int].path.len() >= 1
    } by {
        let ok = if s1 == s { k + 1 } else { k };
        assert(n.queues[s1][k] == m.queues[s1][ok]);
        if m.queues[s1][ok] as int == c {
            assert(m.queues[s1][ok] == m.queues[s][0]);
        }
    }
    assert forall|s1: int, k1: int, s2: int, k2: int|
        0 <= s1 < n.queues.len() && 0 <= k1 < n.queues[s1].len() && 0 <= s2 < n.queues.len() && 0
            <= k2 < n.queues[s2].len() && #[trigger] n.queues[s1][k1] == #[trigger] n.queues[s2][k2]
        implies s1 == s2 && k1 == k2 by {
        let o1 = if s1 == s { k1 + 1 } else { k1 };
        let o2 = if s2 == s { k2 + 1 } else { k2 };
        assert(n.queues[s1][k1] == m.queues[s1][o1]);
        assert(n.queues[s2][k2] == m.queues[s2][o2]);
    }
    assert forall|ci: int| 0 <= ci < n.cars.len() implies {
        &&& follows_plan(sim, ci, #[trigger] n.cars[ci])
        &&& 0 <= n.cars[ci].remain_time <= u32::MAX
        &&& n.cars[ci].state == CarState::Ready ==> n.cars[ci].remain_time >= 1
            && n.cars[ci].path.len() >= 1
    } by {
        if ci != c {
            assert(n.cars[ci] == m.cars[ci]);
        }
    }
}

/// Cars and queues of a running simulation.
pub struct Traffic {
    pub cars: Vec<Car>,
    pub queues: Vec<VecDeque<CarId>>,
}

impl Traffic {
    pub open spec fn model(&self) -> TrafficModel {
        TrafficModel {
            cars: self.cars@.map_values(|c: Car| c.model()),
            queues: self.queues@.map_values(|q: VecDeque<CarId>| q@),
        }
    }

    /// Every car queued at the end of its first street, in the order of
    /// car ids.
    pub fn start(sim: &Simulation) -> (r: Traffic)
        requires
            sim.wf(),
        ensures
            r.model() == start_upto(initial_traffic(sim), sim.car_paths@.len() as int),
            traffic_wf(sim, r.model()),
    {
        let n = sim.car_paths.len();
        let mut cars: Vec<Car> = Vec::with_capacity(n);
        let mut c: usize = 0;
        while c < n
            invariant
                n == sim.car_paths@.len(),
                0 <= c <= n,
                cars@.len() == c,
                forall|i: int| 0 <= i < c ==> (#[trigger] cars@[i]).model() == initial_traffic(sim).cars[i],
            decreases n - c,
        {
            let car = Car::new(sim.car_paths[c].as_slice());
            cars.push(car);
            c += 1;
        }
        let mut queues: Vec<VecDeque<CarId>> = Vec::with_capacity(sim.streets.len());
        let mut s: usize = 0;
        while s < sim.streets.len()
            invariant
                0 <= s <= sim.streets@.len(),
                queues@.len() == s,
                forall|i: int| 0 <= i < s ==> (#[trigger] queues@[i])@ == Seq::<CarId>::empty(),
            decreases sim.streets@.len() - s,
        {
            queues.push(VecDeque::new());
            s += 1;
        }
        let mut traffic = Traffic { cars, queues };
        proof {
            assert(traffic.model().cars =~= initial_traffic(sim).cars);
            assert(traffic.model().queues =~= initial_traffic(sim).queues);
        }
        let mut c: usize = 0;
        while c < n
            invariant
                sim.wf(),
                n == sim.car_paths@.len(),
                0 <= c <= n,
                traffic.model() == start_upto(initial_traffic(sim), c as int),
                traffic_wf(sim, traffic.model()),
                forall|i: int| c <= i < n ==> traffic.model().cars[i] == initial_traffic(sim).cars[i],
                forall|s: int, k: int|
                    0 <= s < traffic.model().queues.len() && 0 <= k < traffic.model().queues[s].len()
                        ==> #[trigger] traffic.model().queues[s][k] < c,
            decreases n - c,
        {
            let ghost before = traffic.model();
            proof {
                lemma_start_step(sim, before, c as int);
            }
            let s = traffic.cars[c].start();
            if traffic.cars[c].remain_path.len() == 0 {
                traffic.cars[c].state = CarState::Arrived;
            } else {
                traffic.queues[s].push_back(c);
            }
            proof {
                assert(traffic.model().cars =~= start_step(before, c as int).cars);
                assert(traffic.model().queues =~= start_step(before, c as int).queues);
            }
            c += 1;
        }
        traffic
    }

    /// Every driving car moves one second ahead, in the order of car ids;
    /// returns how many cars arrived.
    pub fn advance(&mut self, sim: &Simulation) -> (r: usize)
        requires
            traffic_wf(sim, old(self).model()),
        ensures
            final(self).model() == advance_upto(old(self).model(), old(self).cars@.len() as int),
            r == count_arrived(final(self).model().cars) - count_arrived(old(self).model().cars),
            traffic_wf(sim, final(self).model()),
    {
        let ghost m0 = self.model();
        let mut arrived: usize = 0;
        let mut c: usize = 0;
        while c < self.cars.len()
            invariant
                traffic_wf(sim, self.model()),
                self.cars@.len() == old(self).cars@.len(),
                0 <= c <= self.cars@.len(),
                m0 == old(self).model(),
                self.model() == advance_upto(m0, c as int),
                arrived == count_arrived(self.model().cars) - count_arrived(m0.cars),
            decreases self.cars@.len() - c,
        {
            let ghost before = self.model();
            proof {
                lemma_advance_step(sim, before, c as int);
                lemma_count_arrived_bounds(advance_step(before, c as int).cars);
                lemma_count_arrived_bounds(m0.cars);
            }
            if self.cars[c].state == CarState::Ready {
                let next = self.cars[c].move_forward();
                match next {
                    Some(s) => {
                        self.queues[s].push_back(c);
                    },
                    None => {
                        if self.cars[c].state == CarState::Arrived {
                            arrived += 1;
                        }
                    },
                }
            }
            proof {
                assert(self.model().cars =~= advance_step(before, c as int).cars);
                assert(self.model().queues =~= advance_step(before, c as int).queues);
            }
            c += 1;
        }
        arrived
    }

    /// The first car waiting on street `s` goes through its light.
    pub fn cross(&mut self, sim: &Simulation, s: StreetId)
        requires
            traffic_wf(sim, old(self).model()),
            s < old(self).queues@.len(),
            old(self).model().queues[s as int].len() > 0,
        ensures
            final(self).model() == cross_step(sim, old(self).model(), s as int),
            traffic_wf(sim, final(self).model()),
            count_arrived(final(self).model().cars) == count_arrived(old(self).model().cars),
    {
        let ghost before = self.model();
        proof {
            lemma_cross_step(sim, before, s as int);
        }
        let c = match self.queues[s].pop_front() {
            Some(c) => c,
            None => 0,
        };
        proof {
            let p = sim.car_paths@[c as int]@;
            let car = before.cars[c as int];
            assert(car.path.last() == p[p.len() - 1 - (car.path.len() - 1)]);
        }
        self.cars[c].cross_intersection(sim);
        proof {
            assert(self.model().cars =~= cross_step(sim, before, s as int).cars);
            assert(self.model().queues =~= cross_step(sim, before, s as int).queues);
        }
    }
}

/// Everything a simulation has counted so far, with the traffic itself.
pub struct StatsModel {
    pub traffic: TrafficModel,
    pub score: int,
    pub waits: Seq<int>,
    pub crossed: Set<StreetId>,
    pub num_arrived: int,
    pub earliest: int,
    pub latest: int,
}

/// The state before the first tick: cars queued at their first street;
/// those whose path is that one street have arrived at time 0.
pub open spec fn initial_stats(sim: &Simulation) -> StatsModel {
    let m = start_upto(initial_traffic(sim), sim.car_paths@.len() as int);
    let arr = count_arrived(m.cars);
    StatsModel {
        traffic: m,
        score: (sim.bonus + sim.duration) * arr,
        waits: Seq::new(sim.streets@.len(), |s: int| 0int),
        crossed: Set::empty(),
        num_arrived: arr,
        earliest: 0,
        latest: 0,
    }
}

/// Streets whose first waiting car goes through at time `t`.
pub open spec fn crossed_at(sched: &Schedule, m: TrafficModel, t: int) -> Set<StreetId> {
    Set::new(
        |s: StreetId|
            (s as int) < m.queues.len() && m.queues[s as int].len() > 0 && lit(sched, s as int, t),
    )
}

/// One second of simulation: cars drive, lights let cars through, and the
/// waiting queues and the arrivals are counted.
pub open spec fn tick(sched: &Schedule, st: StatsModel, t: int) -> StatsModel {
    let sim = sched.simulation;
    let m1 = advance_upto(st.traffic, st.traffic.cars.len() as int);
    let arr = count_arrived(m1.cars) - count_arrived(st.traffic.cars);
    let m2 = cross_upto(sched, m1, t, m1.queues.len() as int);
    StatsModel {
        traffic: m2,
        score: st.score + (sim.bonus + sim.duration - t) * arr,
        waits: Seq::new(
            st.waits.len(),
            |s: int|
                st.waits[s] + if m2.queues[s].len() > 0 {
                    1int
                } else {
                    0
                },
        ),
        crossed: st.crossed.union(crossed_at(sched, m1, t)),
        num_arrived: st.num_arrived + arr,
        earliest: if arr > 0 && st.num_arrived == 0 {
            t
        } else {
            st.earliest
        },
        latest: if arr > 0 {
            t
        } else {
            st.latest
        },
    }
}

/// The state after the ticks at times `0..n`.
pub open spec fn run(sched: &Schedule, n: int) -> StatsModel
    decreases n,
{
    if n <= 0 {
        initial_stats(sched.simulation)
    } else {
        tick(sched, run(sched, n - 1), n - 1)
    }
}

/// The outcome of simulating `sched` from time 0 to its duration inclusive.
pub open spec fn outcome(sched: &Schedule) -> StatsModel {
    run(sched, sched.simulation.duration as int + 1)
}

/// The score of `sched`.
pub open spec fn score_of(sched: &Schedule) -> int {
    outcome(sched).score
}

/// Sum of the numbers of phases of intersections `0..n`.
pub open spec fn phases_upto(sched: &Schedule, n: int) -> int
    decreases n,
{
    if n <= 0 {
        0
    } else {
        phases_upto(sched, n - 1) + sched.turns_at((n - 1) as IntersectionId).len()
    }
}

impl ScheduleStats {
    /// These statistics are those of `st`, a finished simulation of `sched`.
    pub open spec fn reports(&self, sched: &Schedule, st: StatsModel) -> bool {
        &&& self.score == st.score
        &&& self.num_arrived_cars == st.num_arrived
        &&& self.earliest_arrival == st.earliest
        &&& self.latest_arrival == st.latest
        &&& self.crossed_streets@ == st.crossed
        &&& forall|s: StreetId|
            #[trigger] self.total_wait_time@.contains_key(s) <==> (s as int) < st.waits.len()
                && st.waits[s as int] > 0
        &&& forall|s: StreetId| #[trigger]
            self.total_wait_time@.contains_key(s) ==> self.total_wait_time@[s] == st.waits[s as int]
        &&& self.num_intersections == sched.intersections@.len()
        &&& self.num_streets == if phases_upto(sched, sched.simulation.num_intersections as int)
            <= usize::MAX {
            phases_upto(sched, sched.simulation.num_intersections as int)
        } else {
            usize::MAX as int
        }
    }
}

proof fn lemma_cross_upto_frame(sched: &Schedule, m: TrafficModel, t: int, n: int)
    requires
        0 <= n <= m.queues.len(),
    ensures
        cross_upto(sched, m, t, n).queues.len() == m.queues.len(),
        forall|s: int| n <= s < m.queues.len() ==> cross_upto(sched, m, t, n).queues[s] == m.queues[s],
    decreases n,
{
    if n > 0 {
        lemma_cross_upto_frame(sched, m, t, n - 1);
    }
}

proof fn lemma_score_step(score: int, na: int, arr: int, bd: int, x: int, n: int)
    requires
        0 <= score <= na * bd,
        0 <= x <= bd,
        0 <= arr,
        0 <= na,
        na + arr <= n,
        n * bd <= u64::MAX,
    ensures
        score + x * arr <= (na + arr) * bd,
        (na + arr) * bd <= u64::MAX,
        x * arr <= u64::MAX,
{
    assert(x * arr <= bd * arr) by (nonlinear_arith)
        requires
            0 <= x <= bd,
            0 <= arr,
    ;
    assert((na + arr) * bd == na * bd + arr * bd) by (nonlinear_arith);
    assert((na + arr) * bd <= n * bd) by (nonlinear_arith)
        requires
            na + arr <= n,
            0 <= bd,
    ;
}

/// Number of cars of `cars` that have arrived.
fn count_arrived_cars(cars: &Vec<Car>) -> (r: usize)
    ensures
        r == count_arrived(cars@.map_values(|c: Car| c.model())),
{
    let ghost ms = cars@.map_values(|c: Car| c.model());
    let mut r: usize = 0;
    let mut i: usize = 0;
    while i < cars.len()
        invariant
            0 <= i <= cars@.len(),
            ms == cars@.map_values(|c: Car| c.model()),
            r == count_arrived(ms.subrange(0, i as int)),
        decreases cars@.len() - i,
    {
        proof {
            assert(ms.subrange(0, i as int + 1).drop_last() =~= ms.subrange(0, i as int));
            lemma_count_arrived_bounds(ms.subrange(0, i as int));
        }
        if cars[i].state == CarState::Arrived {
            r += 1;
        }
        i += 1;
    }
    proof {
        assert(ms.subrange(0, i as int) =~= ms);
    }
    r
}

impl<'a> Schedule<'a> {
    /// Replays every car against this schedule from time 0 to the duration
    /// inclusive.
    pub fn stats(&self) -> (r: Result<ScheduleStats, String>)
        requires
            self.wf(),
        ensures
            r is Ok,
            r->Ok_0.reports(self, outcome(self)),
    {
        let sim = self.simulation;
        let ns = sim.streets.len();
        let ghost bd = sim.bonus + sim.duration;
        let mut traffic = Traffic::start(sim);
        let arr0 = count_arrived_cars(&traffic.cars);
        proof {
            lemma_count_arrived_bounds(traffic.model().cars);
            assert(arr0 * bd <= sim.car_paths@.len() * bd) by (nonlinear_arith)
                requires
                    arr0 <= sim.car_paths@.len(),
                    0 <= bd,
            ;
            assert(arr0 * bd <= u64::MAX);
            assert(bd * arr0 == arr0 * bd) by (nonlinear_arith);
        }
        let mut score: Score = (sim.bonus as u64 + sim.duration as u64) * arr0 as u64;
        let mut num_arrived: usize = arr0;
        let mut earliest: Time = 0;
        let mut latest: Time = 0;
        let mut waits: Vec<Time> = Vec::with_capacity(ns);
        let mut crossed: Vec<bool> = Vec::with_capacity(ns);
        let mut s: usize = 0;
        while s < ns
            invariant
                ns == sim.streets@.len(),
                0 <= s <= ns,
                waits@.len() == s,
                crossed@.len() == s,
                forall|i: int| 0 <= i < s ==> waits@[i] == 0 && !crossed@[i],
            decreases ns - s,
        {
            waits.push(0);
            crossed.push(false);
            s += 1;
        }
        proof {
            assert(traffic.model() == run(self, 0).traffic);
        }
        let mut t: Time = 0;
        while t <= sim.duration
            invariant
                self.wf(),
                sim == self.simulation,
                ns == sim.streets@.len(),
                bd == sim.bonus + sim.duration,
                0 <= t <= sim.duration + 1,
                traffic_wf(sim, traffic.model()),
                traffic.model() == run(self, t as int).traffic,
                score == run(self, t as int).score,
                num_arrived == run(self, t as int).num_arrived,
                earliest == run(self, t as int).earliest,
                latest == run(self, t as int).latest,
                waits@.len() == ns,
                crossed@.len() == ns,
                run(self, t as int).waits.len() == ns,
                forall|i: int| 0 <= i < ns ==> waits@[i] == run(self, t as int).waits[i],
                forall|i: int| 0 <= i < ns ==> waits@[i] <= t,
                forall|i: StreetId|
                    #![trigger run(self, t as int).crossed.contains(i)]
                    run(self, t as int).crossed.contains(i) <==> (i as int) < ns && crossed@[i as int],
                num_arrived == count_arrived(traffic.model().cars),
                score <= num_arrived * bd,
                earliest <= sim.duration,
                latest <= sim.duration,
            decreases sim.duration + 1 - t,
        {
            let ghost st = run(self, t as int);
            let arr = traffic.advance(sim);
            let ghost m1 = traffic.model();
            proof {
                lemma_count_arrived_bounds(m1.cars);
                lemma_count_arrived_bounds(st.traffic.cars);
            }
            let mut s: usize = 0;
            while s < ns
                invariant
                    self.wf(),
                    sim == self.simulation,
                    ns == sim.streets@.len(),
                    0 <= s <= ns,
                    m1.queues.len() == ns,
                    traffic_wf(sim, traffic.model()),
                    traffic.model() == cross_upto(self, m1, t as int, s as int),
                    count_arrived(traffic.model().cars) == count_arrived(m1.cars),
                    crossed@.len() == ns,
                    forall|i: int|
                        0 <= i < ns ==> (crossed@[i] <==> st.crossed.contains(i as StreetId) || (i
                            < s && crossed_at(self, m1, t as int).contains(i as StreetId))),
                decreases ns - s,
            {
                proof {
                    lemma_cross_upto_frame(self, m1, t as int, s as int);
                }
                if traffic.queues[s].len() > 0 && self.is_green(
                    sim.streets[s].end_intersection,
                    s,
                    t,
                ) {
                    traffic.cross(sim, s);
                    crossed.set(s, true);
                }
                s += 1;
            }
            let ghost m2 = traffic.model();
            proof {
                lemma_cross_upto_frame(self, m1, t as int, ns as int);
                assert forall|i: int| 0 <= i < ns implies st.waits[i] <= t by {
                    assert(waits@[i] == st.waits[i]);
                }
            }
            let mut s: usize = 0;
            while s < ns
                invariant
                    ns == sim.streets@.len(),
                    0 <= s <= ns,
                    m2 == traffic.model(),
                    m2.queues.len() == ns,
                    traffic.queues@.len() == ns,
                    waits@.len() == ns,
                    st.waits.len() == ns,
                    t <= sim.duration,
                    sim.duration < u32::MAX,
                    forall|i: int|
                        0 <= i < s ==> waits@[i] == st.waits[i] + if m2.queues[i].len() > 0 {
                            1int
                        } else {
                            0
                        },
                    forall|i: int| s <= i < ns ==> waits@[i] == st.waits[i],
                    forall|i: int| 0 <= i < ns ==> st.waits[i] <= t,
                decreases ns - s,
            {
                if traffic.queues[s].len() > 0 {
                    let w = waits[s];
                    waits.set(s, w + 1);
                }
                s += 1;
            }
            proof {
                lemma_score_step(
                    score as int,
                    num_arrived as int,
                    arr as int,
                    bd as int,
                    (sim.bonus + sim.duration - t) as int,
                    sim.car_paths@.len() as int,
                );
            }
            score = score + (sim.bonus as u64 + (sim.duration - t) as u64) * arr as u64;
            num_arrived = num_arrived + arr;
            if arr > 0 {
                latest = t;
                if num_arrived == arr {
                    earliest = t;
                }
            }
            proof {
                let nx = run(self, t as int + 1);
                assert(nx == tick(self, st, t as int));
                assert forall|i: StreetId|
                    #![trigger nx.crossed.contains(i)]
                    nx.crossed.contains(i) <==> (i as int) < ns && crossed@[i as int] by {
                    if st.crossed.contains(i) {
                        assert(crossed@[i as int]);
                    }
                }
            }
            t += 1;
        }
        let ghost fin = run(self, t as int);
        let mut total_wait_time: HashMap<StreetId, Time> = HashMap::new();
        let mut crossed_streets: HashSet<StreetId> = HashSet::new();
        let mut s: usize = 0;
        while s < ns
            invariant
                ns == sim.streets@.len(),
                0 <= s <= ns,
                waits@.len() == ns,
                crossed@.len() == ns,
                fin.waits.len() == ns,
                forall|i: int| 0 <= i < ns ==> waits@[i] == fin.waits[i],
                forall|i: StreetId|
                    #[trigger] total_wait_time@.contains_key(i) <==> (i as int) < s && waits@[i as int]
                        > 0,
                forall|i: StreetId| #[trigger]
                    total_wait_time@.contains_key(i) ==> total_wait_time@[i] == waits@[i as int],
                forall|i: StreetId|
                    #[trigger] crossed_streets@.contains(i) <==> (i as int) < s && crossed@[i as int],
            decreases ns - s,
        {
            if waits[s] > 0 {
                total_wait_time.insert(s, waits[s]);
            }
            if crossed[s] {
                crossed_streets.insert(s);
            }
            s += 1;
        }
        let num_intersections = self.intersections.len();
        let mut num_streets: usize = 0;
        let mut k: IntersectionId = 0;
        while k < sim.num_intersections
            invariant
                self.wf(),
                sim == self.simulation,
                0 <= k <= sim.num_intersections,
                num_streets == if phases_upto(self, k as int) <= usize::MAX {
                    phases_upto(self, k as int)
                } else {
                    usize::MAX as int
                },
            decreases sim.num_intersections - k,
        {
            let n = match self.intersections.get(&k) {
                Some(inter) => inter.turns.len(),
                None => 0,
            };
            proof {
                assert(n == self.turns_at(k).len());
            }
            num_streets = num_streets.saturating_add(n);
            k += 1;
        }
        proof {
            assert(crossed_streets@ =~= fin.crossed);
        }
        Ok(
            ScheduleStats {
                num_intersections,
                num_streets,
                num_arrived_cars: num_arrived,
                earliest_arrival: earliest,
                latest_arrival: latest,
                crossed_streets,
                total_wait_time,
                score,
            },
        )
    }
}

proof fn lemma_initial_wf(sim: &Simulation)
    requires
        sim.wf(),
    ensures
        traffic_wf(sim, initial_traffic(sim)),
{
    let m = initial_traffic(sim);
    assert forall|c: int| 0 <= c < m.cars.len() implies {
        &&& follows_plan(sim, c, #[trigger] m.cars[c])
        &&& 0 <= m.cars[c].remain_time <= u32::MAX
        &&& m.cars[c].state == CarState::Ready ==> m.cars[c].remain_time >= 1
            && m.cars[c].path.len() >= 1
    } by {
        let p = sim.car_paths@[c]@;
        assert forall|i: int| 0 <= i < m.cars[c].path.len() implies #[trigger] m.cars[c].path[i]
            == p[p.len() - 1 - i] by {}
    }
}

proof fn lemma_start_upto_wf(sim: &Simulation, n: int)
    requires
        sim.wf(),
        0 <= n <= sim.car_paths@.len(),
    ensures
        traffic_wf(sim, start_upto(initial_traffic(sim), n)),
        forall|i: int|
            n <= i < sim.car_paths@.len() ==> start_upto(initial_traffic(sim), n).cars[i]
                == initial_traffic(sim).cars[i],
        forall|s: int, k: int|
            0 <= s < start_upto(initial_traffic(sim), n).queues.len() && 0 <= k < start_upto(
                initial_traffic(sim),
                n,
            ).queues[s].len() ==> #[trigger] start_upto(initial_traffic(sim), n).queues[s][k] < n,
    decreases n,
{
    if n == 0 {
        lemma_initial_wf(sim);
    } else {
        lemma_start_upto_wf(sim, n - 1);
        let m = start_upto(initial_traffic(sim), n - 1);
        lemma_start_step(sim, m, n - 1);
        let m2 = start_step(m, n - 1);
        assert forall|i: int| n <= i < sim.car_paths@.len() implies m2.cars[i] == initial_traffic(
            sim,
        ).cars[i] by {
            assert(m2.cars[i] == m.cars[i]);
        }
    }
}

proof fn lemma_advance_upto_wf(sim: &Simulation, m: TrafficModel, n: int)
    requires
        traffic_wf(sim, m),
        0 <= n <= m.cars.len(),
    ensures
        traffic_wf(sim, advance_upto(m, n)),
    decreases n,
{
    if n > 0 {
        lemma_advance_upto_wf(sim, m, n - 1);
        lemma_advance_step(sim, advance_upto(m, n - 1), n - 1);
    }
}

proof fn lemma_cross_upto_wf(sched: &Schedule, m: TrafficModel, t: int, n: int)
    requires
        traffic_wf(sched.simulation, m),
        0 <= n <= m.queues.len(),
    ensures
        traffic_wf(sched.simulation, cross_upto(sched, m, t, n)),
    decreases n,
{
    if n > 0 {
        lemma_cross_upto_wf(sched, m, t, n - 1);
        let p = cross_upto(sched, m, t, n - 1);
        if p.queues[n - 1].len() > 0 && lit(sched, n - 1, t) {
            lemma_cross_step(sched.simulation, p, n - 1);
        }
    }
}

/// What holds of the traffic at every step holds after any number of ticks.
pub proof fn lemma_run_wf(sched: &Schedule, n: int)
    requires
        sched.simulation.wf(),
        n >= 0,
    ensures
        traffic_wf(sched.simulation, run(sched, n).traffic),
    decreases n,
{
    let sim = sched.simulation;
    if n == 0 {
        lemma_start_upto_wf(sim, sim.car_paths@.len() as int);
    } else {
        lemma_run_wf(sched, n - 1);
        let st = run(sched, n - 1);
        lemma_advance_upto_wf(sim, st.traffic, st.traffic.cars.len() as int);
        let m1 = advance_upto(st.traffic, st.traffic.cars.len() as int);
        lemma_cross_upto_wf(sched, m1, n - 1, m1.queues.len() as int);
    }
}

/// Every car keeps to its planned path: after any number of ticks, the
/// streets still ahead of it are the end of its path, so the streets it has
/// crossed are a prefix of that path.
pub proof fn lemma_cars_follow_their_paths(sched: &Schedule, n: int, c: int)
    requires
        sched.simulation.wf(),
        n >= 0,
        0 <= c < sched.simulation.car_paths@.len(),
    ensures
        ({
            let path = sched.simulation.car_paths@[c]@;
            let ahead = run(sched, n).traffic.cars[c].path;
            &&& ahead.len() <= path.len()
            &&& ahead.reverse() == path.subrange(path.len() - ahead.len(), path.len() as int)
            &&& path.subrange(0, path.len() - ahead.len()) + ahead.reverse() == path
        }),
{
    lemma_run_wf(sched, n);
    let path = sched.simulation.car_paths@[c]@;
    let ahead = run(sched, n).traffic.cars[c].path;
    assert(follows_plan(sched.simulation, c, run(sched, n).traffic.cars[c]));
    assert(ahead.reverse() =~= path.subrange(path.len() - ahead.len(), path.len() as int));
    assert(path.subrange(0, path.len() - ahead.len()) + ahead.reverse() =~= path);
}

/// Two schedules of one city with the same plan have the same outcome.
pub proof fn lemma_same_plan_same_outcome(a: &Schedule, b: &Schedule)
    requires
        a.simulation == b.simulation,
        a.intersections@ == b.intersections@,
    ensures
        outcome(a) == outcome(b),
{
    lemma_run_same_plan(a, b, a.simulation.duration as int + 1);
}

proof fn lemma_run_same_plan(a: &Schedule, b: &Schedule, n: int)
    requires
        a.simulation == b.simulation,
        a.intersections@ == b.intersections@,
    ensures
        run(a, n) == run(b, n),
    decreases n,
{
    if n > 0 {
        lemma_run_same_plan(a, b, n - 1);
        let st = run(a, n - 1);
        let m1 = advance_upto(st.traffic, st.traffic.cars.len() as int);
        lemma_cross_same_plan(a, b, m1, n - 1, m1.queues.len() as int);
        assert(crossed_at(a, m1, n - 1) =~= crossed_at(
            b,
            m1,
            n - 1,
        ));
    }
}

proof fn lemma_cross_same_plan(
    a: &Schedule,
    b: &Schedule,
    m: TrafficModel,
    t: int,
    n: int,
)
    requires
        a.simulation == b.simulation,
        a.intersections@ == b.intersections@,
    ensures
        cross_upto(a, m, t, n) == cross_upto(b, m, t, n),
    decreases n,
{
    if n > 0 {
        lemma_cross_same_plan(a, b, m, t, n - 1);
    }
}


} // verus!
