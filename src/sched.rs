use crate::perm::{isum, lemma_isum_perm, lemma_msum_perm, msum};
use rand::seq::SliceRandom;
use crate::{copy_vec, IntersectionId, Score, Simulation, StreetId, Time};
use std::collections::HashMap;
use std::collections::HashSet;
use vstd::multiset::Multiset;
use vstd::prelude::*;

verus! {

broadcast use vstd::std_specs::hash::group_hash_axioms;

/// Sum of the green times of `turns[..j]`.
pub open spec fn prefix_time(turns: Seq<(StreetId, Time)>, j: int) -> int
    decreases j,
{
    if j <= 0 {
        0
    } else {
        prefix_time(turns, j - 1) + turns[j - 1].1
    }
}

/// Length of one full cycle of the lights.
pub open spec fn cycle_of(turns: Seq<(StreetId, Time)>) -> int {
    prefix_time(turns, turns.len() as int)
}

/// First index `j >= from` whose phase ends after `m` (`turns.len()` if none).
pub open spec fn find_slot(turns: Seq<(StreetId, Time)>, m: int, from: int) -> int
    decreases turns.len() - from,
{
    if from >= turns.len() || from < 0 {
        turns.len() as int
    } else if m < prefix_time(turns, from + 1) {
        from
    } else {
        find_slot(turns, m, from + 1)
    }
}

/// Index of the phase that is lit at offset `m` into the cycle.
pub open spec fn slot_at(turns: Seq<(StreetId, Time)>, m: int) -> int {
    find_slot(turns, m, 0)
}

/// Whether `street` is green at time `t` under the cyclic plan `turns`.
pub open spec fn green_at(turns: Seq<(StreetId, Time)>, street: StreetId, t: int) -> bool {
    let c = cycle_of(turns);
    c > 0 && {
        let j = slot_at(turns, t % c);
        0 <= j < turns.len() && turns[j].0 == street
    }
}

/// Index of `street` in `turns`, if it is there.
pub open spec fn index_of(turns: Seq<(StreetId, Time)>, street: StreetId) -> Option<int> {
    if exists|i: int| 0 <= i < turns.len() && turns[i].0 == street {
        Some(choose|i: int| 0 <= i < turns.len() && turns[i].0 == street)
    } else {
        None
    }
}

pub open spec fn has_street(turns: Seq<(StreetId, Time)>, street: StreetId) -> bool {
    exists|i: int| 0 <= i < turns.len() && turns[i].0 == street
}

/// No street appears twice.
pub open spec fn distinct_streets(turns: Seq<(StreetId, Time)>) -> bool {
    forall|i: int, j: int|
        0 <= i < turns.len() && 0 <= j < turns.len() && i != j ==> turns[i].0 != turns[j].0
}

/// Rearranging a plan keeps its streets distinct.
pub proof fn lemma_perm_distinct(a: Seq<(StreetId, Time)>, b: Seq<(StreetId, Time)>)
    requires
        a.to_multiset() == b.to_multiset(),
        distinct_streets(a),
    ensures
        distinct_streets(b),
{
    broadcast use vstd::seq_lib::group_to_multiset_ensures;

    assert forall|i: int, j: int|
        0 <= i < b.len() && 0 <= j < b.len() && i != j implies b[i].0 != b[j].0 by {
        if b[i].0 == b[j].0 {
            let x = b[i];
            let y = b[j];
            assert(b.contains(x));
            assert(b.contains(y));
            assert(b.to_multiset().count(x) > 0);
            assert(b.to_multiset().count(y) > 0);
            assert(a.contains(x));
            assert(a.contains(y));
            let k1 = choose|k: int| 0 <= k < a.len() && a[k] == x;
            let k2 = choose|k: int| 0 <= k < a.len() && a[k] == y;
            if x == y {
                let br = b.remove(i);
                let jj = if j < i { j } else { j - 1 };
                assert(br[jj] == x);
                assert(br.contains(x));
                assert(br.to_multiset() == b.to_multiset().remove(x));
                assert(br.to_multiset().count(x) > 0);
                assert(b.to_multiset().count(x) >= 2);
                let ar = a.remove(k1);
                assert(ar.to_multiset() == a.to_multiset().remove(x));
                assert(ar.to_multiset().count(x) >= 1);
                assert(ar.contains(x));
                let k3 = choose|k: int| 0 <= k < ar.len() && ar[k] == x;
                let ka = if k3 < k1 { k3 } else { k3 + 1 };
                assert(a[ka] == x);
                assert(ka != k1);
            } else {
                assert(k1 != k2);
            }
        }
    }
}

/// Relies on rand's `SliceRandom::shuffle` with `thread_rng`: it only
/// swaps elements, so the phases stay the same up to their order.
#[verifier::external_body]
fn shuffle_turns(turns: &mut Vec<(StreetId, Time)>)
    ensures
        final(turns)@.to_multiset() == old(turns)@.to_multiset(),
{
    turns.shuffle(&mut rand::thread_rng());
}

/// The cycle is the sum of the green times.
pub proof fn lemma_cycle_isum(turns: Seq<(StreetId, Time)>, n: int)
    requires
        0 <= n <= turns.len(),
    ensures
        prefix_time(turns, n) == isum(turns.subrange(0, n), |p: (StreetId, Time)| p.1 as int),
    decreases n,
{
    if n > 0 {
        lemma_cycle_isum(turns, n - 1);
        assert(turns.subrange(0, n).drop_last() =~= turns.subrange(0, n - 1));
    }
}

/// A rearranged plan has the same cycle.
pub proof fn lemma_perm_cycle(a: Seq<(StreetId, Time)>, b: Seq<(StreetId, Time)>)
    requires
        a.to_multiset() == b.to_multiset(),
    ensures
        cycle_of(a) == cycle_of(b),
{
    broadcast use vstd::seq_lib::group_to_multiset_ensures;

    lemma_cycle_isum(a, a.len() as int);
    assert(b.len() == a.len()) by {
        vstd::seq_lib::to_multiset_len(a);
        vstd::seq_lib::to_multiset_len(b);
    }
    lemma_cycle_isum(b, b.len() as int);
    assert(a.subrange(0, a.len() as int) =~= a);
    assert(b.subrange(0, b.len() as int) =~= b);
    lemma_isum_perm(a, b, |p: (StreetId, Time)| p.1 as int);
}

/// The green times of `turns`, as a multiset.
pub open spec fn times_of(turns: Seq<(StreetId, Time)>) -> Multiset<Time> {
    msum(turns, |p: (StreetId, Time)| Multiset::singleton(p.1))
}

/// The streets of `turns`, as a set.
pub open spec fn streets_of(turns: Seq<(StreetId, Time)>) -> Set<StreetId> {
    Set::new(|s: StreetId| has_street(turns, s))
}

/// A plan and a rearrangement of it have the same green times and the
/// same streets.
pub proof fn lemma_perm_phases(a: Seq<(StreetId, Time)>, b: Seq<(StreetId, Time)>)
    requires
        a.to_multiset() == b.to_multiset(),
    ensures
        times_of(a) == times_of(b),
        streets_of(a) == streets_of(b),
{
    broadcast use vstd::seq_lib::group_to_multiset_ensures;

    lemma_msum_perm(a, b, |p: (StreetId, Time)| Multiset::singleton(p.1));
    assert forall|s: StreetId| has_street(a, s) implies has_street(b, s) by {
        let i = choose|i: int| 0 <= i < a.len() && a[i].0 == s;
        assert(a.contains(a[i]));
        assert(a.to_multiset().count(a[i]) > 0);
        assert(b.to_multiset().count(a[i]) > 0);
        assert(b.contains(a[i]));
    }
    assert forall|s: StreetId| has_street(b, s) implies has_street(a, s) by {
        let i = choose|i: int| 0 <= i < b.len() && b[i].0 == s;
        assert(b.contains(b[i]));
        assert(b.to_multiset().count(b[i]) > 0);
        assert(a.to_multiset().count(b[i]) > 0);
        assert(a.contains(b[i]));
    }
    assert(streets_of(a) =~= streets_of(b));
}

pub proof fn lemma_prefix_time_monotone(turns: Seq<(StreetId, Time)>, a: int, b: int)
    requires
        a <= b,
    ensures
        prefix_time(turns, a) <= prefix_time(turns, b),
    decreases b - a,
{
    if a < b {
        lemma_prefix_time_monotone(turns, a, b - 1);
    }
}

/// The phase found at offset `m` covers `m`.
pub proof fn lemma_find_slot_bounds(turns: Seq<(StreetId, Time)>, m: int, from: int)
    requires
        0 <= from <= turns.len(),
        prefix_time(turns, from) <= m < cycle_of(turns),
    ensures
        from <= find_slot(turns, m, from) < turns.len(),
        prefix_time(turns, find_slot(turns, m, from)) <= m,
        m < prefix_time(turns, find_slot(turns, m, from) + 1),
    decreases turns.len() - from,
{
    if from == turns.len() {
    } else if m < prefix_time(turns, from + 1) {
    } else {
        lemma_find_slot_bounds(turns, m, from + 1);
    }
}

/// At any time, each intersection lets at most one of its streets through,
/// and none when its cycle is empty.
pub proof fn lemma_at_most_one_green(
    turns: Seq<(StreetId, Time)>,
    s1: StreetId,
    s2: StreetId,
    t: int,
)
    ensures
        green_at(turns, s1, t) && green_at(turns, s2, t) ==> s1 == s2,
        cycle_of(turns) == 0 ==> !green_at(turns, s1, t),
{
}

/// Each phase of a well-formed plan is a half-open interval of the cycle:
/// `street` is green at `t` iff `t mod C` falls in the interval of its phase.
pub proof fn lemma_green_interval(turns: Seq<(StreetId, Time)>, j: int, t: int)
    requires
        0 <= j < turns.len(),
        cycle_of(turns) > 0,
        t >= 0,
        forall|i: int| 0 <= i < turns.len() ==> turns[i].1 >= 1,
    ensures
        (prefix_time(turns, j) <= t % cycle_of(turns) < prefix_time(turns, j + 1)) <==> slot_at(
            turns,
            t % cycle_of(turns),
        ) == j,
{
    let c = cycle_of(turns);
    let m = t % c;
    lemma_find_slot_bounds(turns, m, 0);
    let k = slot_at(turns, m);
    if prefix_time(turns, j) <= m < prefix_time(turns, j + 1) && k != j {
        if k < j {
            lemma_prefix_time_monotone(turns, k + 1, j);
        } else {
            lemma_prefix_time_monotone(turns, j + 1, k);
        }
    }
}

/// Cyclic plan of green phases for one intersection.
pub struct Intersection {
    pub turns: Vec<(StreetId, Time)>,
    pub cycle: Time,
}

impl Clone for Intersection {
    fn clone(&self) -> (r: Self)
        ensures
            r.turns@ == self.turns@,
            r.cycle == self.cycle,
    {
        let turns = copy_vec(&self.turns);
        Intersection { turns, cycle: self.cycle }
    }
}

impl Default for Intersection {
    fn default() -> (r: Self)
        ensures
            r.wf(),
            r.turns@.len() == 0,
    {
        Intersection { turns: Vec::new(), cycle: 0 }
    }
}

impl Intersection {
    /// `cycle` is the sum of the green times, each street is listed once and
    /// for at least a second.
    pub open spec fn wf(&self) -> bool {
        &&& self.cycle == cycle_of(self.turns@)
        &&& distinct_streets(self.turns@)
        &&& forall|i: int| 0 <= i < self.turns@.len() ==> #[trigger] self.turns@[i].1 >= 1
    }

    pub open spec fn spec_cycle(&self) -> Time {
        self.cycle
    }

    pub fn cycle(&self) -> (r: Time)
        ensures
            r == self.spec_cycle(),
    {
        self.cycle
    }

    pub fn new(street_id: StreetId, time: Time) -> (r: Self)
        requires
            time >= 1,
        ensures
            r.wf(),
            r.turns@ == seq![(street_id, time)],
    {
        let turns = vec![(street_id, time)];
        let cycle = time;
        proof {
            assert(prefix_time(turns@, 1) == prefix_time(turns@, 0) + time);
        }
        Self { turns, cycle }
    }

    pub fn add_street(&mut self, street_id: StreetId, time: Time)
        requires
            old(self).wf(),
            !has_street(old(self).turns@, street_id),
            time >= 1,
            old(self).cycle + time <= u32::MAX,
        ensures
            final(self).wf(),
            final(self).turns@ == old(self).turns@.push((street_id, time)),
            final(self).cycle == old(self).cycle + time,
    {
        self.turns.push((street_id, time));
        self.cycle += time;
        proof {
            let t = self.turns@;
            lemma_prefix_time_prefix(old(self).turns@, t, old(self).turns@.len() as int);
            assert(distinct_streets(t)) by {
                assert forall|i: int, j: int|
                    0 <= i < t.len() && 0 <= j < t.len() && i != j implies t[i].0 != t[j].0 by {
                    if i == t.len() - 1 {
                        assert(old(self).turns@[j] == t[j]);
                    } else if j == t.len() - 1 {
                        assert(old(self).turns@[i] == t[i]);
                    } else {
                        assert(old(self).turns@[i] == t[i]);
                        assert(old(self).turns@[j] == t[j]);
                    }
                }
            }
        }
    }

    pub fn add_street_time(&mut self, street_id: StreetId, add_time: Time)
        requires
            old(self).wf(),
            add_time >= 1 || has_street(old(self).turns@, street_id),
            old(self).cycle + add_time <= u32::MAX,
        ensures
            final(self).wf(),
            final(self).cycle == old(self).cycle + add_time,
            match index_of(old(self).turns@, street_id) {
                Some(i) => final(self).turns@ == old(self).turns@.update(
                    i,
                    (street_id, (old(self).turns@[i].1 + add_time) as Time),
                ),
                None => final(self).turns@ == old(self).turns@.push((street_id, add_time)),
            },
    {
        let mut idx: usize = 0;
        while idx < self.turns.len()
            invariant
                self.wf(),
                *self == *old(self),
                self.cycle + add_time <= u32::MAX,
                0 <= idx <= self.turns@.len(),
                forall|k: int| 0 <= k < idx ==> self.turns@[k].0 != street_id,
            decreases self.turns@.len() - idx,
        {
            if self.turns[idx].0 == street_id {
                let time = self.turns[idx].1;
                proof {
                    lemma_prefix_time_le_cycle_item(self.turns@, idx as int);
                }
                self.turns.set(idx, (street_id, time + add_time));
                self.cycle += add_time;
                proof {
                    lemma_prefix_time_update(old(self).turns@, idx as int, (street_id, (time + add_time) as Time));
                    assert(index_of(old(self).turns@, street_id) == Some(idx as int));
                    let t = self.turns@;
                    assert forall|i: int, j: int|
                        0 <= i < t.len() && 0 <= j < t.len() && i != j implies t[i].0 != t[j].0 by {
                        assert(old(self).turns@[i].0 == t[i].0);
                        assert(old(self).turns@[j].0 == t[j].0);
                    }
                }
                return;
            }
            idx += 1;
        }
        // The street was not in the intersection yet: add it
        proof {
            assert(!has_street(self.turns@, street_id));
        }
        self.add_street(street_id, add_time);
    }

    pub fn sub_street_time(&mut self, street_id: StreetId, sub_time: Time)
        requires
            old(self).wf(),
            has_street(old(self).turns@, street_id),
        ensures
            final(self).wf(),
            ({
                let i = index_of(old(self).turns@, street_id)->Some_0;
                if old(self).turns@[i].1 > sub_time {
                    final(self).turns@ == old(self).turns@.update(
                        i,
                        (street_id, (old(self).turns@[i].1 - sub_time) as Time),
                    )
                } else {
                    final(self).turns@ == old(self).turns@.remove(i)
                }
            }),
    {
        let mut idx: usize = 0;
        while idx < self.turns.len()
            invariant
                self.wf(),
                *self == *old(self),
                has_street(self.turns@, street_id),
                0 <= idx <= self.turns@.len(),
                forall|k: int| 0 <= k < idx ==> self.turns@[k].0 != street_id,
            decreases self.turns@.len() - idx,
        {
            if self.turns[idx].0 == street_id {
                let time = self.turns[idx].1;
                proof {
                    lemma_prefix_time_le_cycle_item(self.turns@, idx as int);
                    assert(index_of(old(self).turns@, street_id) == Some(idx as int));
                }
                if time > sub_time {
                    self.turns.set(idx, (street_id, time - sub_time));
                    self.cycle -= sub_time;
                    proof {
                        lemma_prefix_time_update(old(self).turns@, idx as int, (street_id, (time - sub_time) as Time));
                        let t = self.turns@;
                        assert forall|i: int, j: int|
                            0 <= i < t.len() && 0 <= j < t.len() && i != j implies t[i].0 != t[j].0 by {
                            assert(old(self).turns@[i].0 == t[i].0);
                            assert(old(self).turns@[j].0 == t[j].0);
                        }
                    }
                    return;
                }
                self.cycle -= time;
                self.turns.remove(idx);
                proof {
                    lemma_prefix_time_remove(old(self).turns@, idx as int);
                    let t = self.turns@;
                    let o = old(self).turns@;
                    assert forall|i: int, j: int|
                        0 <= i < t.len() && 0 <= j < t.len() && i != j implies t[i].0 != t[j].0 by {
                        let oi = if i < idx { i } else { i + 1 };
                        let oj = if j < idx { j } else { j + 1 };
                        assert(o[oi] == t[i]);
                        assert(o[oj] == t[j]);
                    }
                    assert forall|i: int| 0 <= i < t.len() implies #[trigger] t[i].1 >= 1 by {
                        let oi = if i < idx { i } else { i + 1 };
                        assert(o[oi] == t[i]);
                    }
                }
                return;
            }
            idx += 1;
        }
    }

    /// Puts the phases in a random order.
    pub fn shuffle(&mut self)
        requires
            old(self).wf(),
        ensures
            final(self).wf(),
            final(self).cycle == old(self).cycle,
            final(self).turns@.to_multiset() == old(self).turns@.to_multiset(),
    {
        shuffle_turns(&mut self.turns);
        proof {
            broadcast use vstd::seq_lib::group_to_multiset_ensures;

            let a = old(self).turns@;
            let b = self.turns@;
            lemma_perm_cycle(a, b);
            lemma_perm_distinct(a, b);
            assert forall|i: int| 0 <= i < b.len() implies #[trigger] b[i].1 >= 1 by {
                assert(b.contains(b[i]));
                assert(b.to_multiset().count(b[i]) > 0);
                assert(a.contains(b[i]));
            }
        }
    }

    pub fn is_green(&self, street_id: StreetId, at_time: Time) -> (r: bool)
        requires
            self.wf(),
        ensures
            r == green_at(self.turns@, street_id, at_time as int),
    {
        if self.cycle == 0 {
            return false;
        }
        let time = at_time % self.cycle;
        let mut acc_time: Time = 0;
        let mut idx: usize = 0;
        while idx < self.turns.len()
            invariant
                self.wf(),
                self.cycle > 0,
                time == at_time as int % self.cycle as int,
                0 <= idx <= self.turns@.len(),
                acc_time == prefix_time(self.turns@, idx as int),
                acc_time <= time,
                slot_at(self.turns@, time as int) == find_slot(self.turns@, time as int, idx as int),
            decreases self.turns@.len() - idx,
        {
            proof {
                lemma_prefix_time_monotone(self.turns@, idx as int + 1, self.turns@.len() as int);
            }
            acc_time += self.turns[idx].1;
            if time < acc_time {
                return self.turns[idx].0 == street_id;
            }
            idx += 1;
        }
        proof {
            assert(acc_time == self.cycle);
        }
        false
    }

    pub fn get_street_time(&self, street_id: StreetId) -> (r: Option<Time>)
        requires
            self.wf(),
        ensures
            r == (match index_of(self.turns@, street_id) {
                Some(i) => Some(self.turns@[i].1),
                None => None::<Time>,
            }),
    {
        let mut idx: usize = 0;
        while idx < self.turns.len()
            invariant
                self.wf(),
                0 <= idx <= self.turns@.len(),
                forall|k: int| 0 <= k < idx ==> self.turns@[k].0 != street_id,
            decreases self.turns@.len() - idx,
        {
            if self.turns[idx].0 == street_id {
                proof {
                    assert(index_of(self.turns@, street_id) == Some(idx as int));
                }
                return Some(self.turns[idx].1);
            }
            idx += 1;
        }
        None
    }
}

pub proof fn lemma_prefix_time_prefix(a: Seq<(StreetId, Time)>, b: Seq<(StreetId, Time)>, n: int)
    requires
        0 <= n <= a.len(),
        n <= b.len(),
        forall|i: int| 0 <= i < n ==> a[i] == b[i],
    ensures
        prefix_time(a, n) == prefix_time(b, n),
    decreases n,
{
    if n > 0 {
        lemma_prefix_time_prefix(a, b, n - 1);
    }
}

proof fn lemma_prefix_time_le_cycle_item(turns: Seq<(StreetId, Time)>, i: int)
    requires
        0 <= i < turns.len(),
    ensures
        turns[i].1 <= cycle_of(turns),
{
    lemma_prefix_time_monotone(turns, i, turns.len() as int);
    lemma_prefix_time_monotone(turns, i + 1, turns.len() as int);
    assert(prefix_time(turns, i + 1) == prefix_time(turns, i) + turns[i].1);
    lemma_prefix_time_nonneg(turns, i);
}

pub proof fn lemma_prefix_time_nonneg(turns: Seq<(StreetId, Time)>, j: int)
    ensures
        prefix_time(turns, j) >= 0,
    decreases j,
{
    if j > 0 {
        lemma_prefix_time_nonneg(turns, j - 1);
    }
}

pub proof fn lemma_prefix_time_update(
    turns: Seq<(StreetId, Time)>,
    i: int,
    p: (StreetId, Time),
)
    requires
        0 <= i < turns.len(),
    ensures
        forall|j: int|
            i < j <= turns.len() ==> #[trigger] prefix_time(turns.update(i, p), j) == prefix_time(
                turns,
                j,
            ) - turns[i].1 + p.1,
        forall|j: int| j <= i ==> #[trigger] prefix_time(turns.update(i, p), j) == prefix_time(turns, j),
{
    let u = turns.update(i, p);
    assert forall|j: int| j <= i implies #[trigger] prefix_time(u, j) == prefix_time(turns, j) by {
        if j >= 0 {
            lemma_prefix_time_prefix(turns, u, j);
        }
    }
    assert forall|j: int| i < j <= turns.len() implies #[trigger] prefix_time(u, j) == prefix_time(
        turns,
        j,
    ) - turns[i].1 + p.1 by {
        lemma_prefix_time_update_step(turns, i, p, j);
    }
}

proof fn lemma_prefix_time_update_step(
    turns: Seq<(StreetId, Time)>,
    i: int,
    p: (StreetId, Time),
    j: int,
)
    requires
        0 <= i < j <= turns.len(),
    ensures
        prefix_time(turns.update(i, p), j) == prefix_time(turns, j) - turns[i].1 + p.1,
    decreases j,
{
    let u = turns.update(i, p);
    if j == i + 1 {
        lemma_prefix_time_prefix(turns, u, i);
    } else {
        lemma_prefix_time_update_step(turns, i, p, j - 1);
    }
}

pub proof fn lemma_prefix_time_remove(turns: Seq<(StreetId, Time)>, i: int)
    requires
        0 <= i < turns.len(),
    ensures
        cycle_of(turns.remove(i)) == cycle_of(turns) - turns[i].1,
{
    lemma_prefix_time_remove_step(turns, i, turns.len() as int);
}

proof fn lemma_prefix_time_remove_step(turns: Seq<(StreetId, Time)>, i: int, j: int)
    requires
        0 <= i < j <= turns.len(),
    ensures
        prefix_time(turns.remove(i), j - 1) == prefix_time(turns, j) - turns[i].1,
    decreases j,
{
    let u = turns.remove(i);
    if j == i + 1 {
        lemma_prefix_time_prefix(turns, u, i);
    } else {
        lemma_prefix_time_remove_step(turns, i, j - 1);
        assert(u[j - 2] == turns[j - 1]);
    }
}

pub trait Scheduler {
    fn schedule<'a>(&self, simulation: &'a Simulation) -> (r: Schedule<'a>)
        requires
            simulation.wf(),
        ensures
            r.wf(),
            r.simulation == simulation,
    ;
}

/// A plan of green phases for every scheduled intersection of a city.
pub struct Schedule<'a> {
    pub simulation: &'a Simulation,
    pub intersections: HashMap<IntersectionId, Intersection>,
}

impl<'a> Clone for Schedule<'a> {
    fn clone(&self) -> (r: Self)
        ensures
            r.simulation == self.simulation,
            r.intersections@ == self.intersections@,
    {
        Schedule { simulation: self.simulation, intersections: self.intersections.clone() }
    }
}

impl<'a> Schedule<'a> {
    /// The phases of each scheduled intersection.
    pub open spec fn plan(&self) -> Map<IntersectionId, Seq<(StreetId, Time)>> {
        self.intersections@.map_values(|i: Intersection| i.turns@)
    }

    /// The phases of one intersection; none when it is not scheduled.
    pub open spec fn turns_at(&self, inter_id: IntersectionId) -> Seq<(StreetId, Time)> {
        if self.intersections@.contains_key(inter_id) {
            self.intersections@[inter_id].turns@
        } else {
            Seq::empty()
        }
    }

    /// Whether `street` may let a car through at time `t`.
    pub open spec fn green(&self, inter_id: IntersectionId, street: StreetId, t: int) -> bool {
        self.intersections@.contains_key(inter_id) && green_at(
            self.intersections@[inter_id].turns@,
            street,
            t,
        )
    }

    pub open spec fn wf(&self) -> bool {
        &&& self.simulation.wf()
        &&& forall|k: IntersectionId| #[trigger]
            self.intersections@.contains_key(k) ==> {
                &&& k < self.simulation.num_intersections
                &&& self.intersections@[k].wf()
                &&& forall|i: int|
                    0 <= i < self.intersections@[k].turns@.len()
                        ==> #[trigger] self.intersections@[k].turns@[i].0
                        < self.simulation.streets@.len()
            }
    }

    pub fn new(simulation: &'a Simulation) -> (r: Self)
        requires
            simulation.wf(),
        ensures
            r.wf(),
            r.simulation == simulation,
            r.intersections@ == Map::<IntersectionId, Intersection>::empty(),
    {
        let intersections = HashMap::new();
        Self { simulation, intersections }
    }

    /// Appends a phase for `street_id` to intersection `inter_id`, creating
    /// the intersection if it is not scheduled yet.
    pub fn add_street(&mut self, inter_id: IntersectionId, street_id: StreetId, time: Time)
        requires
            old(self).wf(),
            inter_id < old(self).simulation.num_intersections,
            street_id < old(self).simulation.streets@.len(),
            time >= 1,
            !has_street(old(self).turns_at(inter_id), street_id),
            cycle_of(old(self).turns_at(inter_id)) + time <= u32::MAX,
        ensures
            final(self).wf(),
            final(self).simulation == old(self).simulation,
            final(self).intersections@.dom() == old(self).intersections@.dom().insert(inter_id),
            forall|k: IntersectionId|
                k != inter_id && #[trigger] old(self).intersections@.contains_key(k)
                    ==> final(self).intersections@[k] == old(self).intersections@[k],
            final(self).turns_at(inter_id) == old(self).turns_at(inter_id).push((street_id, time)),
    {
        match self.intersections.remove(&inter_id) {
            Some(mut inter) => {
                inter.add_street(street_id, time);
                self.intersections.insert(inter_id, inter);
            },
            None => {
                self.intersections.insert(inter_id, Intersection::new(street_id, time));
                proof {
                    assert(old(self).turns_at(inter_id) =~= Seq::empty());
                    assert(seq![(street_id, time)] =~= Seq::<(StreetId, Time)>::empty().push(
                        (street_id, time),
                    ));
                }
            },
        }
        proof {
            assert(final(self).intersections@.dom() =~= old(self).intersections@.dom().insert(
                inter_id,
            ));
        }
    }

    /// Lengthens the phase of `street_id` at its intersection by
    /// `add_time`, or appends a phase of that length.
    pub fn add_street_time(&mut self, street_id: StreetId, add_time: Time)
        requires
            old(self).wf(),
            street_id < old(self).simulation.streets@.len(),
            add_time >= 1 || has_street(
                old(self).turns_at(old(self).simulation.street_end(street_id)),
                street_id,
            ),
            cycle_of(old(self).turns_at(old(self).simulation.street_end(street_id))) + add_time
                <= u32::MAX,
        ensures
            final(self).wf(),
            final(self).simulation == old(self).simulation,
            ({
                let k = old(self).simulation.street_end(street_id);
                let t = old(self).turns_at(k);
                &&& final(self).intersections@.dom() == old(self).intersections@.dom().insert(k)
                &&& forall|j: IntersectionId|
                    j != k && #[trigger] old(self).intersections@.contains_key(j)
                        ==> final(self).intersections@[j] == old(self).intersections@[j]
                &&& final(self).turns_at(k) == match index_of(t, street_id) {
                    Some(i) => t.update(i, (street_id, (t[i].1 + add_time) as Time)),
                    None => t.push((street_id, add_time)),
                }
            }),
    {
        let inter_id = self.simulation.streets[street_id].end_intersection;
        match self.intersections.remove(&inter_id) {
            Some(mut inter) => {
                inter.add_street_time(street_id, add_time);
                self.intersections.insert(inter_id, inter);
            },
            None => {
                self.intersections.insert(inter_id, Intersection::new(street_id, add_time));
                proof {
                    assert(old(self).turns_at(inter_id) =~= Seq::empty());
                    assert(seq![(street_id, add_time)] =~= Seq::<(StreetId, Time)>::empty().push(
                        (street_id, add_time),
                    ));
                }
            },
        }
        proof {
            assert(final(self).intersections@.dom() =~= old(self).intersections@.dom().insert(
                inter_id,
            ));
            let t = final(self).intersections@[inter_id].turns@;
            assert forall|i: int| 0 <= i < t.len() implies #[trigger] t[i].0
                < self.simulation.streets@.len() by {
                let o = old(self).turns_at(inter_id);
                if i < o.len() {
                    assert(t[i].0 == o[i].0);
                }
            }
        }
    }

    /// Shortens the phase of `street_id` at its intersection by `sub_time`,
    /// and drops the phase when it is not longer than that.
    pub fn sub_street_time(&mut self, street_id: StreetId, sub_time: Time)
        requires
            old(self).wf(),
            street_id < old(self).simulation.streets@.len(),
            has_street(old(self).turns_at(old(self).simulation.street_end(street_id)), street_id),
        ensures
            final(self).wf(),
            final(self).simulation == old(self).simulation,
            ({
                let k = old(self).simulation.street_end(street_id);
                let t = old(self).turns_at(k);
                let i = index_of(t, street_id)->Some_0;
                &&& final(self).intersections@.dom() == old(self).intersections@.dom()
                &&& forall|j: IntersectionId|
                    j != k && #[trigger] old(self).intersections@.contains_key(j)
                        ==> final(self).intersections@[j] == old(self).intersections@[j]
                &&& final(self).turns_at(k) == if t[i].1 > sub_time {
                    t.update(i, (street_id, (t[i].1 - sub_time) as Time))
                } else {
                    t.remove(i)
                }
            }),
    {
        let inter_id = self.simulation.streets[street_id].end_intersection;
        let ghost k = inter_id;
        match self.intersections.remove(&inter_id) {
            Some(mut inter) => {
                inter.sub_street_time(street_id, sub_time);
                self.intersections.insert(inter_id, inter);
            },
            None => {
                proof {
                    assert(old(self).turns_at(k) =~= Seq::empty());
                }
            },
        }
        proof {
            assert(final(self).intersections@.dom() =~= old(self).intersections@.dom());
            let t = final(self).intersections@[inter_id].turns@;
            let o = old(self).turns_at(inter_id);
            let i0 = index_of(o, street_id)->Some_0;
            assert forall|i: int| 0 <= i < t.len() implies #[trigger] t[i].0
                < self.simulation.streets@.len() by {
                if o[i0].1 > sub_time {
                    assert(t[i].0 == o[i].0);
                } else {
                    let oi = if i < i0 { i } else { i + 1 };
                    assert(t[i] == o[oi]);
                }
            }
        }
    }

    /// Puts the phases of the intersection that `street_id` ends at in a
    /// random order.
    pub fn shuffle_intersection(&mut self, street_id: StreetId)
        requires
            old(self).wf(),
            street_id < old(self).simulation.streets@.len(),
        ensures
            final(self).wf(),
            final(self).simulation == old(self).simulation,
            final(self).intersections@.dom() == old(self).intersections@.dom(),
            forall|k: IntersectionId|
                k != old(self).simulation.street_end(street_id) && #[trigger] old(
                    self,
                ).intersections@.contains_key(k) ==> final(self).intersections@[k] == old(
                    self,
                ).intersections@[k],
            final(self).turns_at(old(self).simulation.street_end(street_id)).to_multiset() == old(
                self,
            ).turns_at(old(self).simulation.street_end(street_id)).to_multiset(),
    {
        let inter_id = self.simulation.streets[street_id].end_intersection;
        self.shuffle_intersection_at(inter_id);
    }

    /// Puts the phases of intersection `inter_id` in a random order.
    pub fn shuffle_intersection_at(&mut self, inter_id: IntersectionId)
        requires
            old(self).wf(),
        ensures
            final(self).wf(),
            final(self).simulation == old(self).simulation,
            final(self).intersections@.dom() == old(self).intersections@.dom(),
            forall|k: IntersectionId|
                k != inter_id && #[trigger] old(self).intersections@.contains_key(k)
                    ==> final(self).intersections@[k] == old(self).intersections@[k],
            final(self).turns_at(inter_id).to_multiset() == old(self).turns_at(inter_id).to_multiset(),
    {
        match self.intersections.remove(&inter_id) {
            Some(mut inter) => {
                inter.shuffle();
                self.intersections.insert(inter_id, inter);
                proof {
                    broadcast use vstd::seq_lib::group_to_multiset_ensures;

                    let b = self.intersections@[inter_id].turns@;
                    let a = old(self).intersections@[inter_id].turns@;
                    assert forall|i: int| 0 <= i < b.len() implies #[trigger] b[i].0
                        < self.simulation.streets@.len() by {
                        assert(b.contains(b[i]));
                        assert(b.to_multiset().count(b[i]) > 0);
                        assert(a.contains(b[i]));
                    }
                }
            },
            None => {},
        }
        proof {
            assert(self.intersections@.dom() =~= old(self).intersections@.dom());
        }
    }

    /// The green time of `street_id` at the intersection it ends at.
    pub fn get_street_time(&self, street_id: StreetId) -> (r: Option<Time>)
        requires
            self.wf(),
            street_id < self.simulation.streets@.len(),
        ensures
            ({
                let t = self.turns_at(self.simulation.street_end(street_id));
                r == match index_of(t, street_id) {
                    Some(i) => Some(t[i].1),
                    None => None::<Time>,
                }
            }),
    {
        let inter_id = self.simulation.streets[street_id].end_intersection;
        match self.intersections.get(&inter_id) {
            Some(inter) => inter.get_street_time(street_id),
            None => {
                proof {
                    assert(self.turns_at(inter_id) =~= Seq::<(StreetId, Time)>::empty());
                }
                None
            },
        }
    }

    /// The cycle of intersection `inter_id`, 0 when it is not scheduled.
    pub fn cycle_at(&self, inter_id: IntersectionId) -> (r: Time)
        requires
            self.wf(),
        ensures
            r == cycle_of(self.turns_at(inter_id)),
    {
        match self.intersections.get(&inter_id) {
            Some(inter) => inter.cycle(),
            None => 0,
        }
    }

    /// Number of phases at the intersection that `street_id` ends at.
    pub fn num_streets_in_intersection(&self, street_id: StreetId) -> (r: usize)
        requires
            self.wf(),
            street_id < self.simulation.streets@.len(),
            self.intersections@.contains_key(self.simulation.street_end(street_id)),
        ensures
            r == self.turns_at(self.simulation.street_end(street_id)).len(),
    {
        let inter_id = self.simulation.streets[street_id].end_intersection;
        match self.intersections.get(&inter_id) {
            Some(inter) => inter.turns.len(),
            None => 0,
        }
    }

    pub fn is_green(&self, inter_id: IntersectionId, street_id: StreetId, at_time: Time) -> (r:
        bool)
        requires
            self.wf(),
        ensures
            r == self.green(inter_id, street_id, at_time as int),
    {
        match self.intersections.get(&inter_id) {
            Some(inter) => inter.is_green(street_id, at_time),
            None => false,
        }
    }

    /// Whether `street_id` is the only street of its intersection.
    pub fn is_street_always_green(&self, street_id: StreetId) -> (r: bool)
        requires
            self.wf(),
            street_id < self.simulation.streets@.len(),
        ensures
            r == ({
                let t = self.turns_at(self.simulation.street_end(street_id));
                t.len() == 1 && t[0].0 == street_id
            }),
    {
        let inter_id = self.simulation.streets[street_id].end_intersection;
        match self.intersections.get(&inter_id) {
            Some(inter) => inter.turns.len() == 1 && inter.turns[0].0 == street_id,
            None => {
                proof {
                    assert(self.turns_at(inter_id) =~= Seq::<(StreetId, Time)>::empty());
                }
                false
            },
        }
    }

    pub fn get_intersection_id(&self, street_id: StreetId) -> (r: Option<IntersectionId>)
        ensures
            r == if street_id < self.simulation.streets@.len() {
                Some(self.simulation.street_end(street_id))
            } else {
                None::<IntersectionId>
            },
    {
        if street_id < self.simulation.streets.len() {
            Some(self.simulation.streets[street_id].end_intersection)
        } else {
            None
        }
    }

    pub fn reset_intersection(&mut self, inter_id: IntersectionId)
        requires
            old(self).wf(),
        ensures
            final(self).wf(),
            final(self).simulation == old(self).simulation,
            final(self).intersections@ == old(self).intersections@.remove(inter_id),
    {
        self.intersections.remove(&inter_id);
    }
}

/// What a full simulation of a schedule measured.
pub struct ScheduleStats {
    pub num_intersections: usize,
    pub num_streets: usize,
    pub num_arrived_cars: usize,
    pub earliest_arrival: Time,
    pub latest_arrival: Time,
    pub crossed_streets: HashSet<StreetId>,
    pub total_wait_time: HashMap<StreetId, Time>,
    pub score: Score,
}

#[derive(PartialEq, Eq, Structural, Clone, Copy, Debug)]
pub enum CarState {
    Ready,
    Waiting,
    Arrived,
}

/// A car on its journey.
pub struct Car {
    /// Remaining path in reverse order (last element is current street)
    pub remain_path: Vec<StreetId>,
    /// Remaining time in current street
    pub remain_time: Time,
    pub state: CarState,
}

impl Car {
    pub fn new(full_path: &[StreetId]) -> (r: Self)
        ensures
            r.remain_path@ == full_path@.reverse(),
            r.remain_time == 0,
            r.state == CarState::Waiting,
    {
        let mut remain_path: Vec<StreetId> = Vec::with_capacity(full_path.len());
        let mut i: usize = full_path.len();
        while i > 0
            invariant
                0 <= i <= full_path@.len(),
                remain_path@ == full_path@.subrange(i as int, full_path@.len() as int).reverse(),
            decreases i,
        {
            i -= 1;
            remain_path.push(full_path[i]);
            proof {
                assert(full_path@.subrange(i as int, full_path@.len() as int).reverse() =~= full_path@.subrange(
                    i as int + 1,
                    full_path@.len() as int,
                ).reverse().push(full_path@[i as int]));
            }
        }
        proof {
            assert(full_path@.subrange(0, full_path@.len() as int) =~= full_path@);
        }
        Self { remain_path, remain_time: 0, state: CarState::Waiting }
    }

    /// Takes the first street off the path: the car waits at its end.
    pub fn start(&mut self) -> (r: StreetId)
        requires
            old(self).remain_path@.len() > 0,
        ensures
            r == old(self).remain_path@.last(),
            final(self).remain_path@ == old(self).remain_path@.drop_last(),
            final(self).remain_time == old(self).remain_time,
            final(self).state == old(self).state,
    {
        match self.remain_path.pop() {
            Some(s) => s,
            None => 0,
        }
    }

    /// The car goes through the light and sets off down its next street.
    pub fn cross_intersection(&mut self, simul: &Simulation)
        requires
            old(self).remain_path@.len() > 0,
            old(self).remain_path@.last() < simul.streets@.len(),
        ensures
            final(self).remain_path@ == old(self).remain_path@,
            final(self).remain_time == simul.streets@[old(self).remain_path@.last() as int].travel_time,
            final(self).state == CarState::Ready,
    {
        let street_id = self.remain_path[self.remain_path.len() - 1];
        self.remain_time = simul.streets[street_id].travel_time;
        self.state = CarState::Ready;
    }

    /// One second down the current street; at its end the car either has
    /// arrived or queues at the light, and the street is returned.
    pub fn move_forward(&mut self) -> (r: Option<StreetId>)
        requires
            old(self).remain_time >= 1,
            old(self).remain_path@.len() > 0,
        ensures
            final(self).remain_time == old(self).remain_time - 1,
            old(self).remain_time > 1 ==> {
                &&& r.is_none()
                &&& final(self).remain_path@ == old(self).remain_path@
                &&& final(self).state == old(self).state
            },
            old(self).remain_time == 1 ==> {
                &&& final(self).remain_path@ == old(self).remain_path@.drop_last()
                &&& if old(self).remain_path@.len() == 1 {
                    r.is_none() && final(self).state == CarState::Arrived
                } else {
                    r == Some(old(self).remain_path@.last()) && final(self).state
                        == CarState::Waiting
                }
            },
    {
        // Move forward on the current street
        self.remain_time -= 1;

        if self.remain_time == 0 {
            let street_id = match self.remain_path.pop() {
                Some(s) => s,
                None => 0,
            };
            if self.remain_path.len() == 0 {
                // Reached the end of its journey
                self.state = CarState::Arrived;
            } else {
                // Join traffic light queue
                self.state = CarState::Waiting;
                return Some(street_id);
            }
        }
        None
    }
}

} // verus!
