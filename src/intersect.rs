use crate::perm::{
    isum, lemma_isum_concat, lemma_isum_perm, lemma_isum_update, lemma_msum_count,
    lemma_msum_perm, lemma_msum_remove, lemma_msum_singleton_len,
    lemma_msum_update, lemma_perm_window, msum,
};
use crate::sched::{
    distinct_streets, lemma_perm_distinct, lemma_perm_phases, streets_of, times_of, lemma_prefix_time_prefix, prefix_time,
    Intersection, Schedule,
};
use crate::simulate::{score_of, traffic_wf, Traffic};
use crate::sums::{subset_sums, AllSums};
use crate::{copy_vec, CarId, IntersectionId, Score, StreetId, Time};
use std::collections::VecDeque;
use vstd::multiset::Multiset;
use vstd::prelude::*;

verus! {

broadcast use {vstd::std_specs::hash::group_hash_axioms, vstd::seq_lib::group_to_multiset_ensures};

/// A phase of an intersection under construction: the street it is given
/// to, once decided, and its length.
pub type Slot = (Option<StreetId>, Time);

pub open spec fn free_fn() -> spec_fn(Slot) -> Multiset<Time> {
    |p: Slot|
        if p.0 is None {
            Multiset::singleton(p.1)
        } else {
            Multiset::empty()
        }
}

pub open spec fn committed_fn() -> spec_fn(Slot) -> Multiset<(StreetId, Time)> {
    |p: Slot|
        match p.0 {
            Some(s) => Multiset::singleton((s, p.1)),
            None => Multiset::empty(),
        }
}

pub open spec fn time_fn() -> spec_fn((StreetId, Time)) -> Multiset<Time> {
    |p: (StreetId, Time)| Multiset::singleton(p.1)
}

pub open spec fn slot_time_fn() -> spec_fn(Slot) -> int {
    |p: Slot| p.1 as int
}

/// Total length of the slots `s[a..b]`.
pub open spec fn wsum(s: Seq<Slot>, a: int, b: int) -> int {
    isum(s.subrange(a, b), slot_time_fn())
}

/// Slot `k` of `slots` is lit at offset `m` into the cycle.
pub open spec fn lit_slot(slots: Seq<Slot>, k: int, m: int) -> bool {
    &&& 0 <= k < slots.len()
    &&& wsum(slots, 0, k) <= m < wsum(slots, 0, k + 1)
}

/// Slot `k` of `slots` is a free slot of length `len` lit at offset `lit`.
pub open spec fn free_lit(slots: Seq<Slot>, k: int, len: Time, lit: int) -> bool {
    &&& lit_slot(slots, k, lit)
    &&& slots[k] == (None::<StreetId>, len)
}

proof fn lemma_isum_same_times(a: Seq<Slot>, b: Seq<Slot>)
    requires
        a.len() == b.len(),
        forall|i: int| 0 <= i < a.len() ==> #[trigger] a[i].1 == b[i].1,
    ensures
        isum(a, slot_time_fn()) == isum(b, slot_time_fn()),
    decreases a.len(),
{
    if a.len() > 0 {
        lemma_isum_same_times(a.drop_last(), b.drop_last());
    }
}

/// Sums of slot lengths depend on the lengths alone.
proof fn lemma_wsum_same_times(a: Seq<Slot>, b: Seq<Slot>, x: int, y: int)
    requires
        a.len() == b.len(),
        forall|i: int| 0 <= i < a.len() ==> #[trigger] a[i].1 == b[i].1,
        0 <= x <= y <= a.len(),
    ensures
        wsum(a, x, y) == wsum(b, x, y),
{
    let sa = a.subrange(x, y);
    let sb = b.subrange(x, y);
    assert forall|i: int| 0 <= i < sa.len() implies #[trigger] sa[i].1 == sb[i].1 by {
        assert(sa[i] == a[x + i]);
        assert(sb[i] == b[x + i]);
    }
    lemma_isum_same_times(sa, sb);
}

/// Every committed slot of `a` stands in `b` with the same street and
/// length, and starts at the same time of the cycle.
pub open spec fn keeps_committed(a: Seq<Slot>, b: Seq<Slot>) -> bool {
    forall|j: int|
        0 <= j < a.len() && (#[trigger] a[j]).0 is Some ==> exists|j2: int|
            0 <= j2 < b.len() && b[j2] == a[j] && wsum(b, 0, j2) == wsum(a, 0, j)
}

proof fn lemma_keeps_refl(a: Seq<Slot>)
    ensures
        keeps_committed(a, a),
{
    assert forall|j: int| 0 <= j < a.len() && (#[trigger] a[j]).0 is Some implies exists|j2: int|
        0 <= j2 < a.len() && a[j2] == a[j] && wsum(a, 0, j2) == wsum(a, 0, j) by {
        assert(a[j] == a[j]);
    }
}

proof fn lemma_keeps_trans(a: Seq<Slot>, b: Seq<Slot>, c: Seq<Slot>)
    requires
        keeps_committed(a, b),
        keeps_committed(b, c),
    ensures
        keeps_committed(a, c),
{
    assert forall|j: int| 0 <= j < a.len() && (#[trigger] a[j]).0 is Some implies exists|j3: int|
        0 <= j3 < c.len() && c[j3] == a[j] && wsum(c, 0, j3) == wsum(a, 0, j) by {
        let j2 = choose|j2: int| 0 <= j2 < b.len() && b[j2] == a[j] && wsum(b, 0, j2) == wsum(a, 0, j);
        assert(b[j2].0 is Some);
        let j3 = choose|j3: int| 0 <= j3 < c.len() && c[j3] == b[j2] && wsum(c, 0, j3) == wsum(b, 0, j2);
    }
}

/// Rearranging a window of free slots keeps the committed slots.
proof fn lemma_keeps_window(a: Seq<Slot>, b: Seq<Slot>, lo: int, hi: int)
    requires
        0 <= lo <= hi <= a.len(),
        a.len() == b.len(),
        forall|x: int| 0 <= x < a.len() && !(lo <= x < hi) ==> #[trigger] b[x] == a[x],
        forall|x: int| lo <= x < hi ==> (#[trigger] a[x]).0 is None,
        a.subrange(lo, hi).to_multiset() == b.subrange(lo, hi).to_multiset(),
    ensures
        keeps_committed(a, b),
{
    assert forall|j: int| 0 <= j < a.len() && (#[trigger] a[j]).0 is Some implies exists|j2: int|
        0 <= j2 < b.len() && b[j2] == a[j] && wsum(b, 0, j2) == wsum(a, 0, j) by {
        assert(b[j] == a[j]);
        if j < lo {
            assert(a.subrange(0, j) =~= b.subrange(0, j));
        } else {
            lemma_wsum_split(a, 0, lo, j);
            lemma_wsum_split(b, 0, lo, j);
            lemma_wsum_split(a, lo, hi, j);
            lemma_wsum_split(b, lo, hi, j);
            assert(a.subrange(0, lo) =~= b.subrange(0, lo));
            assert(a.subrange(hi, j) =~= b.subrange(hi, j));
            lemma_isum_perm(a.subrange(lo, hi), b.subrange(lo, hi), slot_time_fn());
        }
    }
}

/// Swapping two windows of free slots of the same total length keeps the
/// committed slots: those between them move along, at the same start time.
proof fn lemma_keeps_rotate(a: Seq<Slot>, b: Seq<Slot>, ls: int, le: int, rs: int, re: int)
    requires
        0 <= ls <= le < rs <= re < a.len(),
        a.len() == b.len(),
        b.subrange(ls, re + 1) == a.subrange(rs, re + 1) + a.subrange(le + 1, rs) + a.subrange(
            ls,
            le + 1,
        ),
        forall|x: int| 0 <= x < a.len() && !(ls <= x <= re) ==> #[trigger] b[x] == a[x],
        forall|x: int| ls <= x <= le ==> (#[trigger] a[x]).0 is None,
        forall|x: int| rs <= x <= re ==> (#[trigger] a[x]).0 is None,
        wsum(a, ls, le + 1) == wsum(a, rs, re + 1),
    ensures
        keeps_committed(a, b),
{
    let l = a.subrange(ls, le + 1);
    let m = a.subrange(le + 1, rs);
    let r = a.subrange(rs, re + 1);
    lemma_isum_concat(r, m, slot_time_fn());
    lemma_isum_concat(r + m, l, slot_time_fn());
    lemma_wsum_split(a, ls, le + 1, re + 1);
    lemma_wsum_split(a, le + 1, rs, re + 1);
    assert(wsum(b, ls, re + 1) == wsum(a, ls, re + 1));
    assert forall|j: int| 0 <= j < a.len() && (#[trigger] a[j]).0 is Some implies exists|j2: int|
        0 <= j2 < b.len() && b[j2] == a[j] && wsum(b, 0, j2) == wsum(a, 0, j) by {
        if j < ls {
            assert(b[j] == a[j]);
            assert(a.subrange(0, j) =~= b.subrange(0, j));
        } else if j > re {
            assert(b[j] == a[j]);
            lemma_wsum_split(a, 0, ls, j);
            lemma_wsum_split(b, 0, ls, j);
            lemma_wsum_split(a, ls, re + 1, j);
            lemma_wsum_split(b, ls, re + 1, j);
            assert(a.subrange(0, ls) =~= b.subrange(0, ls));
            assert(a.subrange(re + 1, j) =~= b.subrange(re + 1, j));
        } else {
            assert(le < j < rs);
            let j2 = ls + (re + 1 - rs) + (j - (le + 1));
            let bs = b.subrange(ls, re + 1);
            assert(bs[j2 - ls] == b[j2]);
            assert(bs[j2 - ls] == (r + m + l)[j2 - ls]);
            assert(b[j2] == a[j]);
            assert(b.subrange(ls, j2) =~= r + a.subrange(le + 1, j));
            lemma_isum_concat(r, a.subrange(le + 1, j), slot_time_fn());
            lemma_wsum_split(b, 0, ls, j2);
            lemma_wsum_split(a, 0, ls, j);
            lemma_wsum_split(a, ls, le + 1, j);
            assert(a.subrange(0, ls) =~= b.subrange(0, ls));
        }
    }
}

/// A rearrangement of free slots holds only free slots, as long in all.
proof fn lemma_free_perm(a: Seq<Slot>, b: Seq<Slot>)
    requires
        a.to_multiset() == b.to_multiset(),
        forall|x: int| 0 <= x < a.len() ==> (#[trigger] a[x]).0 is None,
    ensures
        forall|x: int| 0 <= x < b.len() ==> (#[trigger] b[x]).0 is None,
        isum(a, slot_time_fn()) == isum(b, slot_time_fn()),
{
    assert forall|x: int| 0 <= x < b.len() implies (#[trigger] b[x]).0 is None by {
        assert(b.contains(b[x]));
        assert(b.to_multiset().count(b[x]) > 0);
        assert(a.contains(b[x]));
    }
    lemma_isum_perm(a, b, slot_time_fn());
}

/// First slot of the run of free slots that holds slot `i`.
pub open spec fn run_lo(s: Seq<Slot>, i: int) -> int
    decreases i,
{
    if i <= 0 || s[i - 1].0 is Some {
        i
    } else {
        run_lo(s, i - 1)
    }
}

/// Last slot of the run of free slots that holds slot `i`.
pub open spec fn run_hi(s: Seq<Slot>, i: int) -> int
    decreases s.len() - i,
{
    if i + 1 >= s.len() || s[i + 1].0 is Some {
        i
    } else {
        run_hi(s, i + 1)
    }
}

/// The lengths of the slots `s`.
pub open spec fn times_seq(s: Seq<Slot>) -> Seq<Time> {
    s.map_values(|p: Slot| p.1)
}

/// The free run `s[lo..=hi]` can be reordered to put a slot of `len` over
/// offset `lit`: it holds a slot of that length, and some of its other slots
/// add up to a start that the slot then covers `lit` from.
pub open spec fn fits(s: Seq<Slot>, lo: int, hi: int, len: Time, lit: int) -> bool {
    exists|k: int|
        lo <= k <= hi && s[k].1 == len && exists|x: int|
            #[trigger] subset_sums(times_seq(s.subrange(lo, hi + 1)).remove(k - lo)).contains(x)
                && lit - len < wsum(s, 0, lo) + x <= lit
}

proof fn lemma_run_bounds(s: Seq<Slot>, i: int)
    requires
        0 <= i < s.len(),
    ensures
        0 <= run_lo(s, i) <= i,
        i <= run_hi(s, i) < s.len(),
    decreases s.len() + i,
{
    if i > 0 && s[i - 1].0 is None {
        lemma_run_lo_le(s, i - 1);
    }
    if i + 1 < s.len() && s[i + 1].0 is None {
        lemma_run_hi_ge(s, i + 1);
    }
}

proof fn lemma_run_lo_le(s: Seq<Slot>, i: int)
    requires
        0 <= i < s.len(),
    ensures
        0 <= run_lo(s, i) <= i,
    decreases i,
{
    if i > 0 && s[i - 1].0 is None {
        lemma_run_lo_le(s, i - 1);
    }
}

proof fn lemma_run_hi_ge(s: Seq<Slot>, i: int)
    requires
        0 <= i < s.len(),
    ensures
        i <= run_hi(s, i) < s.len(),
    decreases s.len() - i,
{
    if i + 1 < s.len() && s[i + 1].0 is None {
        lemma_run_hi_ge(s, i + 1);
    }
}

proof fn lemma_run_lo(s: Seq<Slot>, a: int, i: int)
    requires
        0 <= a <= i < s.len(),
        forall|x: int| a <= x <= i ==> (#[trigger] s[x]).0 is None,
    ensures
        run_lo(s, i) <= a,
        a == 0 || s[a - 1].0 is Some ==> run_lo(s, i) == a,
    decreases i - a,
{
    lemma_run_lo_le(s, i);
    if i > a {
        lemma_run_lo(s, a, i - 1);
    }
}

proof fn lemma_run_hi(s: Seq<Slot>, i: int, b: int)
    requires
        0 <= i <= b < s.len(),
        forall|x: int| i <= x <= b ==> (#[trigger] s[x]).0 is None,
    ensures
        run_hi(s, i) >= b,
        b + 1 == s.len() || s[b + 1].0 is Some ==> run_hi(s, i) == b,
    decreases b - i,
{
    lemma_run_hi_ge(s, i);
    if i < b {
        lemma_run_hi(s, i + 1, b);
    }
}

/// Slots laid out with the lengths `w` add up to the sum of `w`.
proof fn lemma_wsum_values(t: Seq<Slot>, lo: int, w: Seq<Time>)
    requires
        0 <= lo,
        lo + w.len() <= t.len(),
        forall|i: int| 0 <= i < w.len() ==> #[trigger] t[lo + i].1 == w[i],
    ensures
        wsum(t, lo, lo + w.len()) == crate::sums::seq_sum(w),
    decreases w.len(),
{
    if w.len() > 0 {
        let n = w.len() as int;
        assert forall|i: int| 0 <= i < w.drop_last().len() implies #[trigger] t[lo + i].1
            == w.drop_last()[i] by {
            assert(t[lo + i].1 == w[i]);
        }
        lemma_wsum_values(t, lo, w.drop_last());
        lemma_wsum_split(t, lo, lo + n - 1, lo + n);
        lemma_wsum_one(t, lo + n - 1);
        assert(t[lo + n - 1].1 == w[n - 1]);
    }
}

/// At most one slot is lit at a time.
proof fn lemma_lit_unique(s: Seq<Slot>, j1: int, j2: int, m: int)
    requires
        lit_slot(s, j1, m),
        lit_slot(s, j2, m),
    ensures
        j1 == j2,
{
    if j1 < j2 {
        lemma_wsum_split(s, 0, j1 + 1, j2);
    } else if j2 < j1 {
        lemma_wsum_split(s, 0, j2 + 1, j1);
    }
}

proof fn lemma_isum_nonneg(s: Seq<Slot>)
    ensures
        isum(s, slot_time_fn()) >= 0,
    decreases s.len(),
{
    if s.len() > 0 {
        lemma_isum_nonneg(s.drop_last());
    }
}

/// `wsum` splits at any point, and a window is never longer than the whole.
proof fn lemma_wsum_split(s: Seq<Slot>, a: int, b: int, c: int)
    requires
        0 <= a <= b <= c <= s.len(),
    ensures
        wsum(s, a, c) == wsum(s, a, b) + wsum(s, b, c),
        wsum(s, a, b) >= 0,
        wsum(s, b, c) >= 0,
        wsum(s, a, c) <= wsum(s, 0, s.len() as int),
{
    assert(s.subrange(a, c) =~= s.subrange(a, b) + s.subrange(b, c));
    lemma_isum_concat(s.subrange(a, b), s.subrange(b, c), slot_time_fn());
    lemma_isum_nonneg(s.subrange(a, b));
    lemma_isum_nonneg(s.subrange(b, c));
    assert(s.subrange(0, s.len() as int) =~= s.subrange(0, a) + s.subrange(a, c) + s.subrange(
        c,
        s.len() as int,
    ));
    lemma_isum_concat(s.subrange(0, a), s.subrange(a, c), slot_time_fn());
    lemma_isum_concat(s.subrange(0, a) + s.subrange(a, c), s.subrange(c, s.len() as int), slot_time_fn());
    lemma_isum_nonneg(s.subrange(0, a));
    lemma_isum_nonneg(s.subrange(c, s.len() as int));
}

proof fn lemma_wsum_one(s: Seq<Slot>, a: int)
    requires
        0 <= a < s.len(),
    ensures
        wsum(s, a, a + 1) == s[a].1,
{
    let one = s.subrange(a, a + 1);
    assert(one.drop_last() =~= Seq::<Slot>::empty());
    assert(one.last() == s[a]);
    assert(isum(one, slot_time_fn()) == isum(one.drop_last(), slot_time_fn()) + (slot_time_fn())(
        one.last(),
    ));
}

/// An intersection whose phases keep their lengths while the streets are
/// given to them one by one.
struct OpenIntersection {
    /// Streets not given a slot yet, with their green times.
    streets: Vec<(StreetId, Time)>,
    slots: Vec<Slot>,
    cycle: Time,
    /// The phases the intersection had before.
    orig: Ghost<Seq<(StreetId, Time)>>,
}

impl OpenIntersection {
    /// Free slots are as long as the streets left; given slots and streets
    /// left are the phases the intersection started with.
    spec fn wf(&self) -> bool {
        &&& msum(self.slots@, free_fn()) == msum(self.streets@, time_fn())
        &&& msum(self.slots@, committed_fn()).add(self.streets@.to_multiset())
            == self.orig@.to_multiset()
        &&& self.cycle == isum(self.slots@, slot_time_fn())
        &&& forall|r: int| 0 <= r < self.streets@.len() ==> #[trigger] self.streets@[r].1 >= 1
        &&& distinct_streets(self.streets@)
        &&& forall|j: int, i: int|
            0 <= j < self.slots@.len() && 0 <= i < self.streets@.len() && #[trigger] self.slots@[j].0
                == Some(#[trigger] self.streets@[i].0) ==> false
    }

    /// Rearranging the slots keeps what `wf` asks.
    proof fn lemma_perm_keeps_wf(&self, old_slots: Seq<Slot>)
        requires
            msum(old_slots, free_fn()) == msum(self.streets@, time_fn()),
            msum(old_slots, committed_fn()).add(self.streets@.to_multiset())
                == self.orig@.to_multiset(),
            self.cycle == isum(old_slots, slot_time_fn()),
            forall|r: int| 0 <= r < self.streets@.len() ==> #[trigger] self.streets@[r].1 >= 1,
            distinct_streets(self.streets@),
            forall|j: int, i: int|
                0 <= j < old_slots.len() && 0 <= i < self.streets@.len() && #[trigger] old_slots[j].0
                    == Some(#[trigger] self.streets@[i].0) ==> false,
            old_slots.to_multiset() == self.slots@.to_multiset(),
        ensures
            self.wf(),
    {
        lemma_msum_perm(old_slots, self.slots@, free_fn());
        lemma_msum_perm(old_slots, self.slots@, committed_fn());
        lemma_isum_perm(old_slots, self.slots@, slot_time_fn());
        assert forall|j: int, i: int|
            0 <= j < self.slots@.len() && 0 <= i < self.streets@.len() && #[trigger] self.slots@[j].0
                == Some(#[trigger] self.streets@[i].0) implies false by {
            let x = self.slots@[j];
            assert(self.slots@.contains(x));
            assert(self.slots@.to_multiset().count(x) > 0);
            assert(old_slots.contains(x));
            let w = choose|w: int| 0 <= w < old_slots.len() && old_slots[w] == x;
            assert(old_slots[w].0 == Some(self.streets@[i].0));
        }
    }

    fn from(schedule: &Schedule, intersection_id: IntersectionId) -> (r: Self)
        requires
            schedule.wf(),
            schedule.intersections@.contains_key(intersection_id),
        ensures
            r.wf(),
            r.orig@ == schedule.intersections@[intersection_id].turns@,
            r.slots@.len() == r.orig@.len(),
    {
        let inter = match schedule.intersections.get(&intersection_id) {
            Some(i) => i,
            None => {
                proof {
                    assert(false);
                }
                return OpenIntersection {
                    streets: Vec::new(),
                    slots: Vec::new(),
                    cycle: 0,
                    orig: Ghost(Seq::empty()),
                };
            },
        };
        let turns = &inter.turns;
        let ghost t = turns@;
        let streets = copy_vec(turns);
        let mut slots: Vec<Slot> = Vec::with_capacity(turns.len());
        let mut i: usize = 0;
        while i < turns.len()
            invariant
                t == turns@,
                0 <= i <= t.len(),
                slots@.len() == i,
                forall|k: int| 0 <= k < i ==> slots@[k] == (None::<StreetId>, t[k].1),
                msum(slots@, free_fn()) == msum(t.subrange(0, i as int), time_fn()),
                msum(slots@, committed_fn()) == Multiset::<(StreetId, Time)>::empty(),
                isum(slots@, slot_time_fn()) == prefix_time(t, i as int),
            decreases t.len() - i,
        {
            let ghost before = slots@;
            slots.push((None, turns[i].1));
            proof {
                assert(slots@.drop_last() =~= before);
                assert(t.subrange(0, i as int + 1).drop_last() =~= t.subrange(0, i as int));
                assert(msum(slots@, committed_fn()) =~= Multiset::<(StreetId, Time)>::empty());
            }
            i += 1;
        }
        proof {
            assert(t.subrange(0, t.len() as int) =~= t);
            assert(msum(slots@, committed_fn()).add(streets@.to_multiset()) =~= t.to_multiset());
            assert(inter.wf());
        }
        OpenIntersection { streets, slots, cycle: inter.cycle, orig: Ghost(t) }
    }

    /// Gives free slot `j` to the street left at index `r`, which is as long.
    fn commit(&mut self, j: usize, r: usize)
        requires
            old(self).wf(),
            j < old(self).slots@.len(),
            r < old(self).streets@.len(),
            old(self).slots@[j as int].0 is None,
            old(self).slots@[j as int].1 == old(self).streets@[r as int].1,
        ensures
            final(self).wf(),
            final(self).orig == old(self).orig,
            final(self).cycle == old(self).cycle,
            keeps_committed(old(self).slots@, final(self).slots@),
            final(self).slots@ == old(self).slots@.update(
                j as int,
                (Some(old(self).streets@[r as int].0), old(self).slots@[j as int].1),
            ),
            final(self).streets@ == old(self).streets@.remove(r as int),
    {
        let ghost os = self.slots@;
        let ghost ost = self.streets@;
        let street = self.streets[r];
        let time = self.slots[j].1;
        self.slots.set(j, (Some(street.0), time));
        self.streets.remove(r);
        proof {
            let v: Slot = (Some(street.0), time);
            lemma_msum_update(os, j as int, v, free_fn());
            lemma_msum_update(os, j as int, v, committed_fn());
            lemma_isum_update(os, j as int, v, slot_time_fn());
            lemma_msum_remove(ost, r as int, time_fn());
            assert((free_fn())(os[j as int]) == Multiset::singleton(time));
            assert((free_fn())(v) == Multiset::<Time>::empty());
            assert((committed_fn())(os[j as int]) == Multiset::<(StreetId, Time)>::empty());
            assert((committed_fn())(v) == Multiset::singleton(street));
            assert((time_fn())(ost[r as int]) == Multiset::singleton(time));
            assert((slot_time_fn())(os[j as int]) == (slot_time_fn())(v));
            assert(self.streets@.to_multiset() == ost.to_multiset().remove(street));
            assert forall|x: int| 0 <= x < os.len() implies #[trigger] self.slots@[x].1 == os[x].1 by {}
            assert forall|jj: int| 0 <= jj < os.len() && (#[trigger] os[jj]).0 is Some implies exists|j2: int|
                0 <= j2 < self.slots@.len() && self.slots@[j2] == os[jj] && wsum(self.slots@, 0, j2)
                    == wsum(os, 0, jj) by {
                lemma_wsum_same_times(self.slots@, os, 0, jj);
                assert(self.slots@[jj] == os[jj]);
            }
            let fa = msum(self.slots@, free_fn());
            let fb = msum(self.streets@, time_fn());
            let one = Multiset::singleton(time);
            assert(fa.add(one) =~= msum(os, free_fn()));
            assert(fb.add(one) == msum(ost, time_fn()));
            assert forall|a: Time| fa.count(a) == fb.count(a) by {
                assert(fa.add(one).count(a) == fb.add(one).count(a));
            }
            assert(fa =~= fb);
            let ca = msum(self.slots@, committed_fn());
            let pair = Multiset::singleton(street);
            assert(ca.add(Multiset::<(StreetId, Time)>::empty()) =~= ca);
            assert(ca == msum(os, committed_fn()).add(pair));
            assert(ost.to_multiset().count(street) > 0) by {
                assert(ost[r as int] == street);
                assert(ost.contains(street));
            }
            assert(ca.add(self.streets@.to_multiset()) =~= self.orig@.to_multiset());
            assert forall|x: int| 0 <= x < self.streets@.len() implies #[trigger] self.streets@[x].1
                >= 1 by {
                let ox = if x < r { x } else { x + 1 };
                assert(self.streets@[x] == ost[ox]);
            }
        }
    }

    /// Whether `street_id` may go through at `at_time`; a free slot at that
    /// time, possibly after rearranging the free slots, is given to it.
    fn is_or_set_green(&mut self, street_id: StreetId, at_time: Time) -> (r: bool)
        requires
            old(self).wf(),
        ensures
            final(self).wf(),
            final(self).orig == old(self).orig,
            final(self).cycle == old(self).cycle,
            final(self).slots@.len() == old(self).slots@.len(),
            old(self).cycle == 0 ==> !r,
            keeps_committed(old(self).slots@, final(self).slots@),
            !r ==> final(self).slots@ == old(self).slots@ && final(self).streets@ == old(
                self,
            ).streets@,
            r ==> old(self).cycle > 0 && exists|k: int|
                lit_slot(final(self).slots@, k, (at_time % old(self).cycle) as int)
                    && #[trigger] final(self).slots@[k].0 == Some(street_id),
            r ==> forall|i: int|
                0 <= i < final(self).streets@.len() ==> #[trigger] final(self).streets@[i].0
                    != street_id,
            forall|k: int|
                old(self).cycle > 0 && #[trigger] lit_slot(
                    old(self).slots@,
                    k,
                    (at_time % old(self).cycle) as int,
                ) && old(self).slots@[k].0 is Some ==> r == (old(self).slots@[k].0 == Some(
                    street_id,
                )) && final(self).slots@ == old(self).slots@ && final(self).streets@ == old(
                    self,
                ).streets@,
            forall|k: int, i: int|
                old(self).cycle > 0 && #[trigger] lit_slot(
                    old(self).slots@,
                    k,
                    (at_time % old(self).cycle) as int,
                ) && old(self).slots@[k].0 is None && 0 <= i < old(self).streets@.len()
                    && #[trigger] old(self).streets@[i] == (street_id, old(self).slots@[k].1) ==> r
                    && final(self).slots@ == old(self).slots@.update(
                    k,
                    (Some(street_id), old(self).slots@[k].1),
                ),
    {
        let ghost s0 = self.slots@;
        let ghost st0 = self.streets@;
        if self.cycle == 0 {
            return false;
        }
        let mod_time = at_time % self.cycle;
        let mut slot_idx: usize = 0;
        let mut acc_time: Time = 0;
        let mut found = false;
        while slot_idx < self.slots.len()
            invariant
                self.wf(),
                *self == *old(self),
                self.slots@ == s0,
                mod_time == at_time % self.cycle,
                self.cycle > 0,
                mod_time < self.cycle,
                0 <= slot_idx <= self.slots@.len(),
                acc_time == wsum(self.slots@, 0, slot_idx as int),
                acc_time <= mod_time,
                found ==> slot_idx < self.slots@.len(),
                found ==> mod_time < acc_time + self.slots@[slot_idx as int].1,
            ensures
                self.slots@ == s0,
                *self == *old(self),
                acc_time == wsum(s0, 0, slot_idx as int),
                acc_time <= mod_time,
                mod_time == at_time % self.cycle,
                mod_time < self.cycle,
                found ==> slot_idx < s0.len() && mod_time < acc_time + s0[slot_idx as int].1,
                !found ==> slot_idx == s0.len(),
            decreases self.slots@.len() - slot_idx,
        {
            proof {
                lemma_wsum_split(self.slots@, 0, slot_idx as int, slot_idx as int + 1);
                lemma_wsum_one(self.slots@, slot_idx as int);
                lemma_wsum_split(self.slots@, 0, slot_idx as int + 1, self.slots@.len() as int);
                assert(self.slots@.subrange(0, self.slots@.len() as int) =~= self.slots@);
            }
            if mod_time < acc_time + self.slots[slot_idx].1 {
                found = true;
                break;
            }
            acc_time += self.slots[slot_idx].1;
            slot_idx += 1;
        }
        if !found {
            proof {
                assert(s0.subrange(0, s0.len() as int) =~= s0);
                assert(wsum(s0, 0, s0.len() as int) == isum(s0, slot_time_fn()));
                assert(false);
            }
            return false;
        }
        proof {
            assert(lit_slot(s0, slot_idx as int, mod_time as int)) by {
                lemma_wsum_split(s0, 0, slot_idx as int, slot_idx as int + 1);
                lemma_wsum_one(s0, slot_idx as int);
            }
            assert forall|k: int| #[trigger] lit_slot(s0, k, mod_time as int) implies k
                == slot_idx by {
                lemma_lit_unique(s0, k, slot_idx as int, mod_time as int);
            }
        }
        let (slot_street, slot_time) = self.slots[slot_idx];
        if let Some(id) = slot_street {
            // Slot is already assigned
            return id == street_id;
        }
        let mut r: usize = 0;
        while r < self.streets.len()
            invariant
                self.streets@ == st0,
                0 <= r <= self.streets@.len(),
                forall|k: int| 0 <= k < r ==> self.streets@[k].0 != street_id,
            ensures
                r == self.streets@.len() || self.streets@[r as int].0 == street_id,
                forall|k: int| 0 <= k < r ==> self.streets@[k].0 != street_id,
            decreases self.streets@.len() - r,
        {
            if self.streets[r].0 == street_id {
                break;
            }
            r += 1;
        }
        if r == self.streets.len() {
            // Street is already assigned to another slot
            return false;
        }
        let street_time = self.streets[r].1;
        proof {
            assert(old(self).wf());
            assert forall|i: int| 0 <= i < st0.len() && st0[i].0 == street_id implies i == r by {
                assert(distinct_streets(st0));
            }
        }
        if street_time != slot_time {
            // Times do not match: try swapping it with other unused slots
            let offset = mod_time - acc_time;
            match self.swap_slot(slot_idx, street_time, offset, mod_time) {
                Some(new_idx) => {
                    slot_idx = new_idx;
                },
                None => {
                    return false;
                },
            }
        }
        let ghost s1 = self.slots@;
        self.commit(slot_idx, r);
        proof {
            lemma_keeps_trans(s0, s1, self.slots@);
            let k = slot_idx as int;
            assert(self.slots@[k].0 == Some(street_id));
            assert forall|i: int| 0 <= i < s1.len() implies #[trigger] self.slots@[i].1 == s1[i].1 by {}
            lemma_wsum_same_times(self.slots@, s1, 0, k);
            lemma_wsum_same_times(self.slots@, s1, 0, k + 1);
            assert(lit_slot(self.slots@, k, (at_time % old(self).cycle) as int));
            assert forall|i: int| 0 <= i < self.streets@.len() implies #[trigger] self.streets@[i].0
                != street_id by {
                let oi = if i < r { i } else { i + 1 };
                assert(self.streets@[i] == st0[oi]);
            }
        }
        true
    }

    /// Gives every free slot to a street left with the same green time.
    #[verifier::loop_isolation(false)]
    fn assign_remaining_streets(&mut self)
        requires
            old(self).wf(),
        ensures
            final(self).wf(),
            final(self).orig == old(self).orig,
            final(self).slots@.len() == old(self).slots@.len(),
            forall|j: int| 0 <= j < final(self).slots@.len() ==> (#[trigger] final(self).slots@[j]).0 is Some,
            final(self).streets@.len() == 0,
            forall|j: int|
                0 <= j < old(self).slots@.len() ==> #[trigger] final(self).slots@[j].1 == old(
                    self,
                ).slots@[j].1,
            forall|j: int|
                0 <= j < old(self).slots@.len() && (#[trigger] old(self).slots@[j]).0 is Some
                    ==> final(self).slots@[j] == old(self).slots@[j],
    {
        let ghost n0 = self.slots@.len();
        let mut j: usize = 0;
        while j < self.slots.len()
            invariant
                self.wf(),
                self.orig == old(self).orig,
                self.slots@.len() == n0,
                0 <= j <= self.slots@.len(),
                forall|k: int| 0 <= k < j ==> (#[trigger] self.slots@[k]).0 is Some,
                forall|k: int| 0 <= k < n0 ==> #[trigger] self.slots@[k].1 == old(self).slots@[k].1,
                forall|k: int|
                    0 <= k < n0 && (#[trigger] old(self).slots@[k]).0 is Some ==> self.slots@[k]
                        == old(self).slots@[k],
                forall|k: int| j <= k < n0 ==> #[trigger] self.slots@[k] == old(self).slots@[k],
            decreases self.slots@.len() - j,
        {
            if self.slots[j].0.is_none() {
                let slot_time = self.slots[j].1;
                proof {
                    let g = slot_time;
                    lemma_msum_remove(self.slots@, j as int, free_fn());
                    assert((free_fn())(self.slots@[j as int]).count(g) == 1);
                    assert(msum(self.streets@, time_fn()).count(g) > 0);
                    lemma_msum_count(self.streets@, time_fn(), g);
                }
                let mut r: usize = 0;
                while r < self.streets.len()
                    invariant
                        0 <= r <= self.streets@.len(),
                        forall|k: int| 0 <= k < r ==> self.streets@[k].1 != slot_time,
                    decreases self.streets@.len() - r,
                {
                    if self.streets[r].1 == slot_time {
                        break;
                    }
                    r += 1;
                }
                if r == self.streets.len() {
                    proof {
                        let i = choose|i: int|
                            0 <= i < self.streets@.len() && #[trigger] (time_fn())(
                                self.streets@[i],
                            ).count(slot_time) > 0;
                        assert(self.streets@[i].1 == slot_time);
                    }
                    return;
                }
                self.commit(j, r);
            }
            j += 1;
        }
        proof {
            assert(msum(self.slots@, free_fn()) =~= Multiset::<Time>::empty()) by {
                assert forall|g: Time| msum(self.slots@, free_fn()).count(g) == 0 by {
                    if msum(self.slots@, free_fn()).count(g) > 0 {
                        lemma_msum_count(self.slots@, free_fn(), g);
                        let i = choose|i: int|
                            0 <= i < self.slots@.len() && #[trigger] (free_fn())(self.slots@[i]).count(g) > 0;
                        assert(self.slots@[i].0 is Some);
                    }
                }
            }
            assert forall|x: (StreetId, Time)| #[trigger] (time_fn())(x).len() == 1 by {}
            lemma_msum_singleton_len(self.streets@, time_fn());
        }
    }

    /// Replaces the phases of `inter_id` by the slots, in order.
    fn update_schedule(&self, schedule: &mut Schedule, inter_id: IntersectionId)
        requires
            self.wf(),
            old(schedule).wf(),
            old(schedule).intersections@.contains_key(inter_id),
            self.orig@ == old(schedule).intersections@[inter_id].turns@,
            forall|j: int| 0 <= j < self.slots@.len() ==> (#[trigger] self.slots@[j]).0 is Some,
            self.streets@.len() == 0,
        ensures
            final(schedule).wf(),
            final(schedule).simulation == old(schedule).simulation,
            final(schedule).intersections@.dom() == old(schedule).intersections@.dom(),
            forall|k: IntersectionId|
                k != inter_id && #[trigger] old(schedule).intersections@.contains_key(k)
                    ==> final(schedule).intersections@[k] == old(schedule).intersections@[k],
            final(schedule).turns_at(inter_id).to_multiset() == self.orig@.to_multiset(),
            final(schedule).turns_at(inter_id).len() == self.slots@.len(),
            forall|j: int|
                0 <= j < self.slots@.len() ==> #[trigger] final(schedule).turns_at(inter_id)[j] == (
                self.slots@[j].0->Some_0,
                self.slots@[j].1,
            ),
    {
        let mut turns: Vec<(StreetId, Time)> = Vec::with_capacity(self.slots.len());
        let mut j: usize = 0;
        while j < self.slots.len()
            invariant
                self.wf(),
                forall|k: int| 0 <= k < self.slots@.len() ==> (#[trigger] self.slots@[k]).0 is Some,
                0 <= j <= self.slots@.len(),
                turns@.len() == j,
                forall|k: int|
                    0 <= k < j ==> #[trigger] turns@[k] == (self.slots@[k].0->Some_0, self.slots@[k].1),
                msum(self.slots@.subrange(0, j as int), committed_fn()) == turns@.to_multiset(),
                isum(self.slots@.subrange(0, j as int), slot_time_fn()) == prefix_time(turns@, j as int),
            decreases self.slots@.len() - j,
        {
            let ghost before = turns@;
            let (street, time) = self.slots[j];
            let street_id = match street {
                Some(s) => s,
                None => 0,
            };
            turns.push((street_id, time));
            proof {
                assert(self.slots@.subrange(0, j as int + 1).drop_last() =~= self.slots@.subrange(
                    0,
                    j as int,
                ));
                assert(self.slots@.subrange(0, j as int + 1).last() == self.slots@[j as int]);
                assert(turns@ == before.push((street_id, time)));
                lemma_prefix_time_prefix(before, turns@, j as int);
            }
            j += 1;
        }
        proof {
            assert(self.slots@.subrange(0, self.slots@.len() as int) =~= self.slots@);
            assert(self.streets@.to_multiset() =~= Multiset::<(StreetId, Time)>::empty());
            assert(msum(self.slots@, committed_fn()).add(Multiset::<(StreetId, Time)>::empty())
                =~= msum(self.slots@, committed_fn()));
            let o = self.orig@;
            let inter = old(schedule).intersections@[inter_id];
            lemma_perm_distinct(o, turns@);
            assert forall|i: int| 0 <= i < turns@.len() implies (#[trigger] turns@[i]).1 >= 1
                && turns@[i].0 < old(schedule).simulation.streets@.len() by {
                let x = turns@[i];
                assert(turns@.contains(x));
                assert(turns@.to_multiset().count(x) > 0);
                assert(o.contains(x));
                let k = choose|k: int| 0 <= k < o.len() && o[k] == x;
                assert(inter.turns@[k] == x);
            }
        }
        let cycle = self.cycle;
        let ghost old_schedule = *schedule;
        let ghost tv = turns@;
        let new_inter = Intersection { turns, cycle };
        proof {
            assert(new_inter.wf());
        }
        schedule.intersections.insert(inter_id, new_inter);
        proof {
            assert(schedule.intersections@.dom() =~= old_schedule.intersections@.dom());
            assert forall|k: IntersectionId| #[trigger]
                schedule.intersections@.contains_key(k) implies {
                &&& k < schedule.simulation.num_intersections
                &&& schedule.intersections@[k].wf()
                &&& forall|i: int|
                    0 <= i < schedule.intersections@[k].turns@.len()
                        ==> #[trigger] schedule.intersections@[k].turns@[i].0
                        < schedule.simulation.streets@.len()
            } by {
                assert(old_schedule.intersections@.contains_key(k));
                if k != inter_id {
                    assert(schedule.intersections@[k] == old_schedule.intersections@[k]);
                } else {
                    assert(schedule.intersections@[k].turns@ == tv);
                    assert forall|i: int| 0 <= i < tv.len() implies #[trigger] tv[i].0
                        < schedule.simulation.streets@.len() by {
                        assert(tv[i].1 >= 1);
                    }
                }
            }
        }
    }

    /// Whether slot `k` is a free slot of length `len` lit at offset `lit`.
    fn free_slot_lit(&self, k: usize, len: Time, lit: Time) -> (r: bool)
        requires
            self.wf(),
        ensures
            r == free_lit(self.slots@, k as int, len, lit as int),
    {
        k < self.slots.len() && self.slots[k].0.is_none() && self.slots[k].1 == len && self.covers(
            k,
            lit,
        )
    }

    /// Whether slot `idx` is lit at offset `m` into the cycle.
    fn covers(&self, idx: usize, m: Time) -> (r: bool)
        requires
            self.wf(),
            idx < self.slots@.len(),
        ensures
            r == (wsum(self.slots@, 0, idx as int) <= m < wsum(self.slots@, 0, idx as int + 1)),
    {
        let mut acc: u64 = 0;
        let mut i: usize = 0;
        while i < idx
            invariant
                self.wf(),
                idx < self.slots@.len(),
                0 <= i <= idx,
                acc == wsum(self.slots@, 0, i as int),
            decreases idx - i,
        {
            proof {
                lemma_wsum_split(self.slots@, 0, i as int, i as int + 1);
                lemma_wsum_one(self.slots@, i as int);
                lemma_wsum_split(self.slots@, 0, i as int + 1, self.slots@.len() as int);
                assert(self.slots@.subrange(0, self.slots@.len() as int) =~= self.slots@);
            }
            acc = acc + self.slots[i].1 as u64;
            i += 1;
        }
        proof {
            lemma_wsum_split(self.slots@, 0, idx as int, idx as int + 1);
            lemma_wsum_one(self.slots@, idx as int);
        }
        acc <= m as u64 && (m as u64) < acc + self.slots[idx].1 as u64
    }

    /// Tries an inner swap, then an outer swap, so that a free slot of
    /// `target_time` covers the offset of slot `slot_idx`.
    fn swap_slot(
        &mut self,
        slot_idx: usize,
        target_time: Time,
        target_offset: Time,
        lit: Time,
    ) -> (r: Option<usize>)
        requires
            target_time >= 1,
            old(self).wf(),
            slot_idx < old(self).slots@.len(),
            old(self).slots@[slot_idx as int].0 is None,
            target_offset + wsum(old(self).slots@, 0, slot_idx as int) < old(self).cycle,
            lit == target_offset + wsum(old(self).slots@, 0, slot_idx as int),
        ensures
            final(self).wf(),
            final(self).orig == old(self).orig,
            final(self).streets == old(self).streets,
            final(self).cycle == old(self).cycle,
            final(self).slots@.len() == old(self).slots@.len(),
            r matches Some(k) ==> free_lit(final(self).slots@, k as int, target_time, lit as int),
            r is None ==> final(self).slots@ == old(self).slots@,
            keeps_committed(old(self).slots@, final(self).slots@),
    {
        // Try an inner swap first
        let exclude_range = match self.inner_swap(slot_idx, target_time, target_offset, lit) {
            Ok(target_idx) => {
                return Some(target_idx);
            },
            Err(range) => range,
        };
        // Now try an outer swap
        self.outer_swap(slot_idx, exclude_range, target_time, target_offset, lit)
    }

    #[verifier::rlimit(100)]
    #[verifier::spinoff_prover]
    fn inner_swap(
        &mut self,
        slot_idx: usize,
        target_time: Time,
        target_offset: Time,
        lit: Time,
    ) -> (r: Result<usize, (usize, usize)>)
        requires
            target_time >= 1,
            old(self).wf(),
            slot_idx < old(self).slots@.len(),
            old(self).slots@[slot_idx as int].0 is None,
            target_offset + wsum(old(self).slots@, 0, slot_idx as int) < old(self).cycle,
            lit == target_offset + wsum(old(self).slots@, 0, slot_idx as int),
        ensures
            r is Ok ==> forall|x: int|
                0 <= x < old(self).slots@.len() && !(run_lo(old(self).slots@, slot_idx as int) <= x
                    <= run_hi(old(self).slots@, slot_idx as int)) ==> #[trigger] final(self).slots@[x]
                    == old(self).slots@[x],
            final(self).wf(),
            final(self).orig == old(self).orig,
            final(self).streets == old(self).streets,
            final(self).slots@.len() == old(self).slots@.len(),
            final(self).cycle == old(self).cycle,
            r matches Err(range) ==> final(self).slots@ == old(self).slots@ && range.0 == run_lo(
                old(self).slots@,
                slot_idx as int,
            ) && range.1 == run_hi(old(self).slots@, slot_idx as int) && !fits(
                old(self).slots@,
                range.0 as int,
                range.1 as int,
                target_time,
                lit as int,
            ),
            r matches Ok(k) ==> free_lit(final(self).slots@, k as int, target_time, lit as int),
            forall|j: int|
                0 <= j < old(self).slots@.len() && (#[trigger] old(self).slots@[j]).0 is Some
                    ==> final(self).slots@[j] == old(self).slots@[j],
            keeps_committed(old(self).slots@, final(self).slots@),
    {
        broadcast use vstd::seq_lib::group_to_multiset_ensures;

        let ghost s0 = self.slots@;
        let n = self.slots.len();
        let mut target_found = false;
        let mut all_sums = AllSums::new();
        let mut added: u64 = 0;
        let mut max_offset: Time = target_offset;
        let mut min_offset: Time = if max_offset >= target_time {
            max_offset - target_time + 1
        } else {
            0
        };
        proof {
            lemma_wsum_split(s0, 0, slot_idx as int, s0.len() as int);
            assert(s0.subrange(0, s0.len() as int) =~= s0);
            assert(times_seq(s0.subrange(slot_idx as int, slot_idx as int)) =~= Seq::<Time>::empty());
            assert(all_sums.values().to_multiset() =~= Multiset::<Time>::empty());
        }
        // Expand region to the right
        let mut next_idx: usize = slot_idx;
        while next_idx < n
            invariant
                self.wf(),
                self.slots@ == s0,
                s0 == old(self).slots@,
                n == s0.len(),
                slot_idx < n,
                slot_idx <= next_idx <= n,
                all_sums.inv(),
                crate::sums::seq_sum(all_sums.values()) == added,
                added <= wsum(s0, slot_idx as int, next_idx as int),
                forall|x: int| slot_idx <= x < next_idx ==> (#[trigger] s0[x]).0 is None,
                s0[slot_idx as int].0 is None,
                max_offset == target_offset,
                min_offset == if max_offset >= target_time {
                    max_offset - target_time + 1
                } else {
                    0
                },
                target_offset + wsum(s0, 0, slot_idx as int) < self.cycle,
                all_sums.values().to_multiset().add(
                    if target_found {
                        Multiset::singleton(target_time)
                    } else {
                        Multiset::empty()
                    },
                ) == times_seq(s0.subrange(slot_idx as int, next_idx as int)).to_multiset(),
                target_found <==> exists|k: int| slot_idx <= k < next_idx && #[trigger] s0[k].1 == target_time,
                next_idx == slot_idx ==> !target_found,
            ensures
                (target_found && exists|x: int| min_offset <= x <= max_offset && #[trigger] all_sums.sums().contains(x))
                    || next_idx == n || s0[next_idx as int].0 is Some,
                next_idx > slot_idx,
            decreases n - next_idx,
        {
            if target_found && all_sums.contains_any(min_offset, max_offset) {
                // Viable swap found
                break;
            }
            if self.slots[next_idx].0.is_some() {
                // Can't expand any further to the right
                break;
            }
            proof {
                lemma_wsum_split(s0, slot_idx as int, next_idx as int, next_idx as int + 1);
                lemma_wsum_one(s0, next_idx as int);
                lemma_wsum_split(s0, slot_idx as int, next_idx as int + 1, n as int);
                lemma_wsum_split(s0, 0, slot_idx as int, n as int);
                assert(s0.subrange(0, n as int) =~= s0);
                assert(times_seq(s0.subrange(slot_idx as int, next_idx as int + 1)) =~= times_seq(
                    s0.subrange(slot_idx as int, next_idx as int),
                ).push(s0[next_idx as int].1));
            }
            let ghost v0 = all_sums.values();
            let curr_time = self.slots[next_idx].1;
            if !target_found && curr_time == target_time {
                target_found = true;
            } else {
                proof {
                    crate::sums::lemma_seq_sum_push(all_sums.values(), curr_time);
                }
                all_sums.add(curr_time);
                added = added + curr_time as u64;
            }
            proof {
                if all_sums.values() != v0 {
                    assert(all_sums.values().to_multiset() == v0.to_multiset().insert(curr_time));
                }
                assert(all_sums.values().to_multiset().add(
                    if target_found {
                        Multiset::singleton(target_time)
                    } else {
                        Multiset::empty()
                    },
                ) =~= times_seq(s0.subrange(slot_idx as int, next_idx as int + 1)).to_multiset());
                if target_found {
                    if s0[next_idx as int].1 == target_time {
                        assert(exists|k: int| slot_idx <= k < next_idx + 1 && #[trigger] s0[k].1 == target_time);
                    }
                }
            }
            next_idx += 1;
        }
        let ghost right_bounded = next_idx == n || s0[next_idx as int].0 is Some;
        let end_idx: usize = next_idx - 1;
        // Expand region to the left if necessary
        let mut start_idx: usize = slot_idx;
        while start_idx > 0
            invariant
                self.wf(),
                self.slots@ == s0,
                s0 == old(self).slots@,
                n == s0.len(),
                0 <= start_idx <= slot_idx < n,
                slot_idx < next_idx <= n,
                end_idx == next_idx - 1,
                right_bounded == (next_idx == n || s0[next_idx as int].0 is Some),
                all_sums.inv(),
                crate::sums::seq_sum(all_sums.values()) == added,
                added <= wsum(s0, start_idx as int, next_idx as int),
                forall|x: int| start_idx <= x < next_idx ==> (#[trigger] s0[x]).0 is None,
                s0[slot_idx as int].0 is None,
                max_offset == target_offset + wsum(s0, start_idx as int, slot_idx as int),
                min_offset == if max_offset >= target_time {
                    max_offset - target_time + 1
                } else {
                    0
                },
                target_offset + wsum(s0, 0, slot_idx as int) < self.cycle,
                all_sums.values().to_multiset().add(
                    if target_found {
                        Multiset::singleton(target_time)
                    } else {
                        Multiset::empty()
                    },
                ) == times_seq(s0.subrange(start_idx as int, next_idx as int)).to_multiset(),
                target_found <==> exists|k: int| start_idx <= k < next_idx && #[trigger] s0[k].1 == target_time,
                right_bounded || (start_idx == slot_idx && target_found && exists|x: int|
                    min_offset <= x <= max_offset && #[trigger] all_sums.sums().contains(x)),
            ensures
                (target_found && exists|x: int| min_offset <= x <= max_offset && #[trigger] all_sums.sums().contains(x))
                    || start_idx == 0 || s0[start_idx - 1].0 is Some,
            decreases start_idx,
        {
            if target_found && all_sums.contains_any(min_offset, max_offset) {
                // Viable swap found
                break;
            }
            let idx = start_idx - 1;
            if self.slots[idx].0.is_some() {
                // Can't expand any further to the left
                break;
            }
            proof {
                lemma_wsum_split(s0, idx as int, start_idx as int, slot_idx as int);
                lemma_wsum_split(s0, idx as int, start_idx as int, next_idx as int);
                lemma_wsum_one(s0, idx as int);
                lemma_wsum_split(s0, 0, idx as int, slot_idx as int);
                lemma_wsum_split(s0, idx as int, next_idx as int, n as int);
                lemma_wsum_split(s0, 0, slot_idx as int, n as int);
                assert(s0.subrange(0, n as int) =~= s0);
                let t1 = times_seq(s0.subrange(start_idx as int, next_idx as int));
                assert(times_seq(s0.subrange(idx as int, next_idx as int)) =~= t1.insert(0, s0[idx as int].1));
            }
            let ghost v0 = all_sums.values();
            start_idx = idx;
            let curr_time = self.slots[idx].1;
            max_offset += curr_time;
            min_offset = if max_offset >= target_time {
                max_offset - target_time + 1
            } else {
                0
            };
            if !target_found && curr_time == target_time {
                target_found = true;
            } else {
                proof {
                    crate::sums::lemma_seq_sum_push(all_sums.values(), curr_time);
                }
                all_sums.add(curr_time);
                added = added + curr_time as u64;
            }
            proof {
                if all_sums.values() != v0 {
                    assert(all_sums.values().to_multiset() == v0.to_multiset().insert(curr_time));
                }
                assert(all_sums.values().to_multiset().add(
                    if target_found {
                        Multiset::singleton(target_time)
                    } else {
                        Multiset::empty()
                    },
                ) =~= times_seq(s0.subrange(start_idx as int, next_idx as int)).to_multiset());
                if target_found {
                    if s0[idx as int].1 == target_time {
                        assert(exists|k: int| start_idx <= k < next_idx && #[trigger] s0[k].1 == target_time);
                    }
                }
            }
        }
        proof {
            lemma_wsum_split(s0, 0, start_idx as int, slot_idx as int);
            assert(max_offset == lit - wsum(s0, 0, start_idx as int));
        }
        if !target_found || !all_sums.contains_any(min_offset, max_offset) {
            // No viable swap found: return the examined region
            proof {
                lemma_run_lo(s0, start_idx as int, slot_idx as int);
                lemma_run_hi(s0, slot_idx as int, end_idx as int);
                let lo = start_idx as int;
                let hi = end_idx as int;
                assert(s0.subrange(lo, hi + 1) == s0.subrange(start_idx as int, next_idx as int));
                if fits(s0, lo, hi, target_time, lit as int) {
                    let k = choose|k: int|
                        lo <= k <= hi && s0[k].1 == target_time && exists|x: int|
                            #[trigger] subset_sums(times_seq(s0.subrange(lo, hi + 1)).remove(k - lo)).contains(x)
                                && lit - target_time < wsum(s0, 0, lo) + x <= lit;
                    assert(target_found);
                    let tr = times_seq(s0.subrange(lo, hi + 1));
                    assert(tr[k - lo] == target_time);
                    let x = choose|x: int|
                        #[trigger] subset_sums(tr.remove(k - lo)).contains(x)
                            && lit - target_time < wsum(s0, 0, lo) + x <= lit;
                    assert(tr.remove(k - lo).to_multiset() == tr.to_multiset().remove(target_time));
                    assert(all_sums.values().to_multiset() =~= tr.remove(k - lo).to_multiset());
                    crate::sums::lemma_subset_sums_perm(all_sums.values(), tr.remove(k - lo));
                    crate::sums::lemma_subset_sums_bounded(all_sums.values());
                    assert(all_sums.sums().contains(x));
                    assert(min_offset <= x <= max_offset);
                    assert(false);
                }
            }
            return Err((start_idx, end_idx));
        }
        let offset_slots = match all_sums.get_min_sum_values(min_offset, max_offset) {
            Some(v) => v,
            None => {
                proof {
                    assert(false);
                }
                return Err((start_idx, end_idx));
            },
        };
        let ghost w = offset_slots@;
        let target_delta = offset_slots.len();
        let saved = copy_vec(&self.slots);
        proof {
            let win = s0.subrange(start_idx as int, end_idx as int + 1);
            assert(win == s0.subrange(start_idx as int, next_idx as int));
            assert forall|x: int| start_idx <= x <= end_idx implies (#[trigger] s0[x]).0 is None by {}
            assert(w.push(target_time).to_multiset() == w.to_multiset().insert(target_time));
            assert forall|v: Time| w.push(target_time).to_multiset().count(v) <= times_seq(win).to_multiset().count(v) by {
                assert(w.to_multiset().count(v) <= all_sums.values().to_multiset().count(v));
            }
            assert(w.push(target_time).to_multiset().subset_of(times_seq(win).to_multiset()));
        }
        if !self.rearrange_slots(start_idx, end_idx, offset_slots, target_time) {
            proof {
                assert(false);
            }
            return Err((start_idx, end_idx));
        }
        let k = start_idx + target_delta;
        proof {
            let t = self.slots@;
            assert forall|i: int| 0 <= i < w.len() implies #[trigger] t[start_idx + i].1 == w[i] by {
                assert(t[start_idx + i] == (None::<StreetId>, w[i]));
            }
            lemma_wsum_values(t, start_idx as int, w);
            assert(t.subrange(0, start_idx as int) =~= s0.subrange(0, start_idx as int));
            lemma_wsum_split(t, 0, start_idx as int, k as int);
            lemma_wsum_split(t, 0, k as int, k as int + 1);
            lemma_wsum_one(t, k as int);
            assert(free_lit(t, k as int, target_time, lit as int));
        }
        if self.free_slot_lit(k, target_time, lit) {
            proof {
                lemma_keeps_window(s0, self.slots@, start_idx as int, end_idx as int + 1);
                lemma_run_lo(s0, start_idx as int, slot_idx as int);
                lemma_run_hi(s0, slot_idx as int, end_idx as int);
            }
            Ok(k)
        } else {
            self.slots = saved;
            proof {
                assert(false);
            }
            Err((start_idx, end_idx))
        }
    }

    #[verifier::rlimit(80)]
    fn outer_swap(
        &mut self,
        slot_idx: usize,
        exclude_range: (usize, usize),
        target_time: Time,
        target_offset: Time,
        lit: Time,
    ) -> (r: Option<usize>)
        requires
            target_time >= 1,
            old(self).wf(),
            slot_idx < old(self).slots@.len(),
            old(self).slots@[slot_idx as int].0 is None,
            target_offset + wsum(old(self).slots@, 0, slot_idx as int) < old(self).cycle,
        ensures
            keeps_committed(old(self).slots@, final(self).slots@),
            final(self).wf(),
            final(self).orig == old(self).orig,
            final(self).streets == old(self).streets,
            final(self).cycle == old(self).cycle,
            final(self).slots@.len() == old(self).slots@.len(),
            r matches Some(k) ==> free_lit(final(self).slots@, k as int, target_time, lit as int),
            r is None ==> final(self).slots@ == old(self).slots@,
    {
        // Try to find a range of unassigned slots that can be swapped by
        // another range containing a slot with target_time time and a suitable
        // offset, whose combined times are equal
        let ghost s0 = self.slots@;
        let n = self.slots.len();
        let mut range_offset: Time = target_offset;
        let mut range_start: usize = slot_idx + 1;
        proof {
            lemma_wsum_split(s0, 0, slot_idx as int, n as int);
            assert(s0.subrange(0, n as int) =~= s0);
        }
        while range_start > 0
            invariant
                self.wf(),
                self.slots@ == s0,
                s0 == old(self).slots@,
                n == s0.len(),
                0 <= range_start <= slot_idx + 1,
                slot_idx < n,
                range_start <= slot_idx ==> range_offset == target_offset + wsum(
                    s0,
                    range_start as int,
                    slot_idx as int,
                ),
                range_start == slot_idx + 1 ==> range_offset == target_offset,
                s0[slot_idx as int].0 is None,
                forall|x: int| range_start <= x <= slot_idx ==> (#[trigger] s0[x]).0 is None,
                target_offset + wsum(s0, 0, slot_idx as int) < self.cycle,
                target_time >= 1,
                self.orig == old(self).orig,
                self.streets == old(self).streets,
                self.cycle == old(self).cycle,
            decreases range_start,
        {
            if self.slots[range_start - 1].0.is_some() {
                break;
            }
            range_start -= 1;
            proof {
                assert(s0.subrange(slot_idx as int, slot_idx as int) =~= Seq::<Slot>::empty());
                lemma_wsum_split(s0, 0, range_start as int, slot_idx as int);
                if range_start < slot_idx {
                    lemma_wsum_split(s0, range_start as int, range_start as int + 1, slot_idx as int);
                    lemma_wsum_one(s0, range_start as int);
                }
                lemma_wsum_split(s0, 0, slot_idx as int, n as int);
            }
            if range_start < slot_idx {
                range_offset += self.slots[range_start].1;
            }
            let mut total_time: u64 = 0;
            let mut k: usize = range_start;
            while k < slot_idx
                invariant
                    self.wf(),
                    self.slots@ == s0,
                s0 == old(self).slots@,
                    n == s0.len(),
                    range_start <= k <= slot_idx < n,
                    total_time == wsum(s0, range_start as int, k as int),
                decreases slot_idx - k,
            {
                proof {
                    lemma_wsum_split(s0, range_start as int, k as int, k as int + 1);
                    lemma_wsum_one(s0, k as int);
                    lemma_wsum_split(s0, range_start as int, k as int + 1, n as int);
                    assert(s0.subrange(0, n as int) =~= s0);
                    lemma_wsum_split(s0, 0, range_start as int, n as int);
                }
                total_time = total_time + self.slots[k].1 as u64;
                k += 1;
            }
            let mut range_end: usize = slot_idx;
            while range_end < n
                invariant
                    self.wf(),
                    self.slots@ == s0,
                s0 == old(self).slots@,
                    n == s0.len(),
                    range_start <= slot_idx <= range_end <= n,
                    total_time == wsum(s0, range_start as int, range_end as int),
                    forall|x: int| range_start <= x < range_end ==> (#[trigger] s0[x]).0 is None,
                    range_offset <= target_offset + wsum(s0, 0, slot_idx as int),
                    target_offset + wsum(s0, 0, slot_idx as int) < self.cycle,
                    target_time >= 1,
                    self.orig == old(self).orig,
                    self.streets == old(self).streets,
                self.cycle == old(self).cycle,
                decreases n - range_end,
            {
                if self.slots[range_end].0.is_some() {
                    break;
                }
                proof {
                    lemma_wsum_split(s0, range_start as int, range_end as int, range_end as int + 1);
                    lemma_wsum_one(s0, range_end as int);
                    lemma_wsum_split(s0, range_start as int, range_end as int + 1, n as int);
                    lemma_wsum_split(s0, 0, range_start as int, n as int);
                    assert(s0.subrange(0, n as int) =~= s0);
                }
                total_time = total_time + self.slots[range_end].1 as u64;
                proof {
                    assert forall|x: int| range_start <= x <= range_end implies (#[trigger] s0[x]).0 is None by {
                        if x == range_end {
                            assert(s0[x] == self.slots@[x]);
                        }
                    }
                }
                if total_time >= target_time as u64 {
                    let target_idx = self.range_swap(
                        range_start,
                        range_end,
                        exclude_range,
                        total_time as Time,
                        target_time,
                        range_offset,
                        lit,
                    );
                    if target_idx.is_some() {
                        return target_idx;
                    }
                    proof {
                        assert(self.slots@ == s0);
                    }
                }
                range_end += 1;
            }
        }
        // No viable swap found
        None
    }

    #[verifier::rlimit(100)]
    fn range_swap(
        &mut self,
        range_start: usize,
        range_end: usize,
        exclude_range: (usize, usize),
        total_time: Time,
        target_time: Time,
        target_offset: Time,
        lit: Time,
    ) -> (r: Option<usize>)
        requires
            target_time >= 1,
            old(self).wf(),
            range_start <= range_end < old(self).slots@.len(),
            total_time <= old(self).cycle,
            total_time == wsum(old(self).slots@, range_start as int, range_end + 1),
            forall|x: int| range_start <= x <= range_end ==> (#[trigger] old(self).slots@[x]).0 is None,
        ensures
            keeps_committed(old(self).slots@, final(self).slots@),
            r is Some ==> exists|a: int, b: int|
                #![trigger wsum(old(self).slots@, a, b + 1)]
                0 <= a <= b < old(self).slots@.len() && wsum(old(self).slots@, a, b + 1) == total_time
                    && (forall|x: int|
                    a <= x <= b ==> {
                        &&& (#[trigger] old(self).slots@[x]).0 is None
                        &&& !(exclude_range.0 <= x <= exclude_range.1)
                        &&& !(range_start <= x <= range_end)
                    }) && (forall|x: int|
                    0 <= x < old(self).slots@.len() && !(if a < range_start {
                        a
                    } else {
                        range_start as int
                    } <= x <= if b > range_end {
                        b
                    } else {
                        range_end as int
                    }) ==> #[trigger] final(self).slots@[x] == old(self).slots@[x]),
            final(self).wf(),
            final(self).orig == old(self).orig,
            final(self).streets == old(self).streets,
            final(self).cycle == old(self).cycle,
            final(self).slots@.len() == old(self).slots@.len(),
            r matches Some(k) ==> free_lit(final(self).slots@, k as int, target_time, lit as int),
            r is None ==> final(self).slots@ == old(self).slots@,
    {
        let max_offset = target_offset;
        let min_offset = if target_offset >= target_time {
            target_offset - target_time + 1
        } else {
            0
        };
        let ghost s0 = self.slots@;
        let n = self.slots.len();
        let mut start_idx: usize = 0;
        while start_idx < n
            invariant
                self.wf(),
                self.slots@ == s0,
                s0 == old(self).slots@,
                n == s0.len(),
                range_start <= range_end < n,
                total_time <= self.cycle,
                0 <= start_idx <= n,
                total_time == wsum(s0, range_start as int, range_end + 1),
                forall|x: int| range_start <= x <= range_end ==> (#[trigger] s0[x]).0 is None,
                self.orig == old(self).orig,
                self.streets == old(self).streets,
                self.cycle == old(self).cycle,
            decreases n - start_idx,
        {
            // Skip if start_idx is inside exclude range
            if exclude_range.0 <= start_idx && start_idx <= exclude_range.1 {
                start_idx += 1;
                continue;
            }
            let mut acc_time: u64 = 0;
            let mut target_found = false;
            let mut all_sums = AllSums::new();
            let mut added: u64 = 0;
            let mut end_idx: usize = start_idx;
            while end_idx < n
                invariant_except_break
                    acc_time == wsum(s0, start_idx as int, end_idx as int),
                invariant
                    self.wf(),
                    self.slots@ == s0,
                s0 == old(self).slots@,
                    n == s0.len(),
                    range_start <= range_end < n,
                    total_time <= self.cycle,
                    start_idx < n,
                    self.orig == old(self).orig,
                    self.streets == old(self).streets,
                    self.cycle == old(self).cycle,
                    start_idx <= end_idx <= n,
                    total_time == wsum(s0, range_start as int, range_end + 1),
                    forall|x: int| range_start <= x <= range_end ==> (#[trigger] s0[x]).0 is None,
                    forall|x: int| start_idx <= x < end_idx ==> (#[trigger] s0[x]).0 is None,
                    forall|x: int|
                        start_idx <= x < end_idx ==> (#[trigger] s0[x]).0 is None && !(exclude_range.0
                            <= x <= exclude_range.1) && !(range_start <= x <= range_end),
                    start_idx < range_start ==> end_idx <= range_start,
                    !(range_start <= start_idx <= range_end) || end_idx == start_idx,
                    all_sums.inv(),
                    crate::sums::seq_sum(all_sums.values()) == added,
                    added <= acc_time,
                    acc_time <= total_time,
                decreases n - end_idx,
            {
                if self.slots[end_idx].0.is_some() {
                    break;
                }
                // Skip if end_idx is inside exclude range
                if exclude_range.0 <= end_idx && end_idx <= exclude_range.1 {
                    break;
                }
                if end_idx >= range_start && end_idx <= range_end {
                    // Overlap
                    break;
                }
                let curr_time = self.slots[end_idx].1;
                if acc_time + curr_time as u64 > total_time as u64 {
                    break;
                }
                proof {
                    lemma_wsum_split(s0, start_idx as int, end_idx as int, end_idx as int + 1);
                    lemma_wsum_one(s0, end_idx as int);
                }
                acc_time += curr_time as u64;
                if !target_found && curr_time == target_time {
                    target_found = true;
                } else {
                    proof {
                        crate::sums::lemma_seq_sum_push(all_sums.values(), curr_time);
                    }
                    all_sums.add(curr_time);
                    added = added + curr_time as u64;
                }
                if acc_time == total_time as u64 {
                    if !target_found || !all_sums.contains_any(min_offset, max_offset) {
                        break;
                    }
                    let offset_slots = match all_sums.get_min_sum_values(min_offset, max_offset) {
                        Some(v) => v,
                        None => {
                            break;
                        },
                    };
                    let target_delta = offset_slots.len();
                    let saved = copy_vec(&self.slots);
                    if !self.rearrange_slots(start_idx, end_idx, offset_slots, target_time) {
                        break;
                    }
                    let ghost s1 = self.slots@;
                    proof {
                        lemma_keeps_window(s0, s1, start_idx as int, end_idx as int + 1);
                        lemma_free_perm(
                            s0.subrange(start_idx as int, end_idx as int + 1),
                            s1.subrange(start_idx as int, end_idx as int + 1),
                        );
                        assert forall|x: int| start_idx <= x <= end_idx implies (#[trigger] s1[x]).0 is None by {
                            assert(s1[x] == s1.subrange(start_idx as int, end_idx as int + 1)[x - start_idx]);
                        }
                        assert forall|x: int| range_start <= x <= range_end implies (#[trigger] s1[x]).0 is None by {
                            assert(s1[x] == s0[x]);
                        }
                        assert(s1.subrange(range_start as int, range_end + 1) =~= s0.subrange(
                            range_start as int,
                            range_end + 1,
                        ));
                    }
                    let target_idx = if start_idx < range_start {
                        self.reorder_ranges(start_idx, end_idx, range_start, range_end);
                        proof {
                            lemma_keeps_rotate(
                                s1,
                                self.slots@,
                                start_idx as int,
                                end_idx as int,
                                range_start as int,
                                range_end as int,
                            );
                        }
                        range_end - (end_idx - start_idx) + target_delta
                    } else {
                        self.reorder_ranges(range_start, range_end, start_idx, end_idx);
                        proof {
                            lemma_keeps_rotate(
                                s1,
                                self.slots@,
                                range_start as int,
                                range_end as int,
                                start_idx as int,
                                end_idx as int,
                            );
                        }
                        range_start + target_delta
                    };
                    proof {
                        lemma_keeps_trans(s0, s1, self.slots@);
                    }
                    if self.free_slot_lit(target_idx, target_time, lit) {
                        proof {
                            let a = start_idx as int;
                            let b = end_idx as int;
                            assert(wsum(s0, a, b + 1) == total_time);
                            assert forall|x: int| a <= x <= b implies {
                                &&& (#[trigger] s0[x]).0 is None
                                &&& !(exclude_range.0 <= x <= exclude_range.1)
                                &&& !(range_start <= x <= range_end)
                            } by {
                                if x < b {
                                    assert(s0[x].0 is None);
                                }
                            }
                        }
                        return Some(target_idx);
                    }
                    self.slots = saved;
                    proof {
                        lemma_keeps_refl(s0);
                    }
                    return None;
                }
                proof {
                    assert(!(exclude_range.0 <= end_idx <= exclude_range.1));
                    assert(!(range_start <= end_idx <= range_end));
                    assert(s0[end_idx as int].0 is None);
                }
                end_idx += 1;
            }
            start_idx += 1;
        }
        // No viable swap found
        None
    }

    /// Writes the free slots `offset_slots`, then `target_time`, at the start
    /// of `start_idx..=end_idx`, then the other slots of that window in their
    /// order; leaves the slots as they were when the window does not hold
    /// those free slots.
    fn rearrange_slots(
        &mut self,
        start_idx: usize,
        end_idx: usize,
        offset_slots: Vec<Time>,
        target_time: Time,
    ) -> (r: bool)
        requires
            old(self).wf(),
            start_idx <= end_idx < old(self).slots@.len(),
        ensures
            final(self).wf(),
            final(self).orig == old(self).orig,
            final(self).streets == old(self).streets,
            final(self).slots@.len() == old(self).slots@.len(),
            final(self).cycle == old(self).cycle,
            !r ==> final(self).slots@ == old(self).slots@,
            r ==> start_idx + offset_slots@.len() <= end_idx,
            r ==> forall|x: int|
                0 <= x < offset_slots@.len() ==> final(self).slots@[start_idx + x] == (
                    None::<StreetId>,
                    #[trigger] offset_slots@[x],
                ),
            r ==> final(self).slots@[start_idx + offset_slots@.len()] == (
                None::<StreetId>,
                target_time,
            ),
            forall|x: int|
                0 <= x < old(self).slots@.len() && !(start_idx <= x <= end_idx)
                    ==> #[trigger] final(self).slots@[x] == old(self).slots@[x],
            final(self).slots@.subrange(start_idx as int, end_idx + 1).to_multiset() == old(
                self,
            ).slots@.subrange(start_idx as int, end_idx + 1).to_multiset(),
            (forall|x: int| start_idx <= x <= end_idx ==> (#[trigger] old(self).slots@[x]).0 is None)
                && offset_slots@.push(target_time).to_multiset().subset_of(
                times_seq(old(self).slots@.subrange(start_idx as int, end_idx + 1)).to_multiset(),
            ) ==> r,
    {
        broadcast use vstd::seq_lib::group_to_multiset_ensures;

        let ghost s0 = self.slots@;
        let ghost offs = offset_slots@;
        let ghost fit = (forall|x: int| start_idx <= x <= end_idx ==> (#[trigger] s0[x]).0 is None)
            && offs.push(target_time).to_multiset().subset_of(
            times_seq(s0.subrange(start_idx as int, end_idx + 1)).to_multiset(),
        );
        let n = self.slots.len();
        let mut slots_copy: Vec<Slot> = Vec::new();
        let mut k: usize = start_idx;
        while k <= end_idx
            invariant
                *self == *old(self),
                self.slots@ == s0,
                s0 == old(self).slots@,
                n == s0.len(),
                start_idx <= k <= end_idx + 1,
                end_idx < n,
                slots_copy@ == s0.subrange(start_idx as int, k as int),
            decreases end_idx + 1 - k,
        {
            slots_copy.push(self.slots[k]);
            proof {
                assert(s0.subrange(start_idx as int, k as int + 1) =~= s0.subrange(
                    start_idx as int,
                    k as int,
                ).push(s0[k as int]));
            }
            k += 1;
        }
        let ghost window = s0.subrange(start_idx as int, end_idx as int + 1);
        let mut to_place = offset_slots;
        to_place.push(target_time);
        let mut placed: Vec<Slot> = Vec::new();
        proof {
            assert(to_place@.subrange(0, to_place@.len() as int) =~= to_place@);
            if fit {
                assert forall|j: int| 0 <= j < slots_copy@.len() implies (#[trigger] slots_copy@[j]).0 is None by {
                    assert(slots_copy@[j] == s0[start_idx + j]);
                }
            }
        }
        let mut i: usize = 0;
        while i < to_place.len()
            invariant
                *self == *old(self),
                old(self).wf(),
                self.slots@ == s0,
                s0 == old(self).slots@,
                0 <= i <= to_place@.len(),
                to_place@ == offs.push(target_time),
                offs == offset_slots@,
                placed@.len() == i,
                forall|x: int| 0 <= x < i ==> #[trigger] placed@[x] == (None::<StreetId>, to_place@[x]),
                placed@.to_multiset().add(slots_copy@.to_multiset()) == window.to_multiset(),
                placed@.len() + slots_copy@.len() == window.len(),
                window == s0.subrange(start_idx as int, end_idx as int + 1),
                fit == ((forall|x: int| start_idx <= x <= end_idx ==> (#[trigger] s0[x]).0 is None)
                    && offs.push(target_time).to_multiset().subset_of(
                    times_seq(s0.subrange(start_idx as int, end_idx + 1)).to_multiset(),
                )),
                fit ==> forall|j: int| 0 <= j < slots_copy@.len() ==> (#[trigger] slots_copy@[j]).0 is None,
                fit ==> to_place@.subrange(i as int, to_place@.len() as int).to_multiset().subset_of(
                    times_seq(slots_copy@).to_multiset(),
                ),
            decreases to_place@.len() - i,
        {
            let time = to_place[i];
            let mut pos: usize = 0;
            while pos < slots_copy.len()
                invariant
                    *self == *old(self),
                    old(self).wf(),
                    self.slots@ == s0,
                s0 == old(self).slots@,
                    0 <= pos <= slots_copy@.len(),
                    fit ==> forall|j: int| 0 <= j < slots_copy@.len() ==> (#[trigger] slots_copy@[j]).0 is None,
                    fit ==> to_place@.subrange(i as int, to_place@.len() as int).to_multiset().subset_of(
                        times_seq(slots_copy@).to_multiset(),
                    ),
                    i < to_place@.len(),
                    time == to_place@[i as int],
                    forall|j: int| 0 <= j < pos ==> !((#[trigger] slots_copy@[j]).0 is None
                        && slots_copy@[j].1 == time),
                ensures
                    pos == slots_copy@.len() ==> forall|j: int| 0 <= j < slots_copy@.len() ==> !((#[trigger] slots_copy@[j]).0 is None
                        && slots_copy@[j].1 == time),
                    pos == slots_copy@.len() || (slots_copy@[pos as int].0 is None
                        && slots_copy@[pos as int].1 == time),
                decreases slots_copy@.len() - pos,
            {
                if slots_copy[pos].0.is_none() && slots_copy[pos].1 == time {
                    break;
                }
                pos += 1;
            }
            let ghost rest = to_place@.subrange(i as int, to_place@.len() as int);
            proof {
                assert(rest[0] == time);
                assert(rest =~= seq![time] + to_place@.subrange(i as int + 1, to_place@.len() as int));
                vstd::seq_lib::lemma_multiset_commutative(
                    seq![time],
                    to_place@.subrange(i as int + 1, to_place@.len() as int),
                );
                assert(seq![time].to_multiset().count(time) > 0) by {
                    assert(seq![time].contains(time)) by {
                        assert(seq![time][0] == time);
                    }
                }
            }
            if pos == slots_copy.len() {
                proof {
                    if fit {
                        let tc = times_seq(slots_copy@);
                        assert(rest.to_multiset().count(time) > 0);
                        assert(tc.to_multiset().count(time) > 0);
                        assert(tc.contains(time));
                        let j = choose|j: int| 0 <= j < tc.len() && tc[j] == time;
                        assert(slots_copy@[j].1 == time);
                        assert(slots_copy@[j].0 is None);
                        assert(false);
                    }
                }
                return false;
            }
            let ghost pc = placed@;
            let ghost cc = slots_copy@;
            let slot = slots_copy.remove(pos);
            placed.push(slot);
            proof {
                if fit {
                    assert forall|j: int| 0 <= j < slots_copy@.len() implies (#[trigger] slots_copy@[j]).0 is None by {
                        let oj = if j < pos { j } else { j + 1 };
                        assert(slots_copy@[j] == cc[oj]);
                    }
                    assert(times_seq(slots_copy@) =~= times_seq(cc).remove(pos as int));
                    assert(times_seq(cc)[pos as int] == time);
                    let tail = to_place@.subrange(i as int + 1, to_place@.len() as int);
                    assert(tail.to_multiset() =~= rest.to_multiset().remove(time));
                    assert(times_seq(slots_copy@).to_multiset() == times_seq(cc).to_multiset().remove(time));
                    assert forall|v: Time| tail.to_multiset().count(v) <= times_seq(slots_copy@).to_multiset().count(v) by {
                        assert(rest.to_multiset().count(v) <= times_seq(cc).to_multiset().count(v));
                    }
                }
                assert(placed@.to_multiset() == pc.to_multiset().insert(slot));
                assert(slots_copy@.to_multiset() == cc.to_multiset().remove(slot));
                assert(cc.to_multiset().count(slot) > 0) by {
                    assert(cc[pos as int] == slot);
                    assert(cc.contains(slot));
                }
                assert(placed@.to_multiset().add(slots_copy@.to_multiset()) =~= pc.to_multiset().add(
                    cc.to_multiset(),
                ));
            }
            i += 1;
        }
        proof {
            assert(slots_copy@.subrange(0, slots_copy@.len() as int) =~= slots_copy@);
        }
        let mut j: usize = 0;
        while j < slots_copy.len()
            invariant
                *self == *old(self),
                self.slots@ == s0,
                s0 == old(self).slots@,
                0 <= j <= slots_copy@.len(),
                to_place@ == offs.push(target_time),
                placed@.len() >= to_place@.len(),
                forall|x: int|
                    0 <= x < to_place@.len() ==> #[trigger] placed@[x] == (None::<StreetId>, to_place@[x]),
                placed@.to_multiset().add(
                    slots_copy@.subrange(j as int, slots_copy@.len() as int).to_multiset(),
                ) == window.to_multiset(),
                placed@.len() + slots_copy@.len() - j == window.len(),
            decreases slots_copy@.len() - j,
        {
            let ghost pc = placed@;
            let x = slots_copy[j];
            placed.push(x);
            proof {
                let rest = slots_copy@.subrange(j as int, slots_copy@.len() as int);
                let tail = slots_copy@.subrange(j as int + 1, slots_copy@.len() as int);
                assert(rest =~= tail.insert(0, x));
                assert(rest.to_multiset() == tail.to_multiset().insert(x));
                assert(placed@.to_multiset() == pc.to_multiset().insert(x));
                assert(placed@.to_multiset().add(tail.to_multiset()) =~= window.to_multiset());
            }
            j += 1;
        }
        proof {
            assert(slots_copy@.subrange(j as int, slots_copy@.len() as int) =~= Seq::<Slot>::empty());
            assert(placed@.to_multiset() =~= window.to_multiset());
        }
        let mut k: usize = 0;
        while k < placed.len()
            invariant
                placed@.len() == window.len(),
                to_place@ == offs.push(target_time),
                placed@.len() >= to_place@.len(),
                forall|x: int|
                    0 <= x < to_place@.len() ==> #[trigger] placed@[x] == (None::<StreetId>, to_place@[x]),
                window.len() == end_idx + 1 - start_idx,
                end_idx < n,
                n == s0.len(),
                self.slots@.len() == s0.len(),
                self.orig == old(self).orig,
                self.streets == old(self).streets,
                self.cycle == old(self).cycle,
                0 <= k <= placed@.len(),
                forall|x: int| 0 <= x < start_idx ==> self.slots@[x] == s0[x],
                forall|x: int| end_idx < x < s0.len() ==> self.slots@[x] == s0[x],
                forall|x: int| 0 <= x < k ==> #[trigger] self.slots@[start_idx + x] == placed@[x],
                forall|x: int|
                    k <= x < placed@.len() ==> #[trigger] self.slots@[start_idx + x] == s0[start_idx
                        + x],
            decreases placed@.len() - k,
        {
            self.slots.set(start_idx + k, placed[k]);
            k += 1;
        }
        proof {
            let sub = self.slots@.subrange(start_idx as int, end_idx as int + 1);
            assert forall|x: int| 0 <= x < sub.len() implies sub[x] == placed@[x] by {
                assert(self.slots@[start_idx + x] == placed@[x]);
            }
            assert(sub =~= placed@);
            lemma_perm_window(s0, self.slots@, start_idx as int, end_idx as int + 1);
            self.lemma_perm_keeps_wf(s0);
            assert forall|x: int| 0 <= x < offs.len() implies self.slots@[start_idx + x] == (
                None::<StreetId>,
                #[trigger] offs[x],
            ) by {
                assert(self.slots@[start_idx + x] == placed@[x]);
                assert(to_place@[x] == offs[x]);
            }
            assert(self.slots@[start_idx + offs.len()] == placed@[offs.len() as int]);
            assert(to_place@[offs.len() as int] == target_time);
        }
        true
    }

    /// Swaps the windows `left_start..=left_end` and
    /// `right_start..=right_end`, the slots between them moving along.
    fn reorder_ranges(
        &mut self,
        left_start: usize,
        left_end: usize,
        right_start: usize,
        right_end: usize,
    )
        requires
            old(self).wf(),
            left_start <= left_end < right_start <= right_end < old(self).slots@.len(),
        ensures
            final(self).wf(),
            final(self).cycle == old(self).cycle,
            final(self).slots@.subrange(left_start as int, right_end + 1) == old(self).slots@.subrange(
                right_start as int,
                right_end + 1,
            ) + old(self).slots@.subrange(left_end + 1, right_start as int) + old(
                self,
            ).slots@.subrange(left_start as int, left_end + 1),
            forall|x: int|
                0 <= x < old(self).slots@.len() && !(left_start <= x <= right_end)
                    ==> #[trigger] final(self).slots@[x] == old(self).slots@[x],
            final(self).orig == old(self).orig,
            final(self).streets == old(self).streets,
            final(self).slots@.len() == old(self).slots@.len(),
    {
        let ghost s0 = self.slots@;
        let n = self.slots.len();
        let mut copy: Vec<Slot> = Vec::new();
        let mut k: usize = right_start;
        while k <= right_end
            invariant
                *self == *old(self),
                self.slots@ == s0,
                s0 == old(self).slots@,
                right_start <= k <= right_end + 1,
                n == s0.len(),
                left_start <= left_end < right_start <= right_end < s0.len(),
                copy@ == s0.subrange(right_start as int, k as int),
            decreases right_end + 1 - k,
        {
            copy.push(self.slots[k]);
            proof {
                assert(s0.subrange(right_start as int, k as int + 1) =~= s0.subrange(
                    right_start as int,
                    k as int,
                ).push(s0[k as int]));
            }
            k += 1;
        }
        let mut k: usize = left_end + 1;
        while k < right_start
            invariant
                *self == *old(self),
                self.slots@ == s0,
                s0 == old(self).slots@,
                left_end + 1 <= k <= right_start,
                left_start <= left_end < right_start <= right_end < s0.len(),
                copy@ == s0.subrange(right_start as int, right_end as int + 1) + s0.subrange(
                    left_end as int + 1,
                    k as int,
                ),
            decreases right_start - k,
        {
            copy.push(self.slots[k]);
            proof {
                assert(s0.subrange(left_end as int + 1, k as int + 1) =~= s0.subrange(
                    left_end as int + 1,
                    k as int,
                ).push(s0[k as int]));
                assert(copy@ =~= s0.subrange(right_start as int, right_end as int + 1) + s0.subrange(
                    left_end as int + 1,
                    k as int + 1,
                ));
            }
            k += 1;
        }
        let mut k: usize = left_start;
        while k <= left_end
            invariant
                *self == *old(self),
                self.slots@ == s0,
                s0 == old(self).slots@,
                left_start <= k <= left_end + 1,
                left_start <= left_end < right_start <= right_end < s0.len(),
                copy@ == s0.subrange(right_start as int, right_end as int + 1) + s0.subrange(
                    left_end as int + 1,
                    right_start as int,
                ) + s0.subrange(left_start as int, k as int),
            decreases left_end + 1 - k,
        {
            copy.push(self.slots[k]);
            proof {
                assert(s0.subrange(left_start as int, k as int + 1) =~= s0.subrange(
                    left_start as int,
                    k as int,
                ).push(s0[k as int]));
                assert(copy@ =~= s0.subrange(right_start as int, right_end as int + 1) + s0.subrange(
                    left_end as int + 1,
                    right_start as int,
                ) + s0.subrange(left_start as int, k as int + 1));
            }
            k += 1;
        }
        proof {
            let l = s0.subrange(left_start as int, left_end as int + 1);
            let m = s0.subrange(left_end as int + 1, right_start as int);
            let rr = s0.subrange(right_start as int, right_end as int + 1);
            assert(s0.subrange(left_start as int, right_end as int + 1) =~= l + m + rr);
            vstd::seq_lib::lemma_multiset_commutative(l + m, rr);
            vstd::seq_lib::lemma_multiset_commutative(l, m);
            vstd::seq_lib::lemma_multiset_commutative(rr + m, l);
            vstd::seq_lib::lemma_multiset_commutative(rr, m);
            assert(copy@.to_multiset() =~= s0.subrange(left_start as int, right_end as int + 1).to_multiset());
        }
        let mut k: usize = 0;
        while k < copy.len()
            invariant
                copy@.len() == right_end + 1 - left_start,
                copy@ == s0.subrange(right_start as int, right_end as int + 1) + s0.subrange(
                    left_end as int + 1,
                    right_start as int,
                ) + s0.subrange(left_start as int, left_end as int + 1),
                right_end < s0.len(),
                n == s0.len(),
                self.slots@.len() == s0.len(),
                self.orig == old(self).orig,
                self.streets == old(self).streets,
                self.cycle == old(self).cycle,
                0 <= k <= copy@.len(),
                forall|x: int| 0 <= x < left_start ==> self.slots@[x] == s0[x],
                forall|x: int| right_end < x < s0.len() ==> self.slots@[x] == s0[x],
                forall|x: int| 0 <= x < k ==> #[trigger] self.slots@[left_start + x] == copy@[x],
                s0 == old(self).slots@,
                old(self).wf(),
                forall|x: int| k <= x < copy@.len() ==> #[trigger] self.slots@[left_start + x] == s0[left_start + x],
            decreases copy@.len() - k,
        {
            self.slots.set(left_start + k, copy[k]);
            k += 1;
        }
        proof {
            let sub = self.slots@.subrange(left_start as int, right_end as int + 1);
            assert forall|x: int| 0 <= x < sub.len() implies sub[x] == copy@[x] by {
                assert(self.slots@[left_start + x] == copy@[x]);
            }
            assert(sub =~= copy@);
            lemma_perm_window(s0, self.slots@, left_start as int, right_end as int + 1);
            self.lemma_perm_keeps_wf(s0);
        }
    }
}

/// Whether street `a` comes before street `b` when queues are visited: the
/// longer queue first, then the smaller street id.
pub open spec fn visits_before(queues: Seq<VecDeque<CarId>>, a: StreetId, b: StreetId) -> bool {
    queues[a as int]@.len() > queues[b as int]@.len() || (queues[a as int]@.len()
        == queues[b as int]@.len() && a < b)
}

/// The streets with waiting cars, the longest queues first and equal
/// queues by street id.
pub fn queue_order(queues: &Vec<VecDeque<CarId>>) -> (r: Vec<StreetId>)
    ensures
        forall|i: int|
            0 <= i < r@.len() ==> #[trigger] r@[i] < queues@.len() && queues@[r@[i] as int]@.len()
                > 0,
        forall|s: StreetId|
            (s as int) < queues@.len() && #[trigger] queues@[s as int]@.len() > 0 ==> r@.contains(s),
        forall|i: int, j: int|
            0 <= i < j < r@.len() ==> visits_before(queues@, #[trigger] r@[i], #[trigger] r@[j]),
{
    let mut r: Vec<StreetId> = Vec::new();
    let mut s: usize = 0;
    while s < queues.len()
        invariant
            0 <= s <= queues@.len(),
            forall|i: int|
                0 <= i < r@.len() ==> #[trigger] r@[i] < s && queues@[r@[i] as int]@.len() > 0,
            forall|x: StreetId|
                (x as int) < s && #[trigger] queues@[x as int]@.len() > 0 ==> r@.contains(x),
            forall|i: int, j: int|
                0 <= i < j < r@.len() ==> visits_before(queues@, #[trigger] r@[i], #[trigger] r@[j]),
        decreases queues@.len() - s,
    {
        let len = queues[s].len();
        if len > 0 {
            let mut p: usize = 0;
            while p < r.len()
                invariant
                    0 <= p <= r@.len(),
                    s < queues@.len(),
                    forall|i: int| 0 <= i < r@.len() ==> #[trigger] r@[i] < s,
                    len == queues@[s as int]@.len(),
                    forall|i: int| 0 <= i < p ==> queues@[#[trigger] r@[i] as int]@.len() >= len,
                ensures
                    p == r@.len() || queues@[r@[p as int] as int]@.len() < len,
                    forall|i: int| 0 <= i < p ==> queues@[#[trigger] r@[i] as int]@.len() >= len,
                decreases r@.len() - p,
            {
                if queues[r[p]].len() < len {
                    break;
                }
                p += 1;
            }
            let ghost old_r = r@;
            r.insert(p, s);
            proof {
                assert forall|i: int, j: int| 0 <= i < j < r@.len() implies visits_before(
                    queues@,
                    #[trigger] r@[i],
                    #[trigger] r@[j],
                ) by {
                    if i < p && j < p {
                        assert(r@[i] == old_r[i] && r@[j] == old_r[j]);
                    } else if i < p && j == p {
                        assert(r@[i] == old_r[i]);
                    } else if i < p {
                        assert(r@[i] == old_r[i] && r@[j] == old_r[j - 1]);
                    } else if i == p {
                        assert(r@[j] == old_r[j - 1]);
                        if j - 1 > p {
                            assert(visits_before(queues@, old_r[p as int], old_r[j - 1]));
                        }
                    } else {
                        assert(r@[i] == old_r[i - 1] && r@[j] == old_r[j - 1]);
                    }
                }
                assert forall|x: StreetId|
                    (x as int) < s + 1 && #[trigger] queues@[x as int]@.len() > 0 implies r@.contains(x) by {
                    if x == s {
                        assert(r@[p as int] == s);
                    } else {
                        assert(old_r.contains(x));
                        let k = choose|k: int| 0 <= k < old_r.len() && old_r[k] == x;
                        if k < p {
                            assert(r@[k] == x);
                        } else {
                            assert(r@[k + 1] == x);
                        }
                    }
                }
                assert forall|i: int| 0 <= i < r@.len() implies #[trigger] r@[i] < s + 1
                    && queues@[r@[i] as int]@.len() > 0 by {
                    if i < p {
                        assert(r@[i] == old_r[i]);
                    } else if i > p {
                        assert(r@[i] == old_r[i - 1]);
                    }
                }
            }
        }
        s += 1;
    }
    r
}

/// Rebuilds the plan of `inter_id` by running the cars: each street takes
/// the slot that is lit when its first car reaches the light, the free slots
/// being rearranged for it where needed. Returns the score of the new
/// schedule.
pub fn reorder_intersection(schedule: &mut Schedule, inter_id: IntersectionId) -> (r: Score)
    requires
        old(schedule).wf(),
        old(schedule).intersections@.contains_key(inter_id),
    ensures
        final(schedule).wf(),
        final(schedule).simulation == old(schedule).simulation,
        final(schedule).intersections@.dom() == old(schedule).intersections@.dom(),
        forall|k: IntersectionId|
            k != inter_id && #[trigger] old(schedule).intersections@.contains_key(k)
                ==> final(schedule).intersections@[k] == old(schedule).intersections@[k],
        final(schedule).turns_at(inter_id).to_multiset() == old(schedule).turns_at(
            inter_id,
        ).to_multiset(),
        times_of(final(schedule).turns_at(inter_id)) == times_of(old(schedule).turns_at(inter_id)),
        streets_of(final(schedule).turns_at(inter_id)) == streets_of(
            old(schedule).turns_at(inter_id),
        ),
        r == score_of(final(schedule)),
{
    let sim = schedule.simulation;
    let mut intersection = OpenIntersection::from(schedule, inter_id);
    let ghost n0 = intersection.slots@.len();
    let mut traffic = Traffic::start(sim);
    let mut t: Time = 0;
    while t <= sim.duration
        invariant
            *schedule == *old(schedule),
            schedule.wf(),
            sim == schedule.simulation,
            schedule.intersections@.contains_key(inter_id),
            traffic_wf(sim, traffic.model()),
            intersection.wf(),
            intersection.orig@ == schedule.intersections@[inter_id].turns@,
            intersection.slots@.len() == n0,
            t <= sim.duration + 1,
        decreases sim.duration + 1 - t,
    {
        traffic.advance(sim);
        // Visit the queues by number of cars waiting
        let order = queue_order(&traffic.queues);
        let mut i: usize = 0;
        while i < order.len()
            invariant
                *schedule == *old(schedule),
                schedule.wf(),
                sim == schedule.simulation,
                schedule.intersections@.contains_key(inter_id),
                traffic_wf(sim, traffic.model()),
                intersection.wf(),
                intersection.orig@ == schedule.intersections@[inter_id].turns@,
                intersection.slots@.len() == n0,
                t <= sim.duration,
                forall|k: int| 0 <= k < order@.len() ==> #[trigger] order@[k] < sim.streets@.len(),
                0 <= i <= order@.len(),
            decreases order@.len() - i,
        {
            let street_id = order[i];
            if traffic.queues[street_id].len() > 0 {
                let street_inter_id = sim.streets[street_id].end_intersection;
                let is_green = if street_inter_id == inter_id {
                    intersection.is_or_set_green(street_id, t)
                } else {
                    schedule.is_green(street_inter_id, street_id, t)
                };
                if is_green {
                    traffic.cross(sim, street_id);
                }
            }
            i += 1;
        }
        t += 1;
    }
    intersection.assign_remaining_streets();
    let ghost before = *schedule;
    intersection.update_schedule(schedule, inter_id);
    proof {
        lemma_perm_phases(before.turns_at(inter_id), schedule.turns_at(inter_id));
    }
    match schedule.stats() {
        Ok(stats) => stats.score,
        Err(_) => 0,
    }
}

} // verus!
