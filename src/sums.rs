use crate::{copy_vec, Time};
use std::collections::HashMap;
use vstd::prelude::*;

verus! {

broadcast use vstd::std_specs::hash::group_hash_axioms;

/// Sum of a sequence of times.
pub open spec fn seq_sum(s: Seq<Time>) -> int
    decreases s.len(),
{
    if s.len() == 0 {
        0
    } else {
        seq_sum(s.drop_last()) + s.last()
    }
}

/// Every sum of a sub-multiset of `vals`.
pub open spec fn subset_sums(vals: Seq<Time>) -> Set<int>
    decreases vals.len(),
{
    if vals.len() == 0 {
        set![0int]
    } else {
        let r = subset_sums(vals.drop_last());
        Set::new(|x: int| r.contains(x) || r.contains(x - vals.last()))
    }
}

/// For a multiset of added values, every sum that some of them add up to,
/// each with one choice of values that adds up to it.
pub struct AllSums {
    sums: HashMap<Time, Vec<Time>>,
    /// The sums held, in the order they were found.
    keys: Vec<Time>,
    /// The values added so far.
    added: Ghost<Seq<Time>>,
}

impl Default for AllSums {
    fn default() -> (r: Self)
        ensures
            r.inv(),
            r.values() == Seq::<Time>::empty(),
    {
        Self::new()
    }
}

impl AllSums {
    pub closed spec fn values(&self) -> Seq<Time> {
        self.added@
    }

    /// The sums that are reachable.
    pub closed spec fn sums(&self) -> Set<int> {
        self.sums@.dom().map(|k: Time| k as int)
    }

    /// The values stored for sum `k`.
    pub closed spec fn witness(&self, k: Time) -> Seq<Time> {
        self.sums@[k]@
    }

    pub closed spec fn wf(&self) -> bool {
        &&& forall|x: int| #[trigger]
            subset_sums(self.added@).contains(x) <==> 0 <= x <= u32::MAX && self.sums@.contains_key(
                x as Time,
            )
        &&& forall|k: Time| #[trigger]
            self.sums@.contains_key(k) ==> {
                &&& seq_sum(self.sums@[k]@) == k
                &&& self.sums@[k]@.to_multiset().subset_of(self.added@.to_multiset())
            }
        &&& forall|j: int| 0 <= j < self.keys@.len() ==> self.sums@.contains_key(#[trigger] self.keys@[j])
        &&& forall|k: Time| #[trigger] self.sums@.contains_key(k) ==> self.keys@.contains(k)
        &&& seq_sum(self.added@) <= u32::MAX
    }

    /// Reachable sums are exactly the subset sums of the added values, and
    /// the values stored for each are some of the added values.
    pub open spec fn inv(&self) -> bool {
        &&& self.wf()
        &&& self.sums() == subset_sums(self.values())
        &&& forall|k: Time| #[trigger]
            self.sums().contains(k as int) ==> {
                &&& seq_sum(self.witness(k)) == k
                &&& self.witness(k).to_multiset().subset_of(self.values().to_multiset())
            }
        &&& seq_sum(self.values()) <= u32::MAX
    }

    pub fn new() -> (r: Self)
        ensures
            r.inv(),
            r.values() == Seq::<Time>::empty(),
    {
        let mut sums = HashMap::new();
        sums.insert(0, Vec::new());
        let keys = vec![0];
        let r = AllSums { sums, keys, added: Ghost(Seq::empty()) };
        proof {
            assert(r.sums() =~= subset_sums(r.values())) by {
                assert forall|x: int| r.sums().contains(x) <==> subset_sums(r.values()).contains(
                    x,
                ) by {
                    if x == 0 {
                        assert(r.sums@.dom().contains(0u32));
                    }
                }
            }
            assert forall|k: Time| #[trigger] r.sums().contains(k as int) implies {
                &&& seq_sum(r.witness(k)) == k
                &&& r.witness(k).to_multiset().subset_of(r.values().to_multiset())
            } by {
                assert(r.sums@.contains_key(k));
                assert(r.witness(k) =~= Seq::<Time>::empty());
            }
            assert forall|x: int| #[trigger]
                subset_sums(r.added@).contains(x) <==> 0 <= x <= u32::MAX && r.sums@.contains_key(
                    x as Time,
                ) by {}
            assert(r.keys@.contains(0u32)) by {
                assert(r.keys@[0] == 0u32);
            }
        }
        r
    }

    pub proof fn lemma_inv_from_wf(&self)
        requires
            self.wf(),
        ensures
            self.inv(),
    {
        assert(self.sums() =~= subset_sums(self.values())) by {
            assert forall|x: int| self.sums().contains(x) <==> subset_sums(self.values()).contains(
                x,
            ) by {
                if subset_sums(self.values()).contains(x) {
                    assert(self.sums@.dom().contains(x as Time));
                }
            }
        }
        assert forall|k: Time| #[trigger] self.sums().contains(k as int) implies {
            &&& seq_sum(self.witness(k)) == k
            &&& self.witness(k).to_multiset().subset_of(self.values().to_multiset())
        } by {
            assert(subset_sums(self.added@).contains(k as int));
        }
    }

    /// Makes `value` part of the values: each reachable sum `s` makes
    /// `s + value` reachable too, and sums already reached keep their values.
    pub fn add(&mut self, value: Time)
        requires
            old(self).inv(),
            seq_sum(old(self).values()) + value <= u32::MAX,
        ensures
            final(self).inv(),
            final(self).values() == old(self).values().push(value),
            forall|k: Time| #[trigger]
                old(self).sums().contains(k as int) ==> final(self).witness(k) == old(self).witness(
                    k,
                ),
            forall|k: Time| #[trigger]
                final(self).sums().contains(k as int) && !old(self).sums().contains(k as int) ==> k
                    >= value && old(self).sums().contains(k - value) && final(self).witness(k) == old(
                    self,
                ).witness((k - value) as Time).push(value),
    {
        let ghost old_added = self.added@;
        let ghost new_added = old_added.push(value);
        proof {
            assert(new_added.drop_last() =~= old_added);
            lemma_subset_sums_bounded(old_added);
            vstd::seq_lib::to_multiset_build(old_added, value);
            assert forall|k: Time| #[trigger] self.sums@.contains_key(k) implies self.sums@[k]@.to_multiset().subset_of(
                new_added.to_multiset(),
            ) by {
                let wm = self.sums@[k]@.to_multiset();
                assert(wm.subset_of(old_added.to_multiset()));
                assert forall|a: Time| wm.count(a) <= new_added.to_multiset().count(a) by {
                    assert(wm.count(a) <= old_added.to_multiset().count(a));
                }
            }
        }
        let ghost old_map = self.sums@;
        let n = self.keys.len();
        let mut i: usize = 0;
        while i < n
            invariant
                n <= self.keys@.len(),
                old(self).keys@ == self.keys@.subrange(0, n as int),
                old(self).wf(),
                old_map == old(self).sums@,
                old_added == old(self).added@,
                new_added == old_added.push(value),
                self.added@ == old_added,
                seq_sum(old_added) + value <= u32::MAX,
                forall|x: int| subset_sums(old_added).contains(x) ==> 0 <= x <= seq_sum(old_added),
                0 <= i <= n,
                forall|k: Time| #[trigger]
                    old_map.contains_key(k) ==> self.sums@.contains_key(k) && self.sums@[k]
                        == old_map[k],
                forall|k: Time| #[trigger]
                    self.sums@.contains_key(k) ==> old_map.contains_key(k) || (k >= value
                        && old_map.contains_key((k - value) as Time) && self.sums@[k]@
                        == old_map[(k - value) as Time]@.push(value)),
                forall|j: int|
                    0 <= j < i ==> self.sums@.contains_key(
                        (#[trigger] self.keys@[j] + value) as Time,
                    ),
                forall|k: Time| #[trigger]
                    self.sums@.contains_key(k) ==> {
                        &&& seq_sum(self.sums@[k]@) == k
                        &&& self.sums@[k]@.to_multiset().subset_of(new_added.to_multiset())
                    },
                forall|j: int| 0 <= j < self.keys@.len() ==> self.sums@.contains_key(#[trigger] self.keys@[j]),
                forall|k: Time| #[trigger] self.sums@.contains_key(k) ==> self.keys@.contains(k),
            decreases n - i,
        {
            let s = self.keys[i];
            proof {
                assert(self.keys@[i as int] == old(self).keys@[i as int]);
                assert(old_map.contains_key(s));
                assert(subset_sums(old_added).contains(s as int));
            }
            let new_sum = s + value;
            if !self.sums.contains_key(&new_sum) {
                let mut new_values = match self.sums.get(&s) {
                    Some(v) => copy_vec(v),
                    None => Vec::new(),
                };
                new_values.push(value);
                proof {
                    let w = old_map[s]@;
                    assert(new_values@ =~= w.push(value));
                    assert(w.to_multiset().subset_of(old_added.to_multiset()));
                    vstd::seq_lib::to_multiset_build(w, value);
                    vstd::seq_lib::to_multiset_build(old_added, value);
                    let wm = new_values@.to_multiset();
                    assert(wm == w.to_multiset().insert(value));
                    assert(new_added.to_multiset() == old_added.to_multiset().insert(value));
                    assert forall|a: Time| wm.count(a) <= new_added.to_multiset().count(a) by {
                        assert(w.to_multiset().count(a) <= old_added.to_multiset().count(a));
                        if a == value {
                            assert(wm.count(a) == w.to_multiset().count(a) + 1);
                            assert(new_added.to_multiset().count(a) == old_added.to_multiset().count(a) + 1);
                        } else {
                            assert(wm.count(a) == w.to_multiset().count(a));
                            assert(new_added.to_multiset().count(a) == old_added.to_multiset().count(a));
                        }
                    }
                    assert(seq_sum(new_values@) == seq_sum(w) + value) by {
                        assert(new_values@.drop_last() =~= w);
                    }
                }
                let ghost kb = self.keys@;
                let ghost sb = self.sums@;
                self.sums.insert(new_sum, new_values);
                self.keys.push(new_sum);
                proof {
                    assert(self.keys@.last() == new_sum);
                    assert forall|k: Time| #[trigger] self.sums@.contains_key(k) implies self.keys@.contains(k) by {
                        if k == new_sum {
                            assert(self.keys@[self.keys@.len() - 1] == k);
                        } else {
                            let prev = kb;
                            assert(sb.contains_key(k));
                            assert(prev.contains(k));
                            let j = choose|j: int| 0 <= j < prev.len() && prev[j] == k;
                            assert(self.keys@[j] == k);
                        }
                    }
                }
            }
            proof {
                assert forall|j: int| 0 <= j < i + 1 implies self.sums@.contains_key(
                    (#[trigger] self.keys@[j] + value) as Time,
                ) by {
                    assert(self.keys@[j] == old(self).keys@[j]);
                }
                assert(old(self).keys@ =~= self.keys@.subrange(0, n as int));
            }
            i += 1;
        }
        self.added = Ghost(new_added);
        proof {
            assert forall|k: Time| #[trigger]
                self.sums().contains(k as int) && !old(self).sums().contains(k as int) implies k
                >= value && old(self).sums().contains(k - value) && self.witness(k) == old(
                self,
            ).witness((k - value) as Time).push(value) by {
                assert(self.sums@.dom().contains(k));
                if old_map.contains_key(k) {
                    assert(old(self).sums().contains(k as int));
                }
                assert(old(self).sums@.dom().contains((k - value) as Time));
            }
            assert forall|x: int| #[trigger]
                subset_sums(new_added).contains(x) <==> 0 <= x <= u32::MAX
                    && self.sums@.contains_key(x as Time) by {
                if subset_sums(new_added).contains(x) {
                    if subset_sums(old_added).contains(x) {
                        assert(old_map.contains_key(x as Time));
                    } else {
                        assert(subset_sums(old_added).contains(x - value));
                        let y = (x - value) as Time;
                        assert(old_map.contains_key(y));
                        assert(old(self).keys@.contains(y));
                        let j = choose|j: int| 0 <= j < old(self).keys@.len() && old(self).keys@[j] == y;
                        assert(self.keys@[j] == y);
                    }
                }
                if 0 <= x <= u32::MAX && self.sums@.contains_key(x as Time) {
                    if !old_map.contains_key(x as Time) {
                        assert(old_map.contains_key((x - value) as Time));
                        assert(subset_sums(old_added).contains(x - value));
                    } else {
                        assert(subset_sums(old_added).contains(x));
                    }
                }
            }
            assert(seq_sum(new_added) == seq_sum(old_added) + value);
            self.lemma_inv_from_wf();
        }
    }

    /// Whether some sum in `lo..=hi` is reachable.
    pub fn contains_any(&self, lo: Time, hi: Time) -> (r: bool)
        requires
            self.inv(),
        ensures
            r == exists|x: int| lo <= x <= hi && #[trigger] self.sums().contains(x),
    {
        let mut x: u64 = lo as u64;
        while x <= hi as u64
            invariant
                self.inv(),
                lo <= x,
                x <= hi as int + 1 || x == lo,
                forall|y: int| lo <= y < x ==> !#[trigger] self.sums().contains(y),
            decreases hi as int + 1 - x,
        {
            if self.sums.contains_key(&(x as Time)) {
                proof {
                    assert(self.sums().contains(x as int));
                }
                return true;
            }
            proof {
                assert(!self.sums().contains(x as int)) by {
                    if self.sums().contains(x as int) {
                        let k = choose|k: Time| self.sums@.dom().contains(k) && k as int == x as int;
                        assert(k == x as Time);
                    }
                }
            }
            x += 1;
        }
        false
    }

    /// The values stored for the smallest reachable sum in `lo..=hi`.
    pub fn get_min_sum_values(&self, lo: Time, hi: Time) -> (r: Option<Vec<Time>>)
        requires
            self.inv(),
        ensures
            r is Some <==> exists|x: int| lo <= x <= hi && #[trigger] self.sums().contains(x),
            r matches Some(w) ==> {
                &&& lo <= seq_sum(w@) <= hi
                &&& self.sums().contains(seq_sum(w@))
                &&& forall|y: int| lo <= y < seq_sum(w@) ==> !#[trigger] self.sums().contains(y)
                &&& w@ == self.witness(seq_sum(w@) as Time)
                &&& w@.to_multiset().subset_of(self.values().to_multiset())
            },
    {
        let mut x: u64 = lo as u64;
        while x <= hi as u64
            invariant
                self.inv(),
                lo <= x,
                x <= hi as int + 1 || x == lo,
                forall|y: int| lo <= y < x ==> !#[trigger] self.sums().contains(y),
            decreases hi as int + 1 - x,
        {
            match self.sums.get(&(x as Time)) {
                Some(w) => {
                    proof {
                        assert(self.sums().contains(x as int));
                    }
                    return Some(copy_vec(w));
                },
                None => {},
            }
            proof {
                assert(!self.sums().contains(x as int)) by {
                    if self.sums().contains(x as int) {
                        let k = choose|k: Time| self.sums@.dom().contains(k) && k as int == x as int;
                        assert(k == x as Time);
                    }
                }
            }
            x += 1;
        }
        None
    }
}

pub proof fn lemma_seq_sum_push(s: Seq<Time>, v: Time)
    ensures
        seq_sum(s.push(v)) == seq_sum(s) + v,
{
    assert(s.push(v).drop_last() =~= s);
}

pub proof fn lemma_subset_sums_bounded(vals: Seq<Time>)
    ensures
        forall|x: int| subset_sums(vals).contains(x) ==> 0 <= x <= seq_sum(vals),
    decreases vals.len(),
{
    if vals.len() > 0 {
        let r = subset_sums(vals.drop_last());
        lemma_subset_sums_bounded(vals.drop_last());
        assert forall|x: int| subset_sums(vals).contains(x) implies 0 <= x <= seq_sum(vals) by {
            assert(r.contains(x) || r.contains(x - vals.last()));
        }
    }
}

/// The sums of `r` and of `r` plus `v`.
pub open spec fn extend_sums(r: Set<int>, v: Time) -> Set<int> {
    Set::new(|x: int| r.contains(x) || r.contains(x - v))
}

/// Any one value may be taken out and added back last.
pub proof fn lemma_subset_sums_remove(s: Seq<Time>, k: int)
    requires
        0 <= k < s.len(),
    ensures
        subset_sums(s) == extend_sums(subset_sums(s.remove(k)), s[k]),
    decreases s.len(),
{
    if k == s.len() - 1 {
        assert(s.remove(k) =~= s.drop_last());
        assert(subset_sums(s) =~= extend_sums(subset_sums(s.remove(k)), s[k]));
    } else {
        let d = s.drop_last();
        lemma_subset_sums_remove(d, k);
        assert(d.remove(k) =~= s.remove(k).drop_last());
        assert(s.remove(k).last() == s.last());
        assert(s.remove(k).len() > 0);
        let x0 = subset_sums(d.remove(k));
        assert(subset_sums(s.remove(k)) == extend_sums(x0, s.last()));
        assert(subset_sums(s) =~= extend_sums(subset_sums(s.remove(k)), s[k]));
    }
}

/// The subset sums of values do not depend on their order.
pub proof fn lemma_subset_sums_perm(a: Seq<Time>, b: Seq<Time>)
    requires
        a.to_multiset() == b.to_multiset(),
    ensures
        subset_sums(a) == subset_sums(b),
    decreases a.len(),
{
    broadcast use vstd::seq_lib::group_to_multiset_ensures;

    if a.len() == 0 {
        assert(b.to_multiset().len() == 0);
        assert(b =~= Seq::<Time>::empty());
    } else {
        let x = a.last();
        assert(a.contains(x)) by {
            assert(a[a.len() - 1] == x);
        }
        assert(a.to_multiset().count(x) > 0);
        assert(b.contains(x));
        let k = choose|k: int| 0 <= k < b.len() && b[k] == x;
        assert(a.drop_last() =~= a.remove(a.len() - 1));
        assert(a.drop_last().to_multiset() == b.remove(k).to_multiset());
        lemma_subset_sums_perm(a.drop_last(), b.remove(k));
        lemma_subset_sums_remove(b, k);
    }
}

} // verus!
