use std::collections::HashMap;
use vstd::prelude::*;

verus! {

broadcast use vstd::std_specs::hash::group_hash_axioms;

/// A hash of a name: its characters read as the digits of a number in base
/// 31, modulo 2^64.
pub open spec fn name_hash(s: Seq<char>) -> u64
    decreases s.len(),
{
    if s.len() == 0 {
        0
    } else {
        ((name_hash(s.drop_last()) as int * 31 + (s.last() as u32) as int) % 0x1_0000_0000_0000_0000) as u64
    }
}

/// The hash of `s`.
pub fn hash_chars(s: &Vec<char>) -> (r: u64)
    ensures
        r == name_hash(s@),
{
    let mut h: u64 = 0;
    let mut i: usize = 0;
    while i < s.len()
        invariant
            0 <= i <= s@.len(),
            h == name_hash(s@.subrange(0, i as int)),
        decreases s@.len() - i,
    {
        proof {
            assert(s@.subrange(0, i as int + 1).drop_last() =~= s@.subrange(0, i as int));
            assert(s@.subrange(0, i as int + 1).last() == s@[i as int]);
        }
        let x: u128 = h as u128;
        let c: u32 = s[i] as u32;
        proof {
            let prev = s@.subrange(0, i as int);
            let next = s@.subrange(0, i as int + 1);
            assert(c == s@[i as int] as u32);
            assert(name_hash(next) == ((name_hash(next.drop_last()) as int * 31 + (
            next.last() as u32) as int) % 0x1_0000_0000_0000_0000) as u64);
        }
        proof {
            assert(x * 31 <= 0xffff_ffff_ffff_ffff * 31) by (nonlinear_arith)
                requires
                    x <= 0xffff_ffff_ffff_ffff,
            ;
        }
        h = ((x * 31 + c as u128) % 0x1_0000_0000_0000_0000u128) as u64;
        i += 1;
    }
    proof {
        assert(s@.subrange(0, s@.len() as int) =~= s@);
    }
    h
}

/// The views of a vector of names.
pub open spec fn views(names: Seq<Vec<char>>) -> Seq<Seq<char>> {
    names.map_values(|n: Vec<char>| n@)
}

/// The street ids of each name hash, for finding a street by its name.
pub struct NameIndex {
    pub buckets: HashMap<u64, Vec<usize>>,
}

impl NameIndex {
    /// Every id in a bucket is a name of that hash, and every name is in
    /// the bucket of its hash.
    pub open spec fn indexes(&self, names: Seq<Seq<char>>) -> bool {
        &&& forall|h: u64, k: int|
            #![trigger self.buckets@[h]@[k]]
            self.buckets@.contains_key(h) && 0 <= k < self.buckets@[h]@.len() ==> {
                &&& self.buckets@[h]@[k] < names.len()
                &&& name_hash(names[self.buckets@[h]@[k] as int]) == h
            }
        &&& forall|j: int|
            #![trigger names[j]]
            0 <= j < names.len() ==> {
                &&& self.buckets@.contains_key(name_hash(names[j]))
                &&& self.buckets@[name_hash(names[j])]@.contains(j as usize)
            }
    }

    pub fn new(names: &Vec<Vec<char>>) -> (r: NameIndex)
        ensures
            r.indexes(views(names@)),
    {
        let ghost nv = views(names@);
        let mut buckets: HashMap<u64, Vec<usize>> = HashMap::new();
        let mut j: usize = 0;
        while j < names.len()
            invariant
                nv == views(names@),
                0 <= j <= names@.len(),
                forall|h: u64, k: int|
                    #![trigger buckets@[h]@[k]]
                    buckets@.contains_key(h) && 0 <= k < buckets@[h]@.len() ==> {
                        &&& buckets@[h]@[k] < j
                        &&& name_hash(nv[buckets@[h]@[k] as int]) == h
                    },
                forall|x: int|
                    0 <= x < j ==> buckets@.contains_key(name_hash(#[trigger] nv[x]))
                        && buckets@[name_hash(nv[x])]@.contains(x as usize),
            decreases names@.len() - j,
        {
            let h = hash_chars(&names[j]);
            proof {
                assert(nv[j as int] == names@[j as int]@);
            }
            let ghost before = buckets@;
            let bucket = match buckets.remove(&h) {
                Some(mut v) => {
                    v.push(j);
                    v
                },
                None => vec![j],
            };
            let ghost bv = bucket@;
            buckets.insert(h, bucket);
            proof {
                assert(bv.contains(j)) by {
                    assert(bv[bv.len() - 1] == j);
                }
                assert forall|h2: u64, k: int|
                    #![trigger buckets@[h2]@[k]]
                    buckets@.contains_key(h2) && 0 <= k < buckets@[h2]@.len() implies {
                    &&& buckets@[h2]@[k] < j + 1
                    &&& name_hash(nv[buckets@[h2]@[k] as int]) == h2
                } by {
                    if h2 != h {
                        assert(before.contains_key(h2));
                    } else if k < bv.len() - 1 {
                        assert(before.contains_key(h));
                        assert(bv[k] == before[h]@[k]);
                    }
                }
                assert forall|x: int|
                    0 <= x < j + 1 implies buckets@.contains_key(name_hash(#[trigger] nv[x]))
                    && buckets@[name_hash(nv[x])]@.contains(x as usize) by {
                    if x < j {
                        let hx = name_hash(nv[x]);
                        if hx == h {
                            let w = choose|w: int|
                                0 <= w < before[h]@.len() && before[h]@[w] == x as usize;
                            assert(bv[w] == x as usize);
                        }
                    }
                }
            }
            j += 1;
        }
        NameIndex { buckets }
    }

    /// The last of `names` equal to `name`.
    pub fn find_last(&self, names: &Vec<Vec<char>>, name: &Vec<char>) -> (r: Option<usize>)
        requires
            self.indexes(views(names@)),
        ensures
            match r {
                Some(j) => j < names@.len() && names@[j as int]@ == name@ && forall|j2: int|
                    j < j2 < names@.len() ==> names@[j2]@ != name@,
                None => forall|j: int| 0 <= j < names@.len() ==> names@[j]@ != name@,
            },
    {
        let ghost nv = views(names@);
        let num_names = names.len();
        let h = hash_chars(name);
        let bucket = match self.buckets.get(&h) {
            Some(b) => b,
            None => {
                proof {
                    assert forall|j: int| 0 <= j < names@.len() implies names@[j]@ != name@ by {
                        assert(nv[j] == names@[j]@);
                    }
                }
                return None;
            },
        };
        let mut best: Option<usize> = None;
        let mut k: usize = 0;
        while k < bucket.len()
            invariant
                nv == views(names@),
                num_names == names@.len(),
                self.indexes(nv),
                self.buckets@.contains_key(h),
                bucket == &self.buckets@[h],
                h == name_hash(name@),
                0 <= k <= bucket@.len(),
                best matches Some(j) ==> j < names@.len() && names@[j as int]@ == name@,
                forall|x: int|
                    0 <= x < k && names@[bucket@[x] as int]@ == name@ ==> (best matches Some(j)
                        && bucket@[x] <= j),
            decreases bucket@.len() - k,
        {
            let j = bucket[k];
            proof {
                assert(j < names@.len());
            }
            if same_chars(&names[j], name) {
                let better = match best {
                    Some(b) => j > b,
                    None => true,
                };
                if better {
                    best = Some(j);
                }
            }
            k += 1;
        }
        proof {
            assert forall|j2: int| 0 <= j2 < names@.len() && names@[j2]@ == name@ implies (best matches Some(
                j,
            ) && j2 <= j) by {
                assert(nv[j2] == names@[j2]@);
                assert(name_hash(nv[j2]) == h);
                lemma_in_bucket(self, nv, j2, h, bucket@);
                let w = choose|w: int| 0 <= w < bucket@.len() && bucket@[w] == j2 as usize;
                assert(names@[bucket@[w] as int]@ == name@);
            }
        }
        best
    }

    /// The first of `names` equal to `name`.
    pub fn find_first(&self, names: &Vec<Vec<char>>, name: &Vec<char>) -> (r: Option<usize>)
        requires
            self.indexes(views(names@)),
        ensures
            match r {
                Some(j) => j < names@.len() && names@[j as int]@ == name@ && forall|j2: int|
                    0 <= j2 < j ==> names@[j2]@ != name@,
                None => forall|j: int| 0 <= j < names@.len() ==> names@[j]@ != name@,
            },
    {
        let ghost nv = views(names@);
        let num_names = names.len();
        let h = hash_chars(name);
        let bucket = match self.buckets.get(&h) {
            Some(b) => b,
            None => {
                proof {
                    assert forall|j: int| 0 <= j < names@.len() implies names@[j]@ != name@ by {
                        assert(nv[j] == names@[j]@);
                    }
                }
                return None;
            },
        };
        let mut best: Option<usize> = None;
        let mut k: usize = 0;
        while k < bucket.len()
            invariant
                nv == views(names@),
                num_names == names@.len(),
                self.indexes(nv),
                self.buckets@.contains_key(h),
                bucket == &self.buckets@[h],
                h == name_hash(name@),
                0 <= k <= bucket@.len(),
                best matches Some(j) ==> j < names@.len() && names@[j as int]@ == name@,
                forall|x: int|
                    0 <= x < k && names@[bucket@[x] as int]@ == name@ ==> (best matches Some(j)
                        && j <= bucket@[x]),
            decreases bucket@.len() - k,
        {
            let j = bucket[k];
            proof {
                assert(j < names@.len());
            }
            if same_chars(&names[j], name) {
                let better = match best {
                    Some(b) => j < b,
                    None => true,
                };
                if better {
                    best = Some(j);
                }
            }
            k += 1;
        }
        proof {
            assert forall|j2: int| 0 <= j2 < names@.len() && names@[j2]@ == name@ implies (best matches Some(
                j,
            ) && j <= j2) by {
                assert(nv[j2] == names@[j2]@);
                assert(name_hash(nv[j2]) == h);
                lemma_in_bucket(self, nv, j2, h, bucket@);
                let w = choose|w: int| 0 <= w < bucket@.len() && bucket@[w] == j2 as usize;
                assert(names@[bucket@[w] as int]@ == name@);
            }
        }
        best
    }
}

proof fn lemma_in_bucket(idx: &NameIndex, names: Seq<Seq<char>>, j: int, h: u64, b: Seq<usize>)
    requires
        idx.indexes(names),
        0 <= j < names.len(),
        name_hash(names[j]) == h,
        b == idx.buckets@[h]@,
    ensures
        b.contains(j as usize),
{
    assert(idx.buckets@[name_hash(names[j])]@.contains(j as usize));
}

/// Whether two character vectors hold the same characters.
pub fn same_chars(a: &Vec<char>, b: &Vec<char>) -> (r: bool)
    ensures
        r == (a@ == b@),
{
    if a.len() != b.len() {
        return false;
    }
    let mut i: usize = 0;
    while i < a.len()
        invariant
            a@.len() == b@.len(),
            0 <= i <= a@.len(),
            forall|k: int| 0 <= k < i ==> a@[k] == b@[k],
        decreases a@.len() - i,
    {
        if a[i] != b[i] {
            return false;
        }
        i += 1;
    }
    proof {
        assert(a@ =~= b@);
    }
    true
}

} // verus!
