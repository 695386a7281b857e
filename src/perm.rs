use vstd::multiset::Multiset;
use vstd::prelude::*;

verus! {

broadcast use vstd::seq_lib::group_to_multiset_ensures;

/// Multiset sum of `f` over the elements of `s`.
pub open spec fn msum<A, B>(s: Seq<A>, f: spec_fn(A) -> Multiset<B>) -> Multiset<B>
    decreases s.len(),
{
    if s.len() == 0 {
        Multiset::empty()
    } else {
        msum(s.drop_last(), f).add(f(s.last()))
    }
}

/// Sum of `f` over the elements of `s`.
pub open spec fn isum<A>(s: Seq<A>, f: spec_fn(A) -> int) -> int
    decreases s.len(),
{
    if s.len() == 0 {
        0
    } else {
        isum(s.drop_last(), f) + f(s.last())
    }
}

pub proof fn lemma_msum_concat<A, B>(a: Seq<A>, b: Seq<A>, f: spec_fn(A) -> Multiset<B>)
    ensures
        msum(a + b, f) == msum(a, f).add(msum(b, f)),
    decreases b.len(),
{
    if b.len() == 0 {
        assert(a + b =~= a);
        assert(msum(a, f).add(Multiset::empty()) =~= msum(a, f));
    } else {
        assert((a + b).drop_last() =~= a + b.drop_last());
        lemma_msum_concat(a, b.drop_last(), f);
        assert(msum(a + b, f) =~= msum(a, f).add(msum(b, f)));
    }
}

pub proof fn lemma_isum_concat<A>(a: Seq<A>, b: Seq<A>, f: spec_fn(A) -> int)
    ensures
        isum(a + b, f) == isum(a, f) + isum(b, f),
    decreases b.len(),
{
    if b.len() == 0 {
        assert(a + b =~= a);
    } else {
        assert((a + b).drop_last() =~= a + b.drop_last());
        lemma_isum_concat(a, b.drop_last(), f);
    }
}

pub proof fn lemma_msum_remove<A, B>(s: Seq<A>, i: int, f: spec_fn(A) -> Multiset<B>)
    requires
        0 <= i < s.len(),
    ensures
        msum(s.remove(i), f).add(f(s[i])) == msum(s, f),
{
    let a = s.subrange(0, i);
    let b = s.subrange(i + 1, s.len() as int);
    assert(s.remove(i) =~= a + b);
    assert(s =~= a + seq![s[i]] + b);
    lemma_msum_concat(a, b, f);
    lemma_msum_concat(a + seq![s[i]], b, f);
    lemma_msum_concat(a, seq![s[i]], f);
    let one = seq![s[i]];
    assert(one.drop_last() =~= Seq::<A>::empty());
    assert(one.last() == s[i]);
    assert(msum(one, f) == msum(one.drop_last(), f).add(f(s[i])));
    assert(Multiset::<B>::empty().add(f(s[i])) =~= f(s[i]));
    assert(msum(s.remove(i), f).add(f(s[i])) =~= msum(s, f));
}

pub proof fn lemma_isum_remove<A>(s: Seq<A>, i: int, f: spec_fn(A) -> int)
    requires
        0 <= i < s.len(),
    ensures
        isum(s.remove(i), f) + f(s[i]) == isum(s, f),
{
    let a = s.subrange(0, i);
    let b = s.subrange(i + 1, s.len() as int);
    assert(s.remove(i) =~= a + b);
    assert(s =~= a + seq![s[i]] + b);
    lemma_isum_concat(a, b, f);
    lemma_isum_concat(a + seq![s[i]], b, f);
    lemma_isum_concat(a, seq![s[i]], f);
    let one = seq![s[i]];
    assert(one.drop_last() =~= Seq::<A>::empty());
    assert(one.last() == s[i]);
    assert(isum(one, f) == isum(one.drop_last(), f) + f(s[i]));
}

pub proof fn lemma_msum_update<A, B>(s: Seq<A>, i: int, v: A, f: spec_fn(A) -> Multiset<B>)
    requires
        0 <= i < s.len(),
    ensures
        msum(s.update(i, v), f).add(f(s[i])) == msum(s, f).add(f(v)),
{
    let u = s.update(i, v);
    lemma_msum_remove(s, i, f);
    lemma_msum_remove(u, i, f);
    assert(u.remove(i) =~= s.remove(i));
    assert(msum(u, f).add(f(s[i])) =~= msum(s, f).add(f(v)));
}

pub proof fn lemma_isum_update<A>(s: Seq<A>, i: int, v: A, f: spec_fn(A) -> int)
    requires
        0 <= i < s.len(),
    ensures
        isum(s.update(i, v), f) + f(s[i]) == isum(s, f) + f(v),
{
    let u = s.update(i, v);
    lemma_isum_remove(s, i, f);
    lemma_isum_remove(u, i, f);
    assert(u.remove(i) =~= s.remove(i));
}

/// A sum over a sequence does not depend on the order of its elements.
pub proof fn lemma_msum_perm<A, B>(a: Seq<A>, b: Seq<A>, f: spec_fn(A) -> Multiset<B>)
    requires
        a.to_multiset() == b.to_multiset(),
    ensures
        msum(a, f) == msum(b, f),
    decreases a.len(),
{
    if a.len() == 0 {
        assert(b.to_multiset().len() == 0);
        assert(b =~= Seq::<A>::empty());
    } else {
        let x = a.last();
        assert(a.to_multiset().count(x) > 0) by {
            assert(a.contains(x)) by {
                assert(a[a.len() - 1] == x);
            }
        }
        assert(b.contains(x));
        let k = choose|k: int| 0 <= k < b.len() && b[k] == x;
        assert(a.drop_last() =~= a.remove(a.len() - 1));
        assert(a.drop_last().to_multiset() == b.remove(k).to_multiset());
        lemma_msum_perm(a.drop_last(), b.remove(k), f);
        lemma_msum_remove(b, k, f);
    }
}

pub proof fn lemma_isum_perm<A>(a: Seq<A>, b: Seq<A>, f: spec_fn(A) -> int)
    requires
        a.to_multiset() == b.to_multiset(),
    ensures
        isum(a, f) == isum(b, f),
    decreases a.len(),
{
    if a.len() == 0 {
        assert(b.to_multiset().len() == 0);
        assert(b =~= Seq::<A>::empty());
    } else {
        let x = a.last();
        assert(a.to_multiset().count(x) > 0) by {
            assert(a.contains(x)) by {
                assert(a[a.len() - 1] == x);
            }
        }
        assert(b.contains(x));
        let k = choose|k: int| 0 <= k < b.len() && b[k] == x;
        assert(a.drop_last() =~= a.remove(a.len() - 1));
        assert(a.drop_last().to_multiset() == b.remove(k).to_multiset());
        lemma_isum_perm(a.drop_last(), b.remove(k), f);
        lemma_isum_remove(b, k, f);
    }
}

/// Two sequences hold the same elements as often when they are the same
/// sequence up to a rearrangement of `a[lo..hi]`.
pub proof fn lemma_perm_window<A>(a: Seq<A>, b: Seq<A>, lo: int, hi: int)
    requires
        0 <= lo <= hi <= a.len(),
        a.len() == b.len(),
        forall|i: int| 0 <= i < lo ==> a[i] == b[i],
        forall|i: int| hi <= i < a.len() ==> a[i] == b[i],
        a.subrange(lo, hi).to_multiset() == b.subrange(lo, hi).to_multiset(),
    ensures
        a.to_multiset() == b.to_multiset(),
{
    broadcast use vstd::seq_lib::lemma_multiset_commutative;

    assert(a =~= a.subrange(0, lo) + a.subrange(lo, hi) + a.subrange(hi, a.len() as int));
    assert(b =~= b.subrange(0, lo) + b.subrange(lo, hi) + b.subrange(hi, b.len() as int));
    assert(a.subrange(0, lo) =~= b.subrange(0, lo));
    assert(a.subrange(hi, a.len() as int) =~= b.subrange(hi, b.len() as int));
    assert((a.subrange(0, lo) + a.subrange(lo, hi)).to_multiset() =~= (b.subrange(0, lo)
        + b.subrange(lo, hi)).to_multiset());
}

/// A sum of singletons has as many elements as the sequence.
pub proof fn lemma_msum_singleton_len<A, B>(s: Seq<A>, f: spec_fn(A) -> Multiset<B>)
    requires
        forall|x: A| #[trigger] f(x).len() == 1,
    ensures
        msum(s, f).len() == s.len(),
    decreases s.len(),
{
    if s.len() > 0 {
        lemma_msum_singleton_len(s.drop_last(), f);
    }
}

/// What `msum` counts comes from some element.
pub proof fn lemma_msum_count<A, B>(s: Seq<A>, f: spec_fn(A) -> Multiset<B>, y: B)
    requires
        msum(s, f).count(y) > 0,
    ensures
        exists|i: int| 0 <= i < s.len() && #[trigger] f(s[i]).count(y) > 0,
    decreases s.len(),
{
    if s.len() > 0 {
        if f(s.last()).count(y) > 0 {
            assert(f(s[s.len() - 1]).count(y) > 0);
        } else {
            lemma_msum_count(s.drop_last(), f, y);
            let i = choose|i: int| 0 <= i < s.drop_last().len() && #[trigger] f(s.drop_last()[i]).count(y) > 0;
            assert(s[i] == s.drop_last()[i]);
        }
    }
}

} // verus!
