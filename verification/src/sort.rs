//! Stable ordering by tick, as `slice::sort_by_key` on the tick orders.

use vstd::prelude::*;

verus! {

/// Something that happened at a tick.
pub trait Ticked: Sized {
    spec fn key(&self) -> int;

    fn tick(&self) -> (t: i32)
        ensures
            t as int == self.key(),
    ;
}

/// `x` inserted into `s` after every element whose tick is at most its own.
pub open spec fn stable_insert<T: Ticked>(s: Seq<T>, x: T) -> Seq<T>
    decreases s.len(),
{
    if s.len() == 0 {
        seq![x]
    } else if s.last().key() <= x.key() {
        s.push(x)
    } else {
        stable_insert(s.drop_last(), x).push(s.last())
    }
}

/// The elements ordered by tick, those with equal ticks in the order they
/// were given.
pub open spec fn stable_sort<T: Ticked>(s: Seq<T>) -> Seq<T>
    decreases s.len(),
{
    if s.len() == 0 {
        Seq::empty()
    } else {
        stable_insert(stable_sort(s.drop_last()), s.last())
    }
}

/// Ticks never decrease along the sequence.
pub open spec fn tick_sorted<T: Ticked>(s: Seq<T>) -> bool {
    forall|i: int, j: int| 0 <= i <= j < s.len() ==> s[i].key() <= s[j].key()
}

/// Inserting where the scan from the end stops.
proof fn lemma_insert_at<T: Ticked>(s: Seq<T>, x: T, j: int)
    requires
        0 <= j <= s.len(),
        forall|k: int| j <= k < s.len() ==> #[trigger] s[k].key() > x.key(),
        j == 0 || s[j - 1].key() <= x.key(),
    ensures
        stable_insert(s, x) == s.take(j).push(x) + s.skip(j),
    decreases s.len(),
{
    if s.len() == 0 {
        assert(s.take(j).push(x) + s.skip(j) =~= seq![x]);
    } else if j == s.len() {
        assert(s.take(j).push(x) + s.skip(j) =~= s.push(x));
    } else {
        lemma_insert_at(s.drop_last(), x, j);
        assert(s.drop_last().take(j) =~= s.take(j));
        assert((s.take(j).push(x) + s.drop_last().skip(j)).push(s.last()) =~= s.take(j).push(x) + s.skip(j));
    }
}

/// Order `v` by tick, keeping the given order among equal ticks.
pub fn sort_by_tick<T: Ticked>(v: Vec<T>) -> (out: Vec<T>)
    ensures
        out@ == stable_sort(v@),
{
    let ghost orig = v@;
    let mut input = v;
    let mut out: Vec<T> = Vec::new();
    let mut i: usize = 0;
    let n = input.len();
    proof {
        assert(orig.take(0) =~= Seq::<T>::empty());
        assert(input@ =~= orig.skip(0));
    }
    while input.len() > 0
        invariant
            n == orig.len(),
            i <= n,
            input@ == orig.skip(i as int),
            out@ == stable_sort(orig.take(i as int)),
        decreases input.len(),
    {
        let x = input.remove(0);
        let xt = x.tick();
        let mut j = out.len();
        while j > 0 && out[j - 1].tick() > xt
            invariant
                j <= out@.len(),
                xt as int == x.key(),
                forall|k: int| j <= k < out@.len() ==> #[trigger] out@[k].key() > x.key(),
            decreases j,
        {
            j = j - 1;
        }
        proof {
            if j > 0 {
                assert(out@[j - 1].key() <= x.key());
            }
            lemma_insert_at(out@, x, j as int);
            assert(orig.take(i + 1).drop_last() =~= orig.take(i as int));
            assert(orig.take(i + 1).last() == x);
        }
        let ghost before = out@;
        out.insert(j, x);
        proof {
            assert(out@ =~= before.take(j as int).push(x) + before.skip(j as int));
        }
        i = i + 1;
        proof {
            assert(input@ =~= orig.skip(i as int));
        }
    }
    proof {
        assert(orig.take(i as int) =~= orig);
    }
    out
}

/// Sorting commutes with a map that keeps ticks.
pub proof fn lemma_sort_map<T: Ticked, U: Ticked>(s: Seq<T>, f: spec_fn(T) -> U)
    requires
        forall|x: T| #[trigger] f(x).key() == x.key(),
    ensures
        stable_sort(s).map_values(f) == stable_sort(s.map_values(f)),
    decreases s.len(),
{
    if s.len() > 0 {
        lemma_sort_map(s.drop_last(), f);
        assert(s.map_values(f).drop_last() =~= s.drop_last().map_values(f));
        lemma_insert_map(stable_sort(s.drop_last()), s.last(), f);
    } else {
        assert(stable_sort(s).map_values(f) =~= Seq::<U>::empty());
    }
}

proof fn lemma_insert_map<T: Ticked, U: Ticked>(s: Seq<T>, x: T, f: spec_fn(T) -> U)
    requires
        forall|y: T| #[trigger] f(y).key() == y.key(),
    ensures
        stable_insert(s, x).map_values(f) == stable_insert(s.map_values(f), f(x)),
    decreases s.len(),
{
    if s.len() == 0 {
        assert(stable_insert(s, x).map_values(f) =~= seq![f(x)]);
    } else {
        assert(f(s.last()).key() == s.last().key());
        assert(f(x).key() == x.key());
        assert(s.map_values(f).last() == f(s.last()));
        if s.last().key() <= x.key() {
            assert(s.push(x).map_values(f) =~= s.map_values(f).push(f(x)));
        } else {
            lemma_insert_map(s.drop_last(), x, f);
            assert(s.map_values(f).drop_last() =~= s.drop_last().map_values(f));
            assert(stable_insert(s.drop_last(), x).push(s.last()).map_values(f) =~= stable_insert(
                s.drop_last(),
                x,
            ).map_values(f).push(f(s.last())));
        }
    }
}

/// Sorting keeps the number of elements.
pub proof fn lemma_sort_len<T: Ticked>(s: Seq<T>)
    ensures
        stable_sort(s).len() == s.len(),
    decreases s.len(),
{
    if s.len() > 0 {
        lemma_sort_len(s.drop_last());
        lemma_insert_len(stable_sort(s.drop_last()), s.last());
    }
}

proof fn lemma_insert_len<T: Ticked>(s: Seq<T>, x: T)
    ensures
        stable_insert(s, x).len() == s.len() + 1,
    decreases s.len(),
{
    if s.len() > 0 && s.last().key() > x.key() {
        lemma_insert_len(s.drop_last(), x);
    }
}


/// Every element's tick is at most `k`.
pub open spec fn all_at_most<T: Ticked>(s: Seq<T>, k: int) -> bool {
    forall|i: int| 0 <= i < s.len() ==> #[trigger] s[i].key() <= k
}

proof fn lemma_insert_bound<T: Ticked>(s: Seq<T>, x: T, k: int)
    requires
        all_at_most(s, k),
        x.key() <= k,
    ensures
        all_at_most(stable_insert(s, x), k),
    decreases s.len(),
{
    if s.len() > 0 && s.last().key() > x.key() {
        lemma_insert_bound(s.drop_last(), x, k);
        let r = stable_insert(s.drop_last(), x);
        assert forall|i: int| 0 <= i < r.push(s.last()).len() implies #[trigger] r.push(s.last())[i].key() <= k by {
            if i < r.len() {
                assert(r.push(s.last())[i] == r[i]);
            }
        }
    } else if s.len() > 0 {
        assert forall|i: int| 0 <= i < s.push(x).len() implies #[trigger] s.push(x)[i].key() <= k by {
            if i < s.len() {
                assert(s.push(x)[i] == s[i]);
            }
        }
    }
}

proof fn lemma_insert_sorted<T: Ticked>(s: Seq<T>, x: T)
    requires
        tick_sorted(s),
    ensures
        tick_sorted(stable_insert(s, x)),
    decreases s.len(),
{
    if s.len() == 0 {
    } else if s.last().key() <= x.key() {
        let r = s.push(x);
        assert forall|i: int, j: int| 0 <= i <= j < r.len() implies r[i].key() <= r[j].key() by {
            if j == s.len() && i < s.len() {
                assert(s[i].key() <= s[s.len() - 1].key());
            }
        }
    } else {
        let d = s.drop_last();
        assert(tick_sorted(d));
        lemma_insert_sorted(d, x);
        assert(all_at_most(d, s.last().key()));
        lemma_insert_bound(d, x, s.last().key());
        let r = stable_insert(d, x);
        assert forall|i: int, j: int| 0 <= i <= j < r.push(s.last()).len() implies r.push(s.last())[i].key()
            <= r.push(s.last())[j].key() by {
            if j == r.len() && i < r.len() {
                assert(r.push(s.last())[i] == r[i]);
            } else if j < r.len() {
                assert(r.push(s.last())[i] == r[i]);
                assert(r.push(s.last())[j] == r[j]);
            }
        }
    }
}

proof fn lemma_insert_multiset<T: Ticked>(s: Seq<T>, x: T)
    ensures
        stable_insert(s, x).to_multiset() == s.to_multiset().insert(x),
    decreases s.len(),
{
    broadcast use vstd::seq_lib::group_to_multiset_ensures;
    if s.len() == 0 {
        assert(seq![x] =~= Seq::<T>::empty().push(x));
    } else if s.last().key() <= x.key() {
    } else {
        let d = s.drop_last();
        lemma_insert_multiset(d, x);
        assert(d.push(s.last()) =~= s);
        assert(stable_insert(d, x).push(s.last()).to_multiset() =~= d.to_multiset().insert(x).insert(s.last()));
        assert(s.to_multiset() =~= d.to_multiset().insert(s.last()));
    }
}

/// Sorting by tick orders the elements by tick and keeps exactly the
/// elements it was given (as a multiset).
pub proof fn lemma_sort_sorted_permutation<T: Ticked>(s: Seq<T>)
    ensures
        tick_sorted(stable_sort(s)),
        stable_sort(s).to_multiset() == s.to_multiset(),
    decreases s.len(),
{
    broadcast use vstd::seq_lib::group_to_multiset_ensures;
    if s.len() == 0 {
        assert(s =~= Seq::<T>::empty());
    } else {
        lemma_sort_sorted_permutation(s.drop_last());
        lemma_insert_sorted(stable_sort(s.drop_last()), s.last());
        lemma_insert_multiset(stable_sort(s.drop_last()), s.last());
        assert(s.drop_last().push(s.last()) =~= s);
    }
}


/// The elements whose tick is `k`, in order.
pub open spec fn with_tick<T: Ticked>(s: Seq<T>, k: int) -> Seq<T> {
    s.filter(|x: T| x.key() == k)
}

proof fn lemma_insert_stable<T: Ticked>(s: Seq<T>, x: T, k: int)
    ensures
        with_tick(stable_insert(s, x), k) == if x.key() == k {
            with_tick(s, k).push(x)
        } else {
            with_tick(s, k)
        },
    decreases s.len(),
{
    reveal(Seq::filter);
    let pred = |y: T| y.key() == k;
    if s.len() == 0 {
        assert(seq![x].drop_last() =~= s);
        assert(seq![x].last() == x);
    } else if s.last().key() <= x.key() {
        assert(s.push(x).drop_last() =~= s);
        assert(s.push(x).last() == x);
    } else {
        let d = s.drop_last();
        lemma_insert_stable(d, x, k);
        let r = stable_insert(d, x);
        assert(r.push(s.last()).drop_last() =~= r);
        assert(r.push(s.last()).last() == s.last());
        if x.key() == k {
            assert(s.last().key() != k);
        }
    }
}

/// Sorting by tick is stable: the elements of any one tick come out in the
/// order they were given.
pub proof fn lemma_sort_stable<T: Ticked>(s: Seq<T>, k: int)
    ensures
        with_tick(stable_sort(s), k) == with_tick(s, k),
    decreases s.len(),
{
    reveal(Seq::filter);
    if s.len() > 0 {
        lemma_sort_stable(s.drop_last(), k);
        lemma_insert_stable(stable_sort(s.drop_last()), s.last(), k);
    }
}

} // verus!
