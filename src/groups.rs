//! The mathematical model of a grouping: each group as a sequence of elements,
//! the multiset union of the groups, their total size and the balance condition.
use vstd::multiset::Multiset;
use vstd::prelude::*;

verus! {

/// Each group of a vector of vectors, as the sequence of its elements.
pub open spec fn view_groups<A>(v: Seq<Vec<A>>) -> Seq<Seq<A>> {
    v.map_values(|g: Vec<A>| g@)
}

/// The number of elements over all groups.
pub open spec fn total_len<A>(gs: Seq<Seq<A>>) -> nat
    decreases gs.len(),
{
    if gs.len() == 0 {
        0
    } else {
        total_len(gs.drop_last()) + gs.last().len()
    }
}

/// The multiset union of the elements of all groups.
pub open spec fn bag_of<A>(gs: Seq<Seq<A>>) -> Multiset<A>
    decreases gs.len(),
{
    if gs.len() == 0 {
        Multiset::empty()
    } else {
        bag_of(gs.drop_last()).add(gs.last().to_multiset())
    }
}

/// `k` groups, all empty.
pub open spec fn empty_groups<A>(k: nat) -> Seq<Seq<A>> {
    Seq::new(k, |i: int| Seq::<A>::empty())
}

/// `n / k` rounded up.
pub open spec fn ceil_div(n: nat, k: nat) -> nat {
    if n % k == 0 {
        n / k
    } else {
        n / k + 1
    }
}

/// There are `k` groups and each holds `floor(n / k)` or `ceil(n / k)` elements.
pub open spec fn is_balanced<A>(gs: Seq<Seq<A>>, n: nat, k: nat) -> bool {
    &&& gs.len() == k
    &&& forall|g: int| 0 <= g < k ==> n / k <= #[trigger] gs[g].len() <= ceil_div(n, k)
}

/// Every element of `items` lies in exactly one group, as often as in `items`,
/// and the groups hold nothing else.
pub open spec fn is_partition_of<A>(gs: Seq<Seq<A>>, items: Seq<A>) -> bool {
    &&& bag_of(gs) == items.to_multiset()
    &&& total_len(gs) == items.len()
}

/// The number of groups that hold more than `size` elements.
pub open spec fn count_larger<A>(gs: Seq<Seq<A>>, size: nat) -> nat
    decreases gs.len(),
{
    if gs.len() == 0 {
        0
    } else {
        count_larger(gs.drop_last(), size) + if gs.last().len() > size {
            1nat
        } else {
            0nat
        }
    }
}

pub proof fn lemma_empty_groups<A>(k: nat)
    ensures
        bag_of(empty_groups::<A>(k)) == Multiset::<A>::empty(),
        total_len(empty_groups::<A>(k)) == 0,
    decreases k,
{
    if k > 0 {
        assert(empty_groups::<A>(k).drop_last() =~= empty_groups::<A>((k - 1) as nat));
        lemma_empty_groups::<A>((k - 1) as nat);
        assert(empty_groups::<A>(k).last().to_multiset() =~= Multiset::<A>::empty()) by {
            broadcast use vstd::seq_lib::group_to_multiset_ensures;

        }
        assert(bag_of(empty_groups::<A>(k)) =~= Multiset::<A>::empty());
    }
}

/// Appending `x` to group `j` adds `x` to the union and one to the total.
pub proof fn lemma_push_at<A>(gs: Seq<Seq<A>>, j: int, x: A)
    requires
        0 <= j < gs.len(),
    ensures
        bag_of(gs.update(j, gs[j].push(x))) == bag_of(gs).insert(x),
        total_len(gs.update(j, gs[j].push(x))) == total_len(gs) + 1,
    decreases gs.len(),
{
    broadcast use vstd::seq_lib::group_to_multiset_ensures;

    let hs = gs.update(j, gs[j].push(x));
    if j == gs.len() - 1 {
        assert(hs.drop_last() =~= gs.drop_last());
        assert(hs.last().to_multiset() =~= gs.last().to_multiset().insert(x));
        assert(bag_of(hs) =~= bag_of(gs).insert(x));
    } else {
        assert(hs.drop_last() =~= gs.drop_last().update(j, gs[j].push(x)));
        lemma_push_at(gs.drop_last(), j, x);
        assert(bag_of(hs) =~= bag_of(gs).insert(x));
    }
}

/// Groups of at most `c` elements hold at most `len * c` in all, and exactly that
/// only when each holds `c`.
pub proof fn lemma_total_at_most<A>(gs: Seq<Seq<A>>, c: nat)
    requires
        forall|g: int| 0 <= g < gs.len() ==> #[trigger] gs[g].len() <= c,
    ensures
        total_len(gs) <= gs.len() * c,
        total_len(gs) == gs.len() * c ==> forall|g: int|
            0 <= g < gs.len() ==> #[trigger] gs[g].len() == c,
    decreases gs.len(),
{
    if gs.len() > 0 {
        let m = gs.len() - 1;
        assert forall|g: int| 0 <= g < gs.drop_last().len() implies #[trigger] gs.drop_last()[g].len()
            <= c by {
            assert(gs.drop_last()[g] == gs[g]);
        }
        lemma_total_at_most(gs.drop_last(), c);
        assert(gs.len() * c == m * c + c) by (nonlinear_arith)
            requires
                m == gs.len() - 1,
        ;
        if total_len(gs) == gs.len() * c {
            assert forall|g: int| 0 <= g < gs.len() implies #[trigger] gs[g].len() == c by {
                if g < m {
                    assert(gs.drop_last()[g] == gs[g]);
                }
            }
        }
    }
}

/// Groups of at least `c` elements hold at least `len * c` in all.
pub proof fn lemma_total_at_least<A>(gs: Seq<Seq<A>>, c: nat)
    requires
        forall|g: int| 0 <= g < gs.len() ==> #[trigger] gs[g].len() >= c,
    ensures
        total_len(gs) >= gs.len() * c,
    decreases gs.len(),
{
    if gs.len() > 0 {
        let m = gs.len() - 1;
        assert forall|g: int| 0 <= g < gs.drop_last().len() implies #[trigger] gs.drop_last()[g].len()
            >= c by {
            assert(gs.drop_last()[g] == gs[g]);
        }
        lemma_total_at_least(gs.drop_last(), c);
        assert(gs.len() * c == m * c + c) by (nonlinear_arith)
            requires
                m == gs.len() - 1,
        ;
    }
}

/// Bounds of the high size: `k * (ceil - 1) < n <= k * ceil`.
pub proof fn lemma_ceil_div(n: nat, k: nat)
    requires
        k > 0,
        n > 0,
    ensures
        1 <= ceil_div(n, k) <= n,
        k * (ceil_div(n, k) - 1) < n,
        n <= k * ceil_div(n, k),
        n % k == 0 ==> n == k * ceil_div(n, k),
{
    let q = n / k;
    let r = n % k;
    vstd::arithmetic::div_mod::lemma_fundamental_div_mod(n as int, k as int);
    assert(n == k * q + r);
    if r == 0 {
        assert(q >= 1) by (nonlinear_arith)
            requires
                n == k * q,
                n > 0,
        ;
        assert(k * (q - 1) == k * q - k) by (nonlinear_arith);
    } else {
        assert(k * (q + 1) == k * q + k) by (nonlinear_arith);
    }
    let hi = ceil_div(n, k) as int;
    assert(hi - 1 <= k * (hi - 1)) by (nonlinear_arith)
        requires
            k >= 1,
            hi >= 1,
    ;
}

/// Groups of `lo` or `lo + 1` elements hold `len * lo` plus one for each larger group.
proof fn lemma_total_split<A>(gs: Seq<Seq<A>>, lo: nat)
    requires
        forall|g: int| 0 <= g < gs.len() ==> lo <= #[trigger] gs[g].len() <= lo + 1,
    ensures
        total_len(gs) == gs.len() * lo + count_larger(gs, lo),
    decreases gs.len(),
{
    if gs.len() > 0 {
        let m = gs.len() - 1;
        assert forall|g: int| 0 <= g < gs.drop_last().len() implies lo <= #[trigger] gs.drop_last()[g].len()
            <= lo + 1 by {
            assert(gs.drop_last()[g] == gs[g]);
        }
        lemma_total_split(gs.drop_last(), lo);
        assert(gs.len() * lo == m * lo + lo) by (nonlinear_arith)
            requires
                m == gs.len() - 1,
        ;
    }
}

/// When `k` divides `n`, every group of a balanced grouping of `n` elements holds
/// exactly `n / k` of them.
pub proof fn lemma_balanced_exact<A>(gs: Seq<Seq<A>>, n: nat, k: nat)
    requires
        k > 0,
        n % k == 0,
        is_balanced(gs, n, k),
    ensures
        forall|g: int| 0 <= g < k ==> #[trigger] gs[g].len() == n / k,
{
}

/// Every group of a balanced grouping of `n` elements holds `floor(n / k)` or one
/// more, and exactly `n % k` groups hold the larger size.
pub proof fn lemma_balanced_remainder<A>(gs: Seq<Seq<A>>, n: nat, k: nat)
    requires
        k > 0,
        is_balanced(gs, n, k),
        total_len(gs) == n,
    ensures
        forall|g: int| 0 <= g < k ==> n / k <= #[trigger] gs[g].len() <= n / k + 1,
        count_larger(gs, n / k) == n % k,
{
    lemma_total_split(gs, n / k);
    vstd::arithmetic::div_mod::lemma_fundamental_div_mod(n as int, k as int);
    assert(k * (n / k) == gs.len() * (n / k));
}

/// A balanced grouping of no elements is `k` empty groups.
pub proof fn lemma_balanced_empty<A>(gs: Seq<Seq<A>>, k: nat)
    requires
        k > 0,
        is_balanced(gs, 0, k),
    ensures
        gs == empty_groups::<A>(k),
{
    assert(0nat / k == 0 && 0nat % k == 0) by (nonlinear_arith)
        requires
            k > 0,
    ;
    assert forall|g: int| 0 <= g < k implies #[trigger] gs[g] == empty_groups::<A>(k)[g] by {
        assert(gs[g].len() == 0);
        assert(gs[g] =~= Seq::<A>::empty());
    }
    assert(gs =~= empty_groups::<A>(k));
}

/// A copy of `items`.
pub fn copy_items(items: &Vec<String>) -> (r: Vec<String>)
    ensures
        r@ == items@,
{
    let mut r: Vec<String> = Vec::new();
    let mut i: usize = 0;
    while i < items.len()
        invariant
            i <= items.len(),
            r@ == items@.subrange(0, i as int),
        decreases items.len() - i,
    {
        r.push(items[i].clone());
        i += 1;
    }
    r
}

/// `k` empty groups.
pub fn new_groups(k: usize) -> (r: Vec<Vec<String>>)
    ensures
        r@.len() == k,
        view_groups(r@) == empty_groups::<String>(k as nat),
{
    let mut r: Vec<Vec<String>> = Vec::new();
    let mut i: usize = 0;
    while i < k
        invariant
            i <= k,
            r@.len() == i,
            view_groups(r@) == empty_groups::<String>(i as nat),
        decreases k - i,
    {
        let ghost before = r@;
        let empty: Vec<String> = Vec::new();
        r.push(empty);
        i += 1;
        assert forall|j: int| 0 <= j < i implies #[trigger] view_groups(r@)[j] == empty_groups::<String>(
            i as nat,
        )[j] by {
            if j < i - 1 {
                assert(r@[j] == before[j]);
                assert(view_groups(before)[j] == empty_groups::<String>((i - 1) as nat)[j]);
            }
        }
        assert(view_groups(r@) =~= empty_groups::<String>(i as nat));
    }
    r
}

} // verus!
