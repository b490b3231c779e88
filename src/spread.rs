//! Capacity-bounded random assignment: each element, in input order, goes to a
//! drawn group, or to the next group after it (wrapping) that is below its ceiling.
use crate::draw::draw_below;
use crate::groups::{
    bag_of, ceil_div, copy_items, empty_groups, new_groups, is_balanced, is_partition_of, lemma_ceil_div, lemma_empty_groups,
    lemma_push_at, lemma_total_at_least, lemma_total_at_most, total_len, view_groups,
};
use vstd::multiset::Multiset;
use vstd::prelude::*;

verus! {

/// The ceiling of every group while placing the element at position `i` of `n`:
/// one below the high size for the first `k * (ceil(n / k) - 1)` elements, the
/// high size after them.
pub open spec fn cap_at(n: nat, k: nat, i: nat) -> int {
    let hi = ceil_div(n, k) as int;
    if i < k * (hi - 1) {
        hi - 1
    } else {
        hi
    }
}

/// The group `d` steps after `start`, wrapping, is below `cap`.
pub open spec fn is_open<A>(gs: Seq<Seq<A>>, cap: int, start: int, d: int) -> bool {
    gs[(start + d) % (gs.len() as int)].len() < cap
}

/// `d` is the fewest steps from `start` to a group below `cap`.
pub open spec fn is_first_open<A>(gs: Seq<Seq<A>>, cap: int, start: int, d: int) -> bool {
    &&& 0 <= d < gs.len()
    &&& is_open(gs, cap, start, d)
    &&& forall|e: int| 0 <= e < d ==> !is_open(gs, cap, start, e)
}

/// The group that receives an element drawn at `start` under ceiling `cap`.
pub open spec fn probe_target<A>(gs: Seq<Seq<A>>, cap: int, start: int) -> int {
    let d = choose|d: int| is_first_open(gs, cap, start, d);
    (start + d) % (gs.len() as int)
}

/// The groups after `x` is placed by a draw of `start` under ceiling `cap`.
pub open spec fn place<A>(gs: Seq<Seq<A>>, cap: int, start: int, x: A) -> Seq<Seq<A>> {
    let j = probe_target(gs, cap, start);
    gs.update(j, gs[j].push(x))
}

/// The groups after the first `i` elements of `items` are placed, the element at
/// position `p` with draw `draws[p]`.
pub open spec fn spread_prefix<A>(items: Seq<A>, k: nat, draws: Seq<usize>, i: nat) -> Seq<Seq<A>>
    decreases i,
{
    if i == 0 {
        empty_groups(k)
    } else {
        let p = (i - 1) as nat;
        place(spread_prefix(items, k, draws, p), cap_at(items.len(), k, p), draws[p as int] as int, items[p as int])
    }
}

/// The result of capacity-bounded assignment of `items` to `k` groups with the
/// given draws; for `k == 0`, one group that holds `items` as they are.
pub open spec fn spread<A>(items: Seq<A>, k: nat, draws: Seq<usize>) -> Seq<Seq<A>> {
    if k == 0 {
        seq![items]
    } else {
        spread_prefix(items, k, draws, items.len())
    }
}

/// Draws that `group_by_draws` accepts: one per element, each below `k`.
pub open spec fn valid_group_draws(n: nat, k: nat, draws: Seq<usize>) -> bool {
    k > 0 ==> (draws.len() == n && forall|i: int| 0 <= i < n ==> #[trigger] draws[i] < k)
}

/// A group below `cap` can be reached from `start`, and a fewest number of steps exists.
proof fn lemma_first_open_exists<A>(gs: Seq<Seq<A>>, cap: int, start: int, d: int)
    requires
        0 <= d < gs.len(),
        is_open(gs, cap, start, d),
    ensures
        exists|m: int| is_first_open(gs, cap, start, m),
    decreases d,
{
    if exists|e: int| 0 <= e < d && is_open(gs, cap, start, e) {
        let e = choose|e: int| 0 <= e < d && is_open(gs, cap, start, e);
        lemma_first_open_exists(gs, cap, start, e);
    } else {
        assert(is_first_open(gs, cap, start, d));
    }
}

/// If some group is below `cap`, `probe_target` is the first such group from `start`.
proof fn lemma_probe_target<A>(gs: Seq<Seq<A>>, cap: int, start: int, g: int)
    requires
        0 <= start < gs.len(),
        0 <= g < gs.len(),
        gs[g].len() < cap,
    ensures
        exists|m: int| is_first_open(gs, cap, start, m),
        0 <= probe_target(gs, cap, start) < gs.len(),
        gs[probe_target(gs, cap, start)].len() < cap,
{
    let k = gs.len() as int;
    let d = if g >= start {
        g - start
    } else {
        g + k - start
    };
    assert((start + d) % k == g) by {
        if g >= start {
            vstd::arithmetic::div_mod::lemma_fundamental_div_mod_converse(start + d, k, 0, g);
        } else {
            vstd::arithmetic::div_mod::lemma_fundamental_div_mod_converse(start + d, k, 1, g);
        }
    }
    lemma_first_open_exists(gs, cap, start, d);
}

/// Before the element at position `p` is placed, some group is below its ceiling.
proof fn lemma_room<A>(items: Seq<A>, k: nat, draws: Seq<usize>, p: nat)
    requires
        k > 0,
        p < items.len(),
        valid_group_draws(items.len(), k, draws),
        spread_prefix(items, k, draws, p).len() == k,
        total_len(spread_prefix(items, k, draws, p)) == p,
    ensures
        exists|g: int|
            0 <= g < k && #[trigger] spread_prefix(items, k, draws, p)[g].len() < cap_at(
                items.len(),
                k,
                p,
            ),
{
    let n = items.len();
    let gs = spread_prefix(items, k, draws, p);
    let cap = cap_at(n, k, p);
    let hi = ceil_div(n, k) as int;
    lemma_ceil_div(n, k);
    if !(exists|g: int| 0 <= g < k && #[trigger] gs[g].len() < cap) {
        assert forall|g: int| 0 <= g < gs.len() implies #[trigger] gs[g].len() >= cap as nat by {}
        lemma_total_at_least(gs, cap as nat);
        if p < k * (hi - 1) {
            assert(k * cap == k * (hi - 1));
        } else {
            assert(k * cap >= n);
        }
    }
}

/// What holds of the groups after the first `i` of `n` elements are placed.
proof fn lemma_spread_prefix<A>(items: Seq<A>, k: nat, draws: Seq<usize>, i: nat)
    requires
        k > 0,
        items.len() > 0,
        i <= items.len(),
        valid_group_draws(items.len(), k, draws),
    ensures
        spread_prefix(items, k, draws, i).len() == k,
        bag_of(spread_prefix(items, k, draws, i)) == items.subrange(0, i as int).to_multiset(),
        total_len(spread_prefix(items, k, draws, i)) == i,
        forall|g: int|
            0 <= g < k ==> #[trigger] spread_prefix(items, k, draws, i)[g].len() <= cap_at(
                items.len(),
                k,
                if i == 0 {
                    0
                } else {
                    (i - 1) as nat
                },
            ),
        i >= k * (ceil_div(items.len(), k) - 1) ==> forall|g: int|
            0 <= g < k ==> #[trigger] spread_prefix(items, k, draws, i)[g].len() >= ceil_div(
                items.len(),
                k,
            ) - 1,
    decreases i,
{
    let n = items.len();
    let hi = ceil_div(n, k) as int;
    lemma_ceil_div(n, k);
    let bound = k * (hi - 1);
    if i == 0 {
        lemma_empty_groups::<A>(k);
        assert(items.subrange(0, 0).to_multiset() =~= Multiset::<A>::empty()) by {
            broadcast use vstd::seq_lib::group_to_multiset_ensures;

        }
        if 0 >= bound {
            assert(hi - 1 <= 0) by (nonlinear_arith)
                requires
                    k > 0,
                    k * (hi - 1) <= 0,
            ;
        }
    } else {
        let p = (i - 1) as nat;
        let gs = spread_prefix(items, k, draws, p);
        lemma_spread_prefix(items, k, draws, p);
        let cap = cap_at(n, k, p);
        assert forall|g: int| 0 <= g < k implies #[trigger] gs[g].len() <= cap by {}
        lemma_room(items, k, draws, p);
        let g0 = choose|g: int| 0 <= g < k && gs[g].len() < cap;
        let start = draws[p as int] as int;
        lemma_probe_target(gs, cap, start, g0);
        let j = probe_target(gs, cap, start);
        lemma_push_at(gs, j, items[p as int]);
        assert(items.subrange(0, i as int) =~= items.subrange(0, p as int).push(items[p as int]));
        assert(items.subrange(0, i as int).to_multiset() =~= items.subrange(0, p as int).to_multiset().insert(items[p as int])) by {
            broadcast use vstd::seq_lib::group_to_multiset_ensures;

        }
        let hs = spread_prefix(items, k, draws, i);
        assert(hs == gs.update(j, gs[j].push(items[p as int])));
        if i >= bound {
            assert forall|g: int| 0 <= g < k implies #[trigger] hs[g].len() >= hi - 1 by {
                if p >= bound {
                    assert(gs[g].len() >= hi - 1);
                } else {
                    assert(i == bound);
                    assert forall|h: int| 0 <= h < hs.len() implies #[trigger] hs[h].len() <= (hi - 1) as nat by {}
                    lemma_total_at_most(hs, (hi - 1) as nat);
                }
            }
        }
    }
}

/// The groups of `spread` are balanced and partition `items`.
proof fn lemma_spread<A>(items: Seq<A>, k: nat, draws: Seq<usize>)
    requires
        k > 0,
        valid_group_draws(items.len(), k, draws),
    ensures
        is_balanced(spread(items, k, draws), items.len(), k),
        is_partition_of(spread(items, k, draws), items),
{
    let n = items.len();
    let gs = spread(items, k, draws);
    if n == 0 {
        lemma_empty_groups::<A>(k);
        assert(items.to_multiset() =~= Multiset::<A>::empty()) by {
            broadcast use vstd::seq_lib::group_to_multiset_ensures;

        }
        assert(0nat / k == 0) by (nonlinear_arith)
            requires
                k > 0,
        ;
    } else {
        let hi = ceil_div(n, k);
        lemma_ceil_div(n, k);
        lemma_spread_prefix(items, k, draws, n);
        assert(items.subrange(0, n as int) =~= items);
        assert forall|g: int| 0 <= g < k implies #[trigger] gs[g].len() <= hi by {}
        if n % k == 0 {
            lemma_total_at_most(gs, hi);
        }
        assert forall|g: int| 0 <= g < k implies n / k <= #[trigger] gs[g].len() <= ceil_div(n, k) by {
            if n % k == 0 {
                assert(gs[g].len() == hi);
            }
        }
    }
}

/// One step forward from `(start + d) % k`, wrapping, is `(start + d + 1) % k`.
proof fn lemma_step_mod(x: int, k: int)
    requires
        k > 0,
        x >= 0,
    ensures
        (x + 1) % k == (x % k + 1) % k,
{
    let q = x / k;
    let r = x % k;
    vstd::arithmetic::div_mod::lemma_fundamental_div_mod(x, k);
    if r + 1 < k {
        vstd::arithmetic::div_mod::lemma_fundamental_div_mod_converse(x + 1, k, q, r + 1);
        vstd::arithmetic::div_mod::lemma_fundamental_div_mod_converse(r + 1, k, 0, r + 1);
    } else {
        assert(x + 1 == (q + 1) * k) by (nonlinear_arith)
            requires
                x == k * q + r,
                r + 1 == k,
        ;
        vstd::arithmetic::div_mod::lemma_fundamental_div_mod_converse(x + 1, k, q + 1, 0);
        vstd::arithmetic::div_mod::lemma_fundamental_div_mod_converse(r + 1, k, 1, 0);
    }
}

/// The group that an element drawn at `start` goes to: the first group from
/// `start` on, wrapping, that holds fewer than `cap` elements.
fn probe(groups: &Vec<Vec<String>>, start: usize, cap: usize) -> (j: usize)
    requires
        start < groups.len(),
        exists|g: int| 0 <= g < groups.len() && #[trigger] groups@[g]@.len() < cap,
    ensures
        j == probe_target(view_groups(groups@), cap as int, start as int),
{
    let k = groups.len();
    let ghost gs = view_groups(groups@);
    proof {
        let g0 = choose|g: int| 0 <= g < groups.len() && #[trigger] groups@[g]@.len() < cap;
        lemma_probe_target(gs, cap as int, start as int, g0);
    }
    let ghost m = choose|d: int| is_first_open(gs, cap as int, start as int, d);
    let mut r = start;
    let ghost mut d: int = 0;
    proof {
        vstd::arithmetic::div_mod::lemma_fundamental_div_mod_converse(start as int, k as int, 0, start as int);
    }
    while groups[r].len() >= cap
        invariant
            k == groups.len(),
            gs == view_groups(groups@),
            is_first_open(gs, cap as int, start as int, m),
            0 <= d <= m,
            r < k,
            r == (start + d) % (k as int),
            forall|e: int| 0 <= e < d ==> !is_open(gs, cap as int, start as int, e),
        decreases m - d,
    {
        assert(!is_open(gs, cap as int, start as int, d));
        proof {
            lemma_step_mod(start + d, k as int);
        }
        r = (r + 1) % k;
        proof {
            d = d + 1;
        }
    }
    assert(is_open(gs, cap as int, start as int, d));
    r
}

/// Capacity-bounded assignment of `arr` to `k` groups, element `i` drawn at
/// `draws[i]`. With `k == 0` the result is one group holding `arr` unchanged.
pub fn group_by_draws(arr: &Vec<String>, k: usize, draws: &Vec<usize>) -> (r: Vec<Vec<String>>)
    requires
        valid_group_draws(arr@.len(), k as nat, draws@),
    ensures
        view_groups(r@) == spread(arr@, k as nat, draws@),
        k == 0 ==> view_groups(r@) == seq![arr@],
        k > 0 && arr@.len() == 0 ==> view_groups(r@) == empty_groups::<String>(k as nat),
        k > 0 ==> is_balanced(view_groups(r@), arr@.len(), k as nat),
        k > 0 ==> is_partition_of(view_groups(r@), arr@),
{
    if k == 0 {
        let mut single: Vec<Vec<String>> = Vec::new();
        single.push(copy_items(arr));
        assert(view_groups(single@) =~= seq![arr@]);
        return single;
    }
    proof {
        lemma_spread(arr@, k as nat, draws@);
    }
    let n = arr.len();
    let mut groups = new_groups(k);
    if n == 0 {
        return groups;
    }
    proof {
        lemma_ceil_div(n as nat, k as nat);
    }
    let hi: usize = if n % k == 0 {
        n / k
    } else {
        n / k + 1
    };
    let bound: usize = k * (hi - 1);
    let mut i: usize = 0;
    while i < n
        invariant
            0 < k,
            n == arr.len(),
            i <= n,
            valid_group_draws(n as nat, k as nat, draws@),
            hi == ceil_div(n as nat, k as nat),
            hi >= 1,
            bound == k * (hi - 1),
            view_groups(groups@) == spread_prefix(arr@, k as nat, draws@, i as nat),
        decreases n - i,
    {
        let cap: usize = if i < bound {
            hi - 1
        } else {
            hi
        };
        assert(cap == cap_at(n as nat, k as nat, i as nat));
        proof {
            lemma_spread_prefix(arr@, k as nat, draws@, i as nat);
            lemma_room(arr@, k as nat, draws@, i as nat);
            let g = choose|g: int|
                0 <= g < k && #[trigger] spread_prefix(arr@, k as nat, draws@, i as nat)[g].len() < cap_at(
                    n as nat,
                    k as nat,
                    i as nat,
                );
            assert(groups@[g]@.len() < cap);
        }
        let j = probe(&groups, draws[i], cap);
        let ghost before = view_groups(groups@);
        groups[j].push(arr[i].clone());
        assert(view_groups(groups@) =~= place(before, cap as int, draws@[i as int] as int, arr@[i as int]));
        i += 1;
    }
    groups
}

/// Splits `arr` into `k` groups whose sizes differ by at most one, placing each
/// element in a randomly drawn group, or in the next group after it that is not
/// yet full. With `k == 0` the result is one group holding `arr` unchanged.
pub fn rand_group(arr: &Vec<String>, k: usize) -> (r: Vec<Vec<String>>)
    ensures
        exists|draws: Seq<usize>|
            valid_group_draws(arr@.len(), k as nat, draws) && view_groups(r@) == spread(
                arr@,
                k as nat,
                draws,
            ),
        k == 0 ==> view_groups(r@) == seq![arr@],
        k > 0 && arr@.len() == 0 ==> view_groups(r@) == empty_groups::<String>(k as nat),
        k > 0 ==> is_balanced(view_groups(r@), arr@.len(), k as nat),
        k > 0 ==> is_partition_of(view_groups(r@), arr@),
{
    let mut draws: Vec<usize> = Vec::new();
    if k > 0 {
        let mut rng = rand::thread_rng();
        let mut i: usize = 0;
        while i < arr.len()
            invariant
                k > 0,
                i <= arr.len(),
                draws@.len() == i,
                forall|p: int| 0 <= p < i ==> #[trigger] draws@[p] < k,
            decreases arr.len() - i,
        {
            draws.push(draw_below(&mut rng, k));
            i += 1;
        }
    }
    let r = group_by_draws(arr, k, &draws);
    assert(valid_group_draws(arr@.len(), k as nat, draws@));
    r
}

} // verus!
