//! Draw-and-swap assignment: draw a remaining element uniformly, take it out of
//! the pool by moving the pool's last element into its place, and deal the draws
//! to the groups round-robin.
use crate::draw::draw_below;
use crate::groups::{
    bag_of, ceil_div, copy_items, empty_groups, is_balanced, is_partition_of, lemma_empty_groups,
    lemma_push_at, new_groups, total_len, view_groups,
};
use vstd::multiset::Multiset;
use vstd::prelude::*;

verus! {

/// The size of group `g` after `i` draws dealt round-robin to `k` groups.
pub open spec fn dealt_size(i: nat, k: nat, g: int) -> nat {
    i / k + if g < i % k {
        1nat
    } else {
        0nat
    }
}

/// The groups and the pool of elements not yet drawn after the first `i` draws.
pub open spec fn select_prefix<A>(items: Seq<A>, k: nat, draws: Seq<usize>, i: nat) -> (Seq<Seq<A>>, Seq<A>)
    decreases i,
{
    if i == 0 {
        (empty_groups(k), items)
    } else {
        let p = (i - 1) as nat;
        let (gs, pool) = select_prefix(items, k, draws, p);
        let r = draws[p as int] as int;
        let g = (p % k) as int;
        (gs.update(g, gs[g].push(pool[r])), pool.update(r, pool.last()).drop_last())
    }
}

/// The result of draw-and-swap assignment of `items` to `k` groups with the given
/// draws; for `k == 0`, one group that holds `items` as they are.
pub open spec fn select_spread<A>(items: Seq<A>, k: nat, draws: Seq<usize>) -> Seq<Seq<A>> {
    if k == 0 {
        seq![items]
    } else {
        select_prefix(items, k, draws, items.len()).0
    }
}

/// Draws that `select_by_draws` accepts: one per element, the `i`-th below the
/// number of elements still in the pool, `n - i`.
pub open spec fn valid_select_draws(n: nat, k: nat, draws: Seq<usize>) -> bool {
    k > 0 ==> (draws.len() == n && forall|i: int| 0 <= i < n ==> #[trigger] draws[i] < n - i)
}

/// One more draw adds one to group `i % k` and leaves the others as they are.
proof fn lemma_dealt_step(i: nat, k: nat, g: int)
    requires
        k > 0,
        0 <= g < k,
    ensures
        dealt_size(i + 1, k, g) == dealt_size(i, k, g) + if g == i % k {
            1nat
        } else {
            0nat
        },
{
    let q = i / k;
    let m = i % k;
    vstd::arithmetic::div_mod::lemma_fundamental_div_mod(i as int, k as int);
    if m + 1 < k {
        vstd::arithmetic::div_mod::lemma_fundamental_div_mod_converse((i + 1) as int, k as int, q as int, (m + 1) as int);
    } else {
        assert(i + 1 == (q + 1) * k) by (nonlinear_arith)
            requires
                i == k * q + m,
                m + 1 == k,
        ;
        vstd::arithmetic::div_mod::lemma_fundamental_div_mod_converse((i + 1) as int, k as int, (q + 1) as int, 0);
    }
}

/// What holds of the groups and the pool after the first `i` draws.
proof fn lemma_select_prefix<A>(items: Seq<A>, k: nat, draws: Seq<usize>, i: nat)
    requires
        k > 0,
        i <= items.len(),
        valid_select_draws(items.len(), k, draws),
    ensures
        select_prefix(items, k, draws, i).0.len() == k,
        select_prefix(items, k, draws, i).1.len() == items.len() - i,
        bag_of(select_prefix(items, k, draws, i).0).add(select_prefix(items, k, draws, i).1.to_multiset())
            == items.to_multiset(),
        total_len(select_prefix(items, k, draws, i).0) == i,
        forall|g: int|
            0 <= g < k ==> #[trigger] select_prefix(items, k, draws, i).0[g].len() == dealt_size(i, k, g),
    decreases i,
{
    broadcast use vstd::seq_lib::group_to_multiset_ensures;
    broadcast use vstd::seq_lib::to_multiset_update;

    if i == 0 {
        lemma_empty_groups::<A>(k);
        assert(bag_of(empty_groups::<A>(k)).add(items.to_multiset()) =~= items.to_multiset());
        assert forall|g: int| 0 <= g < k implies #[trigger] empty_groups::<A>(k)[g].len() == dealt_size(0, k, g) by {
            assert(0nat / k == 0 && 0nat % k == 0) by (nonlinear_arith)
                requires
                    k > 0,
            ;
        }
    } else {
        let p = (i - 1) as nat;
        lemma_select_prefix(items, k, draws, p);
        let (gs, pool) = select_prefix(items, k, draws, p);
        let r = draws[p as int] as int;
        let g = (p % k) as int;
        assert(pool.len() == items.len() - p);
        let x = pool[r];
        let last = pool.last();
        let upd = pool.update(r, last);
        let rest = upd.drop_last();
        lemma_push_at(gs, g, x);
        // the pool loses `x`
        assert(upd =~= rest.push(last));
        assert(rest.push(last).to_multiset() == rest.to_multiset().insert(last));
        assert(upd.to_multiset() == pool.to_multiset().insert(last).remove(x));
        assert(pool.to_multiset().count(x) > 0);
        assert forall|v: A| #[trigger] rest.to_multiset().count(v) == pool.to_multiset().remove(x).count(v) by {
            assert(rest.to_multiset().insert(last).count(v) == pool.to_multiset().insert(last).remove(x).count(v));
        }
        assert(rest.to_multiset() =~= pool.to_multiset().remove(x));
        assert(bag_of(gs).insert(x).add(rest.to_multiset()) =~= bag_of(gs).add(pool.to_multiset()));
        assert forall|h: int| 0 <= h < k implies #[trigger] select_prefix(items, k, draws, i).0[h].len()
            == dealt_size(i, k, h) by {
            lemma_dealt_step(p, k, h);
        }
    }
}

/// The groups of `select_spread` are balanced, partition `items`, and group `g`
/// holds `dealt_size(n, k, g)` elements.
proof fn lemma_select_spread<A>(items: Seq<A>, k: nat, draws: Seq<usize>)
    requires
        k > 0,
        valid_select_draws(items.len(), k, draws),
    ensures
        is_balanced(select_spread(items, k, draws), items.len(), k),
        is_partition_of(select_spread(items, k, draws), items),
        forall|g: int|
            0 <= g < k ==> #[trigger] select_spread(items, k, draws)[g].len() == dealt_size(
                items.len(),
                k,
                g,
            ),
{
    broadcast use vstd::seq_lib::group_to_multiset_ensures;

    let n = items.len();
    lemma_select_prefix(items, k, draws, n);
    let (gs, pool) = select_prefix(items, k, draws, n);
    assert(pool.to_multiset() =~= Multiset::<A>::empty());
    assert(bag_of(gs).add(pool.to_multiset()) =~= bag_of(gs));
    assert forall|g: int| 0 <= g < k implies n / k <= #[trigger] gs[g].len() <= ceil_div(n, k) by {
        if n % k == 0 {
            assert(!(g < n % k));
        }
    }
}

/// Draw-and-swap assignment of `arr` to `k` groups: the `i`-th draw takes the
/// element at position `draws[i]` of the pool, moves the pool's last element into
/// its place, and goes to group `i % k`. With `k == 0` the result is one group
/// holding `arr` unchanged.
pub fn select_by_draws(arr: &Vec<String>, k: usize, draws: &Vec<usize>) -> (r: Vec<Vec<String>>)
    requires
        valid_select_draws(arr@.len(), k as nat, draws@),
    ensures
        view_groups(r@) == select_spread(arr@, k as nat, draws@),
        k == 0 ==> view_groups(r@) == seq![arr@],
        k > 0 && arr@.len() == 0 ==> view_groups(r@) == empty_groups::<String>(k as nat),
        k > 0 ==> is_balanced(view_groups(r@), arr@.len(), k as nat),
        k > 0 ==> is_partition_of(view_groups(r@), arr@),
        k > 0 ==> forall|g: int|
            0 <= g < k ==> #[trigger] r@[g]@.len() == dealt_size(arr@.len(), k as nat, g),
{
    if k == 0 {
        let mut single: Vec<Vec<String>> = Vec::new();
        single.push(copy_items(arr));
        assert(view_groups(single@) =~= seq![arr@]);
        return single;
    }
    proof {
        lemma_select_spread(arr@, k as nat, draws@);
    }
    let n = arr.len();
    let mut groups = new_groups(k);
    let mut pool = copy_items(arr);
    let mut i: usize = 0;
    while i < n
        invariant
            0 < k,
            n == arr.len(),
            i <= n,
            valid_select_draws(n as nat, k as nat, draws@),
            groups@.len() == k,
            view_groups(groups@) == select_prefix(arr@, k as nat, draws@, i as nat).0,
            pool@ == select_prefix(arr@, k as nat, draws@, i as nat).1,
        decreases n - i,
    {
        proof {
            lemma_select_prefix(arr@, k as nat, draws@, i as nat);
        }
        let drawn = pool.swap_remove(draws[i]);
        groups[i % k].push(drawn);
        assert(view_groups(groups@) =~= select_prefix(arr@, k as nat, draws@, (i + 1) as nat).0);
        i += 1;
    }
    assert(view_groups(groups@) == select_spread(arr@, k as nat, draws@));
    assert forall|g: int| 0 <= g < k implies #[trigger] groups@[g]@.len() == dealt_size(n as nat, k as nat, g) by {
        assert(groups@[g]@ == view_groups(groups@)[g]);
    }
    groups
}

/// Splits `arr` into `k` groups whose sizes differ by at most one: elements are
/// drawn at random from those not yet drawn and dealt round-robin, so the first
/// `n % k` groups get `n / k + 1` elements and the others `n / k`. With `k == 0`
/// the result is one group holding `arr` unchanged.
pub fn rand_group_select(arr: &Vec<String>, k: usize) -> (r: Vec<Vec<String>>)
    ensures
        exists|draws: Seq<usize>|
            valid_select_draws(arr@.len(), k as nat, draws) && view_groups(r@) == select_spread(
                arr@,
                k as nat,
                draws,
            ),
        k == 0 ==> view_groups(r@) == seq![arr@],
        k > 0 && arr@.len() == 0 ==> view_groups(r@) == empty_groups::<String>(k as nat),
        k > 0 ==> is_balanced(view_groups(r@), arr@.len(), k as nat),
        k > 0 ==> is_partition_of(view_groups(r@), arr@),
        k > 0 ==> forall|g: int|
            0 <= g < k ==> #[trigger] r@[g]@.len() == dealt_size(arr@.len(), k as nat, g),
{
    let mut draws: Vec<usize> = Vec::new();
    if k > 0 {
        let n = arr.len();
        let mut rng = rand::thread_rng();
        let mut i: usize = 0;
        while i < n
            invariant
                i <= n,
                draws@.len() == i,
                forall|p: int| 0 <= p < i ==> #[trigger] draws@[p] < n - p,
            decreases n - i,
        {
            draws.push(draw_below(&mut rng, n - i));
            i += 1;
        }
    }
    let r = select_by_draws(arr, k, &draws);
    assert(valid_select_draws(arr@.len(), k as nat, draws@));
    r
}

} // verus!
