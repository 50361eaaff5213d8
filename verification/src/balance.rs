//! Judging the load of the nodes: whether it is unbalanced, and what to move.
use crate::binary32::{
    lemma_fraction_in_binade, lemma_one, lemma_rounded_at_least, one_in_units, Binary32, Real32,
    ONE_MAGNITUDE,
};
use crate::cluster::{NodeMetrics, NodeStatus};
use crate::ordering::lemma_same_items;
use crate::rounding::{
    lemma_magnitude_equal_quotients, lemma_units_increase, nearest_even, INFINITE_MAGNITUDE,
};
use vstd::arithmetic::power2::{
    lemma2_to64, lemma_pow2_adds, lemma_pow2_pos, lemma_pow2_strictly_increases, pow2,
};
use vstd::prelude::*;

verus! {

/// The VRAM that counts as free: none where it is negative or not a number.
pub open spec fn free_vram(node: NodeMetrics) -> Real32 {
    node.available_vram_gb@.larger(Real32::zero())
}

/// The least free VRAM of an active node.
pub open spec fn least_free(metrics: Seq<NodeMetrics>) -> Real32
    decreases metrics.len(),
{
    if metrics.len() == 0 {
        Real32::largest()
    } else if metrics.last().status == NodeStatus::Active {
        least_free(metrics.drop_last()).smaller(free_vram(metrics.last()))
    } else {
        least_free(metrics.drop_last())
    }
}

/// The most free VRAM of an active node.
pub open spec fn most_free(metrics: Seq<NodeMetrics>) -> Real32
    decreases metrics.len(),
{
    if metrics.len() == 0 {
        Real32::zero()
    } else if metrics.last().status == NodeStatus::Active {
        most_free(metrics.drop_last()).larger(free_vram(metrics.last()))
    } else {
        most_free(metrics.drop_last())
    }
}

/// Whether a node is active.
pub open spec fn any_active(metrics: Seq<NodeMetrics>) -> bool {
    exists|i: int| 0 <= i < metrics.len() && (#[trigger] metrics[i]).status == NodeStatus::Active
}

/// The distance from one to the next larger value: VRAM up to it counts as none.
pub open spec fn negligible() -> Real32 {
    Real32::fraction(1, 0x80_0000)
}

/// How many times the least free VRAM the most is: without bound where the least is
/// negligible and the most is not zero.
pub open spec fn skew_ratio(least: Real32, most: Real32) -> Real32 {
    if least.at_most(negligible()) {
        if Real32::zero().below(most) {
            Real32::Infinite { negative: false }
        } else {
            Real32::count(1)
        }
    } else {
        most.over(least)
    }
}

/// Whether the load is unbalanced.
pub open spec fn is_unbalanced(metrics: Seq<NodeMetrics>, threshold: Real32) -> bool {
    any_active(metrics) && threshold.at_most(skew_ratio(least_free(metrics), most_free(metrics)))
}

/// How many times the least free VRAM of an active node the most is, where a node is active.
pub fn load_skew(metrics: &Vec<NodeMetrics>) -> (r: Option<Binary32>)
    ensures
        match r {
            Some(skew) => any_active(metrics@) && skew@ == skew_ratio(
                least_free(metrics@),
                most_free(metrics@),
            ),
            None => !any_active(metrics@),
        },
{
    let mut least: Binary32 = Binary32::largest();
    let mut most: Binary32 = Binary32::zero();
    let mut active: bool = false;
    let mut i: usize = 0;
    while i < metrics.len()
        invariant
            i <= metrics.len(),
            least@ == least_free(metrics@.take(i as int)),
            most@ == most_free(metrics@.take(i as int)),
            active == (exists|j: int|
                0 <= j < i && (#[trigger] metrics@[j]).status == NodeStatus::Active),
        decreases metrics.len() - i,
    {
        assert(metrics@.take(i + 1).drop_last() =~= metrics@.take(i as int));
        if metrics[i].status == NodeStatus::Active {
            let free: Binary32 = metrics[i].available_vram_gb.max(Binary32::zero());
            least = least.min(free);
            most = most.max(free);
            active = true;
            assert(metrics@[i as int].status == NodeStatus::Active);
        }
        i = i + 1;
    }
    assert(metrics@.take(i as int) =~= metrics@);
    if !active {
        return None;
    }
    if least.le(Binary32::fraction(1, 0x80_0000)) {
        if Binary32::zero().lt(most) {
            Some(Binary32::infinity())
        } else {
            Some(Binary32::from_count(1))
        }
    } else {
        Some(most.div(least))
    }
}

/// Whether the load is unbalanced: the ratio of free VRAM reaches the threshold.
pub fn needs_rebalance(metrics: &Vec<NodeMetrics>, threshold: Binary32) -> (r: bool)
    ensures
        r == is_unbalanced(metrics@, threshold@),
{
    match load_skew(metrics) {
        Some(skew) => threshold.le(skew),
        None => false,
    }
}

/// Less than a fifth of the node's VRAM is free.
pub open spec fn is_overloaded(node: NodeMetrics) -> bool {
    node.status == NodeStatus::Active && node.available_vram_gb@.below(
        node.total_vram_gb@.times(Real32::fraction(2, 10)),
    )
}

/// More than half of the node's VRAM is free.
pub open spec fn is_underloaded(node: NodeMetrics) -> bool {
    node.status == NodeStatus::Active && !is_overloaded(node) && node.total_vram_gb@.times(
        Real32::fraction(5, 10),
    ).below(node.available_vram_gb@)
}

/// The position of the first underloaded node of another name with the most free VRAM,
/// more than none; -1 where there is no such node.
pub open spec fn best_target(metrics: Seq<NodeMetrics>, source: Seq<char>) -> int
    decreases metrics.len(),
{
    if metrics.len() == 0 {
        -1
    } else {
        let best = best_target(metrics.drop_last(), source);
        let most = target_vram(metrics, best);
        let node = metrics.last();
        if is_underloaded(node) && node.name@ != source && most.below(node.available_vram_gb@) {
            metrics.len() - 1
        } else {
            best
        }
    }
}

/// The free VRAM of the node at a position, and none without a node.
pub open spec fn target_vram(metrics: Seq<NodeMetrics>, position: int) -> Real32 {
    if position < 0 {
        Real32::zero()
    } else {
        metrics[position].available_vram_gb@
    }
}

/// The transfers from the overloaded nodes among the first `n`, at most `limit`: each to
/// the best target, where there is one.
pub open spec fn transfers(metrics: Seq<NodeMetrics>, n: int, limit: nat) -> Seq<
    (Seq<char>, Seq<char>),
>
    decreases n,
{
    if n <= 0 {
        Seq::empty()
    } else {
        let before = transfers(metrics, n - 1, limit);
        let node = metrics[n - 1];
        let target = best_target(metrics, node.name@);
        if before.len() < limit && is_overloaded(node) && target >= 0 {
            before.push((node.name@, metrics[target].name@))
        } else {
            before
        }
    }
}

/// The texts of a list of transfers.
pub open spec fn transfers_view(list: Seq<(String, String)>) -> Seq<(Seq<char>, Seq<char>)> {
    list.map_values(|t: (String, String)| (t.0@, t.1@))
}

fn overloaded(node: &NodeMetrics) -> (r: bool)
    ensures
        r == is_overloaded(*node),
{
    node.status == NodeStatus::Active && node.available_vram_gb.lt(
        node.total_vram_gb.mul(Binary32::fraction(2, 10)),
    )
}

fn underloaded(node: &NodeMetrics) -> (r: bool)
    ensures
        r == is_underloaded(*node),
{
    node.status == NodeStatus::Active && !overloaded(node) && node.total_vram_gb.mul(
        Binary32::fraction(5, 10),
    ).lt(node.available_vram_gb)
}

/// The best target among the nodes at the given positions.
fn find_target(metrics: &Vec<NodeMetrics>, candidates: &Vec<usize>, source: &String) -> (r: Option<
    usize,
>)
    requires
        lists_underloaded(metrics@, candidates@, metrics@.len() as int),
    ensures
        match r {
            Some(p) => p < metrics.len() && p == best_target(metrics@, source@),
            None => best_target(metrics@, source@) < 0,
        },
{
    let mut best: Option<usize> = None;
    let mut most: Binary32 = Binary32::zero();
    let mut k: usize = 0;
    let ghost mut seen: int = 0;
    assert(metrics@.take(0) =~= Seq::empty());
    while k < candidates.len()
        invariant
            k <= candidates.len(),
            lists_underloaded(metrics@, candidates@, metrics@.len() as int),
            seen == (if k == 0 {
                0
            } else {
                candidates@[k - 1] + 1
            }),
            0 <= seen <= metrics.len(),
            match best {
                Some(p) => p < seen && p == best_target(metrics@.take(seen), source@),
                None => best_target(metrics@.take(seen), source@) == -1,
            },
            most@ == target_vram(metrics@, best_target(metrics@.take(seen), source@)),
        decreases candidates.len() - k,
    {
        let p: usize = candidates[k];
        proof {
            assert(candidates@[k as int] < metrics.len());
            if k > 0 {
                assert(candidates@[k - 1] < candidates@[k as int]);
            }
            assert forall|j: int| seen <= j < p implies !is_underloaded(#[trigger] metrics@[j]) by {
                lemma_between_listed(metrics@, candidates@, metrics@.len() as int, k as int, j);
            }
            lemma_skip_candidates(metrics@, seen, p as int, source@);
            assert(metrics@.take(p + 1).drop_last() =~= metrics@.take(p as int));
            lemma_best_target_range(metrics@.take(p as int), source@);
        }
        let node: &NodeMetrics = &metrics[p];
        if node.name != *source && most.lt(node.available_vram_gb) {
            most = node.available_vram_gb;
            best = Some(p);
        }
        proof {
            seen = p + 1;
        }
        k = k + 1;
    }
    proof {
        assert forall|j: int| seen <= j < metrics.len() implies !is_underloaded(
            #[trigger] metrics@[j],
        ) by {
            lemma_between_listed(metrics@, candidates@, metrics@.len() as int, k as int, j);
        }
        lemma_skip_candidates(metrics@, seen, metrics.len() as int, source@);
        assert(metrics@.take(metrics.len() as int) =~= metrics@);
    }
    best
}

/// The positions of the underloaded nodes among the first `n`, in ascending order.
spec fn lists_underloaded(metrics: Seq<NodeMetrics>, positions: Seq<usize>, n: int) -> bool {
    &&& forall|k: int|
        #![trigger positions[k]]
        0 <= k < positions.len() ==> positions[k] < n && is_underloaded(
            metrics[positions[k] as int],
        )
    &&& forall|k: int, l: int|
        #![trigger positions[k], positions[l]]
        0 <= k < l < positions.len() ==> positions[k] < positions[l]
    &&& forall|j: int|
        0 <= j < n && is_underloaded(#[trigger] metrics[j]) ==> exists|k: int|
            0 <= k < positions.len() && #[trigger] positions[k] == j
}

/// A position between two listed ones is not listed.
proof fn lemma_between_listed(
    metrics: Seq<NodeMetrics>,
    positions: Seq<usize>,
    n: int,
    k: int,
    j: int,
)
    requires
        lists_underloaded(metrics, positions, n),
        0 <= k <= positions.len(),
        0 <= j < n,
        k > 0 ==> positions[k - 1] < j,
        k < positions.len() ==> j < positions[k],
    ensures
        !is_underloaded(metrics[j]),
{
    if is_underloaded(metrics[j]) {
        let l = choose|l: int| 0 <= l < positions.len() && #[trigger] positions[l] == j;
        if l < k - 1 {
            assert(positions[l] < positions[k - 1]);
        } else if l > k {
            assert(positions[k] < positions[l]);
        }
    }
}

/// Nodes that are not underloaded do not change the best target.
proof fn lemma_skip_candidates(metrics: Seq<NodeMetrics>, a: int, b: int, source: Seq<char>)
    requires
        0 <= a <= b <= metrics.len(),
        forall|j: int| a <= j < b ==> !is_underloaded(#[trigger] metrics[j]),
    ensures
        best_target(metrics.take(b), source) == best_target(metrics.take(a), source),
    decreases b - a,
{
    if a < b {
        lemma_skip_candidates(metrics, a, b - 1, source);
        assert(metrics.take(b).drop_last() =~= metrics.take(b - 1));
        assert(metrics.take(b).last() == metrics[b - 1]);
    }
}

proof fn lemma_best_target_range(metrics: Seq<NodeMetrics>, source: Seq<char>)
    ensures
        -1 <= best_target(metrics, source) < metrics.len(),
    decreases metrics.len(),
{
    if metrics.len() > 0 {
        lemma_best_target_range(metrics.drop_last(), source);
    }
}

/// The transfers that relieve the overloaded nodes, at most `limit`.
pub fn plan_transfers(metrics: &Vec<NodeMetrics>, limit: usize) -> (r: Vec<(String, String)>)
    ensures
        transfers_view(r@) == transfers(metrics@, metrics@.len() as int, limit as nat),
{
    let mut candidates: Vec<usize> = Vec::new();
    let mut i: usize = 0;
    while i < metrics.len()
        invariant
            i <= metrics.len(),
            lists_underloaded(metrics@, candidates@, i as int),
        decreases metrics.len() - i,
    {
        let ghost before = candidates@;
        if underloaded(&metrics[i]) {
            candidates.push(i);
            assert(candidates@[before.len() as int] == i);
        }
        assert forall|j: int|
            0 <= j < i + 1 && is_underloaded(#[trigger] metrics@[j]) implies exists|k: int|
            0 <= k < candidates@.len() && #[trigger] candidates@[k] == j by {
            if j < i {
                let k = choose|k: int| 0 <= k < before.len() && #[trigger] before[k] == j;
                assert(candidates@[k] == j);
            }
        }
        i = i + 1;
    }
    let mut list: Vec<(String, String)> = Vec::new();
    i = 0;
    assert(transfers_view(list@) =~= transfers(metrics@, 0, limit as nat));
    while i < metrics.len()
        invariant
            i <= metrics.len(),
            lists_underloaded(metrics@, candidates@, metrics@.len() as int),
            transfers_view(list@) == transfers(metrics@, i as int, limit as nat),
        decreases metrics.len() - i,
    {
        let node: &NodeMetrics = &metrics[i];
        let ghost before = list@;
        if list.len() < limit && overloaded(node) {
            if let Some(p) = find_target(metrics, &candidates, &node.name) {
                list.push((node.name.clone(), metrics[p].name.clone()));
                assert(transfers_view(list@) =~= transfers_view(before).push(
                    (node.name@, metrics@[p as int].name@),
                ));
            }
        }
        i = i + 1;
    }
    list
}

/// Free VRAM is a number that is not negative.
proof fn lemma_free_vram(node: NodeMetrics)
    ensures
        free_vram(node) !is NaN,
        free_vram(node).place() >= 0,
{
}

proof fn lemma_extremes(metrics: Seq<NodeMetrics>)
    ensures
        least_free(metrics) is Finite,
        least_free(metrics).place() >= 0,
        most_free(metrics) !is NaN,
        most_free(metrics).place() >= 0,
        forall|i: int|
            0 <= i < metrics.len() && (#[trigger] metrics[i]).status == NodeStatus::Active
                ==> least_free(metrics).place() <= free_vram(metrics[i]).place()
                <= most_free(metrics).place(),
    decreases metrics.len(),
{
    if metrics.len() > 0 {
        let rest = metrics.drop_last();
        lemma_extremes(rest);
        lemma_free_vram(metrics.last());
        let a = least_free(rest);
        let b = free_vram(metrics.last());
        if b is Infinite {
            lemma_least_is_bounded(rest);
            lemma_units_increase((INFINITE_MAGNITUDE - 1) as nat, INFINITE_MAGNITUDE as nat);
        }
        assert forall|i: int|
            0 <= i < metrics.len() && (
            #[trigger] metrics[i]).status == NodeStatus::Active implies least_free(metrics).place()
            <= free_vram(metrics[i]).place() <= most_free(metrics).place() by {
            if i < rest.len() {
                assert(rest[i] == metrics[i]);
            }
        }
    }
}

proof fn lemma_least_is_bounded(metrics: Seq<NodeMetrics>)
    ensures
        least_free(metrics) !is NaN,
        least_free(metrics).place() <= Real32::largest().place(),
    decreases metrics.len(),
{
    if metrics.len() > 0 {
        lemma_least_is_bounded(metrics.drop_last());
        lemma_free_vram(metrics.last());
    }
}

/// The ratio of the most to the least free VRAM of the active nodes is never below one.
pub proof fn skew_is_at_least_one(metrics: Seq<NodeMetrics>)
    requires
        any_active(metrics),
    ensures
        Real32::count(1).at_most(skew_ratio(least_free(metrics), most_free(metrics))),
{
    let least = least_free(metrics);
    let most = most_free(metrics);
    lemma_extremes(metrics);
    lemma_one();
    lemma_units_increase(ONE_MAGNITUDE as nat, INFINITE_MAGNITUDE as nat);
    lemma_negligible();
    if !least.at_most(negligible()) {
        let n = least->Finite_units;
        assert(!least->Finite_negative && n > 0);
        match most {
            Real32::Finite { negative, units } => {
                assert(units * one_in_units() >= one_in_units() * n) by (nonlinear_arith)
                    requires
                        units >= n,
                ;
                assert(!negative);
                lemma_rounded_at_least(units * one_in_units(), n, ONE_MAGNITUDE as nat);
            },
            _ => {},
        }
    }
}

/// The negligible amount is a positive number.
proof fn lemma_negligible()
    ensures
        negligible() is Finite,
        negligible().place() > 0,
{
    lemma2_to64();
    lemma_fraction_in_binade(1, 0x80_0000, 23);
    lemma_pow2_pos(103);
    let q = nearest_even(1 * pow2(23) * 0x80_0000, 0x80_0000);
    assert(q == 0x80_0000);
    assert(q * pow2(103) > 0) by (nonlinear_arith)
        requires
            q == 0x80_0000,
            pow2(103) > 0,
    ;
}

/// The least and the most free VRAM of active nodes that all have the same.
proof fn lemma_equal_load(metrics: Seq<NodeMetrics>, free: int)
    requires
        forall|i: int|
            0 <= i < metrics.len() && (#[trigger] metrics[i]).status == NodeStatus::Active
                ==> free_vram(metrics[i]) is Finite && free_vram(metrics[i]).place() == free,
    ensures
        most_free(metrics) is Finite,
        any_active(metrics) ==> least_free(metrics).place() == free && most_free(metrics).place()
            == free,
        !any_active(metrics) ==> least_free(metrics) == Real32::largest() && most_free(metrics)
            == Real32::zero(),
    decreases metrics.len(),
{
    if metrics.len() > 0 {
        let rest = metrics.drop_last();
        assert forall|i: int|
            0 <= i < rest.len() && (
            #[trigger] rest[i]).status == NodeStatus::Active implies free_vram(rest[i]) is Finite
            && free_vram(rest[i]).place() == free by {
            assert(rest[i] == metrics[i]);
        }
        lemma_equal_load(rest, free);
        lemma_extremes(metrics);
        lemma_extremes(rest);
        let last = metrics.last();
        assert(last == metrics[metrics.len() - 1]);
        if any_active(rest) {
            let i = choose|i: int|
                0 <= i < rest.len() && (#[trigger] rest[i]).status == NodeStatus::Active;
            assert(metrics[i].status == NodeStatus::Active);
        }
        if last.status == NodeStatus::Active {
            lemma_free_vram(last);
            if last.available_vram_gb@ is Finite {
                last.available_vram_gb.lemma_largest();
            }
        } else if any_active(metrics) {
            let i = choose|i: int|
                0 <= i < metrics.len() && (#[trigger] metrics[i]).status == NodeStatus::Active;
            assert(rest[i].status == NodeStatus::Active);
        }
    }
}

/// Nodes that all have the same VRAM free, none or more than a negligible amount, are
/// not unbalanced by a threshold above one.
pub proof fn equal_load_is_balanced(metrics: Seq<NodeMetrics>, threshold: Real32, free: int)
    requires
        forall|i: int|
            0 <= i < metrics.len() && (#[trigger] metrics[i]).status == NodeStatus::Active
                ==> free_vram(metrics[i]) is Finite && free_vram(metrics[i]).place() == free,
        free == 0 || free > negligible().place(),
        Real32::count(1).below(threshold),
    ensures
        !is_unbalanced(metrics, threshold),
{
    if any_active(metrics) {
        lemma_equal_load(metrics, free);
        lemma_extremes(metrics);
        lemma_negligible();
        lemma_one();
        let least = least_free(metrics);
        let most = most_free(metrics);
        if free > negligible().place() {
            let n = free as nat;
            assert(least == (Real32::Finite { negative: false, units: n }));
            assert(most == (Real32::Finite { negative: false, units: n }));
            lemma_pow2_pos(149);
            assert((n * one_in_units()) * 1 == one_in_units() * n) by (nonlinear_arith);
            lemma_magnitude_equal_quotients(n * one_in_units(), n, one_in_units(), 1);
            assert(1 * one_in_units() == one_in_units());
            assert(most.over(least) == Real32::count(1));
        }
    }
}

/// The least and the most free VRAM are those of active nodes, or the bounds from which
/// the search starts.
proof fn lemma_extremes_attained(metrics: Seq<NodeMetrics>)
    ensures
        least_free(metrics) == Real32::largest() || exists|i: int|
            0 <= i < metrics.len() && (#[trigger] metrics[i]).status == NodeStatus::Active
                && least_free(metrics) == free_vram(metrics[i]),
        most_free(metrics) == Real32::zero() || exists|i: int|
            0 <= i < metrics.len() && (#[trigger] metrics[i]).status == NodeStatus::Active
                && most_free(metrics) == free_vram(metrics[i]),
    decreases metrics.len(),
{
    if metrics.len() > 0 {
        let rest = metrics.drop_last();
        lemma_extremes_attained(rest);
        assert(metrics.last() == metrics[metrics.len() - 1]);
        assert(forall|i: int| 0 <= i < rest.len() ==> #[trigger] rest[i] == metrics[i]);
        if least_free(rest) != Real32::largest() {
            let i = choose|i: int|
                0 <= i < rest.len() && (#[trigger] rest[i]).status == NodeStatus::Active
                    && least_free(rest) == free_vram(rest[i]);
            assert(metrics[i] == rest[i]);
        }
        if most_free(rest) != Real32::zero() {
            let i = choose|i: int|
                0 <= i < rest.len() && (#[trigger] rest[i]).status == NodeStatus::Active
                    && most_free(rest) == free_vram(rest[i]);
            assert(metrics[i] == rest[i]);
        }
    }
}

/// The extremes of metrics that are among others' lie within the others' extremes.
proof fn lemma_extremes_within(a: Seq<NodeMetrics>, b: Seq<NodeMetrics>)
    requires
        forall|x: NodeMetrics| #[trigger] a.contains(x) ==> b.contains(x),
    ensures
        least_free(b).place() <= least_free(a).place(),
        most_free(a).place() <= most_free(b).place(),
        any_active(a) ==> any_active(b),
        most_free(a) is Finite ==> most_free(a).place() <= Real32::largest().place(),
{
    lemma_extremes(b);
    lemma_least_is_bounded(b);
    lemma_extremes_attained(a);
    assert forall|i: int| 0 <= i < a.len() && (#[trigger] a[i]).status == NodeStatus::Active implies {
        let j = b.index_of(a[i]);
        0 <= j < b.len() && b[j] == a[i]
    } by {
        assert(a.contains(a[i]));
        assert(b.contains(a[i]));
    }
    if least_free(a) != Real32::largest() {
        let i = choose|i: int|
            0 <= i < a.len() && (#[trigger] a[i]).status == NodeStatus::Active && least_free(a)
                == free_vram(a[i]);
        assert(b[b.index_of(a[i])] == a[i]);
    }
    if most_free(a) != Real32::zero() {
        let i = choose|i: int|
            0 <= i < a.len() && (#[trigger] a[i]).status == NodeStatus::Active && most_free(a)
                == free_vram(a[i]);
        assert(b[b.index_of(a[i])] == a[i]);
        if a[i].available_vram_gb@ is Finite {
            a[i].available_vram_gb.lemma_largest();
        }
    }
    if any_active(a) {
        let i = choose|i: int|
            0 <= i < a.len() && (#[trigger] a[i]).status == NodeStatus::Active;
        assert(b[b.index_of(a[i])].status == NodeStatus::Active);
    }
}

/// The order in which the load of the nodes is read does not decide whether it is
/// unbalanced.
pub proof fn balance_does_not_depend_on_the_order(
    a: Seq<NodeMetrics>,
    b: Seq<NodeMetrics>,
    threshold: Real32,
)
    requires
        a.to_multiset() == b.to_multiset(),
    ensures
        is_unbalanced(a, threshold) == is_unbalanced(b, threshold),
{
    lemma_same_items(a, b);
    lemma_extremes_within(a, b);
    lemma_extremes_within(b, a);
    lemma_extremes(a);
    lemma_extremes(b);
    lemma_negligible();
    lemma_units_increase((INFINITE_MAGNITUDE - 1) as nat, INFINITE_MAGNITUDE as nat);
    if !least_free(a).at_most(negligible()) {
        assert(least_free(a) == least_free(b));
        if any_active(a) {
            let i = choose|i: int|
                0 <= i < a.len() && (#[trigger] a[i]).status == NodeStatus::Active;
            assert(most_free(a).place() > 0);
            assert(most_free(a) == most_free(b));
        }
    }
}

/// A best target is underloaded, of another name, and no underloaded node of another
/// name has more VRAM free; there is none only where none has any VRAM free.
proof fn lemma_best_target(metrics: Seq<NodeMetrics>, source: Seq<char>)
    ensures
        ({
            let best = best_target(metrics, source);
            &&& -1 <= best < metrics.len()
            &&& best >= 0 ==> is_underloaded(metrics[best]) && metrics[best].name@ != source
            &&& target_vram(metrics, best) !is NaN
            &&& forall|j: int|
                0 <= j < metrics.len() && is_underloaded(#[trigger] metrics[j])
                    && metrics[j].name@ != source ==> !target_vram(metrics, best).below(
                    metrics[j].available_vram_gb@,
                )
        }),
    decreases metrics.len(),
{
    if metrics.len() > 0 {
        let rest = metrics.drop_last();
        lemma_best_target(rest, source);
        let old_best = best_target(rest, source);
        let best = best_target(metrics, source);
        assert(target_vram(rest, old_best) == target_vram(metrics, old_best));
        if old_best >= 0 {
            assert(rest[old_best] == metrics[old_best]);
        }
        assert forall|j: int|
            0 <= j < metrics.len() && is_underloaded(#[trigger] metrics[j]) && metrics[j].name@
                != source implies !target_vram(metrics, best).below(
            metrics[j].available_vram_gb@,
        ) by {
            if j < rest.len() {
                assert(rest[j] == metrics[j]);
            }
        }
    }
}

/// Whether a transfer goes from an overloaded node to an underloaded one of another name
/// that has the most VRAM free.
pub open spec fn is_sound_transfer(
    metrics: Seq<NodeMetrics>,
    transfer: (Seq<char>, Seq<char>),
) -> bool {
    exists|s: int, t: int|
        #![trigger metrics[s], metrics[t]]
        0 <= s < metrics.len() && 0 <= t < metrics.len() && is_overloaded(metrics[s])
            && is_underloaded(metrics[t]) && transfer.0 == metrics[s].name@ && transfer.1
            == metrics[t].name@ && transfer.0 != transfer.1 && is_most_free_target(
            metrics,
            t,
            transfer.0,
        )
}

/// No underloaded node of another name has more VRAM free than the one at `t`.
pub open spec fn is_most_free_target(
    metrics: Seq<NodeMetrics>,
    t: int,
    source: Seq<char>,
) -> bool {
    forall|j: int|
        0 <= j < metrics.len() && is_underloaded(#[trigger] metrics[j]) && metrics[j].name@
            != source ==> !metrics[t].available_vram_gb@.below(metrics[j].available_vram_gb@)
}

proof fn lemma_transfers(metrics: Seq<NodeMetrics>, n: int, limit: nat)
    requires
        0 <= n <= metrics.len(),
    ensures
        transfers(metrics, n, limit).len() <= limit,
        forall|k: int|
            0 <= k < transfers(metrics, n, limit).len() ==> is_sound_transfer(
                metrics,
                #[trigger] transfers(metrics, n, limit)[k],
            ),
    decreases n,
{
    if n > 0 {
        lemma_transfers(metrics, n - 1, limit);
        let before = transfers(metrics, n - 1, limit);
        let all = transfers(metrics, n, limit);
        let node = metrics[n - 1];
        let target = best_target(metrics, node.name@);
        lemma_best_target(metrics, node.name@);
        assert forall|k: int| 0 <= k < all.len() implies is_sound_transfer(
            metrics,
            #[trigger] all[k],
        ) by {
            if k < before.len() {
                assert(all[k] == before[k]);
            } else {
                assert(metrics[n - 1] == node && is_underloaded(metrics[target]));
                assert(is_most_free_target(metrics, target, node.name@));
            }
        }
    }
}

proof fn lemma_all_relieved(metrics: Seq<NodeMetrics>, n: int, limit: nat, s: int)
    requires
        0 <= s < n <= metrics.len(),
        is_overloaded(metrics[s]),
        best_target(metrics, metrics[s].name@) >= 0,
        transfers(metrics, n, limit).len() < limit,
    ensures
        transfers(metrics, n, limit).contains(
            (metrics[s].name@, metrics[best_target(metrics, metrics[s].name@)].name@),
        ),
    decreases n,
{
    let before = transfers(metrics, n - 1, limit);
    let all = transfers(metrics, n, limit);
    let wanted = (metrics[s].name@, metrics[best_target(metrics, metrics[s].name@)].name@);
    if s == n - 1 {
        assert(all.last() == wanted);
        assert(all[all.len() - 1] == wanted);
    } else {
        lemma_all_relieved(metrics, n - 1, limit, s);
        let k = before.index_of(wanted);
        assert(all[k] == wanted);
    }
}

/// Where fewer transfers are planned than allowed, every overloaded node is relieved for
/// which an underloaded node of another name has VRAM free.
pub proof fn spare_transfers_mean_all_are_relieved(
    metrics: Seq<NodeMetrics>,
    limit: nat,
    s: int,
    t: int,
)
    requires
        0 <= s < metrics.len(),
        0 <= t < metrics.len(),
        is_overloaded(metrics[s]),
        is_underloaded(metrics[t]),
        metrics[t].name@ != metrics[s].name@,
        Real32::zero().below(metrics[t].available_vram_gb@),
        transfers(metrics, metrics.len() as int, limit).len() < limit,
    ensures
        exists|k: int|
            0 <= k < transfers(metrics, metrics.len() as int, limit).len() && (
            #[trigger] transfers(metrics, metrics.len() as int, limit)[k]).0 == metrics[s].name@,
{
    lemma_best_target(metrics, metrics[s].name@);
    let all = transfers(metrics, metrics.len() as int, limit);
    let target = best_target(metrics, metrics[s].name@);
    assert(target >= 0);
    lemma_all_relieved(metrics, metrics.len() as int, limit, s);
    let k = all.index_of((metrics[s].name@, metrics[target].name@));
    assert(all[k].0 == metrics[s].name@);
}

/// Transfers stay within the limit, and each relieves an overloaded node: it goes to an
/// underloaded node of another name that has the most VRAM free.
pub proof fn transfers_relieve_overloaded_nodes(metrics: Seq<NodeMetrics>, limit: nat)
    ensures
        transfers(metrics, metrics.len() as int, limit).len() <= limit,
        forall|k: int|
            0 <= k < transfers(metrics, metrics.len() as int, limit).len() ==> is_sound_transfer(
                metrics,
                #[trigger] transfers(metrics, metrics.len() as int, limit)[k],
            ),
{
    lemma_transfers(metrics, metrics.len() as int, limit);
}

/// The place of the VRAM that can be used: what is negative or not a number counts as none.
pub open spec fn usable_place(available: Real32) -> int {
    if available is NaN || available.place() < 0 {
        0
    } else {
        available.place()
    }
}

/// Whether two active nodes are those with the least and the most usable VRAM.
pub open spec fn are_extremes(metrics: Seq<NodeMetrics>, low: int, high: int) -> bool {
    &&& 0 <= low < metrics.len() && metrics[low].status == NodeStatus::Active
    &&& 0 <= high < metrics.len() && metrics[high].status == NodeStatus::Active
    &&& forall|i: int|
        0 <= i < metrics.len() && (#[trigger] metrics[i]).status == NodeStatus::Active
            ==> usable_place(metrics[low].available_vram_gb@) <= usable_place(
            metrics[i].available_vram_gb@,
        ) <= usable_place(metrics[high].available_vram_gb@)
}

proof fn lemma_negligible_place()
    ensures
        negligible().place() == pow2(126),
{
    lemma2_to64();
    lemma_negligible();
    lemma_fraction_in_binade(1, 0x80_0000, 23);
    lemma_pow2_adds(23, 103);
    let q = nearest_even(1 * pow2(23) * 0x80_0000, 0x80_0000);
    assert(q == 0x80_0000);
}

proof fn lemma_usable(node: NodeMetrics)
    ensures
        free_vram(node).place() == usable_place(node.available_vram_gb@),
        usable_place(node.available_vram_gb@) > 0 ==> free_vram(node) == node.available_vram_gb@,
{
}

/// Whether the load calls for rebalancing is a matter of the two extreme nodes and the
/// threshold. Where the least usable VRAM is more than a unit in the last place of one, the
/// answer is whether the most divided by the least reaches the threshold; where it is not,
/// every threshold is reached that is a number as soon as some node has VRAM, and otherwise
/// those up to one.
pub proof fn rebalancing_follows_the_threshold(
    metrics: Seq<NodeMetrics>,
    threshold: Binary32,
    low: int,
    high: int,
)
    requires
        are_extremes(metrics, low, high),
    ensures
        ({
            let least = metrics[low].available_vram_gb@;
            let most = metrics[high].available_vram_gb@;
            is_unbalanced(metrics, threshold@) <==> threshold@ !is NaN && (if usable_place(least)
                <= pow2(126) {
                usable_place(most) > 0 || threshold@.place() <= pow2(149)
            } else if least is Infinite {
                true
            } else {
                threshold@.place() <= most.over(least).place()
            })
        }),
        ({
            let least = metrics[low].available_vram_gb@;
            let most = metrics[high].available_vram_gb@;
            let skew = skew_ratio(least_free(metrics), most_free(metrics));
            if usable_place(least) <= pow2(126) {
                if usable_place(most) > 0 {
                    skew == (Real32::Infinite { negative: false })
                } else {
                    skew == Real32::count(1)
                }
            } else if least is Infinite {
                skew == (Real32::Infinite { negative: false })
            } else {
                skew == most.over(least)
            }
        }),
        any_active(metrics),
{
    let least = least_free(metrics);
    let most = most_free(metrics);
    lemma_extremes(metrics);
    lemma_extremes_attained(metrics);
    lemma_least_is_bounded(metrics);
    lemma_negligible_place();
    lemma_one();
    lemma_usable(metrics[low]);
    lemma_usable(metrics[high]);
    lemma_units_increase((INFINITE_MAGNITUDE - 1) as nat, INFINITE_MAGNITUDE as nat);
    assert(metrics[low].status == NodeStatus::Active);
    assert(metrics[high].status == NodeStatus::Active);
    if most != Real32::zero() {
        let i = choose|i: int|
            0 <= i < metrics.len() && (#[trigger] metrics[i]).status == NodeStatus::Active && most
                == free_vram(metrics[i]);
        lemma_usable(metrics[i]);
        if most is Finite && metrics[high].available_vram_gb@ is Infinite {
            metrics[i].available_vram_gb.lemma_largest();
        }
        if most is Infinite && metrics[high].available_vram_gb@ is Finite {
            metrics[high].available_vram_gb.lemma_largest();
        }
    }
    assert(most.place() == usable_place(metrics[high].available_vram_gb@));
    if least != Real32::largest() {
        let i = choose|i: int|
            0 <= i < metrics.len() && (#[trigger] metrics[i]).status == NodeStatus::Active && least
                == free_vram(metrics[i]);
        lemma_usable(metrics[i]);
        assert(least.place() == usable_place(metrics[low].available_vram_gb@));
    } else if metrics[low].available_vram_gb@ is Finite {
        metrics[low].available_vram_gb.lemma_largest();
        assert(least.place() == usable_place(metrics[low].available_vram_gb@));
    }
    if threshold@ is Finite {
        threshold.lemma_largest();
    }
    lemma_units_increase(ONE_MAGNITUDE as nat, (INFINITE_MAGNITUDE - 1) as nat);
    lemma_pow2_strictly_increases(126, 149);
    let low_vram = metrics[low].available_vram_gb@;
    let high_vram = metrics[high].available_vram_gb@;
    if low_vram is Infinite && usable_place(low_vram) > 0 {
        if least != Real32::largest() {
            assert(least.place() == usable_place(low_vram));
        }
        if high_vram is Finite {
            metrics[high].available_vram_gb.lemma_largest();
        }
        assert(high_vram is Infinite);
    }
    if usable_place(low_vram) <= pow2(126) {
        assert(least.at_most(negligible()));
    } else {
        assert(!least.at_most(negligible()));
        assert(most == high_vram);
        if low_vram is Finite {
            assert(least == low_vram);
        }
    }
}

/// Without an active node nothing is unbalanced, and where a node is active, one has the least
/// usable VRAM and one the most.
pub proof fn active_nodes_have_extremes(metrics: Seq<NodeMetrics>, threshold: Real32) -> (r: (
    int,
    int,
))
    ensures
        (exists|i: int|
            0 <= i < metrics.len() && (#[trigger] metrics[i]).status == NodeStatus::Active)
            ==> are_extremes(metrics, r.0, r.1),
        (forall|i: int|
            0 <= i < metrics.len() ==> (#[trigger] metrics[i]).status != NodeStatus::Active)
            ==> !is_unbalanced(metrics, threshold),
    decreases metrics.len(),
{
    if metrics.len() == 0 {
        (0, 0)
    } else {
        let rest = metrics.drop_last();
        let n = metrics.len() - 1;
        let (a, b) = active_nodes_have_extremes(rest, threshold);
        assert(forall|i: int| 0 <= i < n ==> #[trigger] rest[i] == metrics[i]);
        let others = exists|i: int|
            0 <= i < rest.len() && (#[trigger] rest[i]).status == NodeStatus::Active;
        let last = usable_place(metrics[n].available_vram_gb@);
        let low = if metrics[n].status == NodeStatus::Active && (!others || last < usable_place(
            metrics[a].available_vram_gb@,
        )) {
            n
        } else {
            a
        };
        let high = if metrics[n].status == NodeStatus::Active && (!others || last > usable_place(
            metrics[b].available_vram_gb@,
        )) {
            n
        } else {
            b
        };
        if exists|i: int|
            0 <= i < metrics.len() && (#[trigger] metrics[i]).status == NodeStatus::Active {
            if others {
                assert(rest[a] == metrics[a] && rest[b] == metrics[b]);
            } else {
                let i = choose|i: int|
                    0 <= i < metrics.len() && (#[trigger] metrics[i]).status == NodeStatus::Active;
                if i < n {
                    assert(rest[i].status == NodeStatus::Active);
                }
            }
            assert forall|i: int|
                0 <= i < metrics.len() && (
                #[trigger] metrics[i]).status == NodeStatus::Active implies usable_place(
                metrics[low].available_vram_gb@,
            ) <= usable_place(metrics[i].available_vram_gb@) <= usable_place(
                metrics[high].available_vram_gb@,
            ) by {
                if i < n {
                    assert(rest[i] == metrics[i]);
                }
            }
        }
        (low, high)
    }
}

/// Whether an active node has less than a fifth of its VRAM free.
pub open spec fn is_short_of_vram(node: NodeMetrics) -> bool {
    node.status == NodeStatus::Active && node.available_vram_gb@.below(
        node.total_vram_gb@.times(Real32::fraction(2, 10)),
    )
}

/// Whether an active node that is not short of VRAM has more than half of it free, and some.
pub open spec fn has_vram_to_spare(node: NodeMetrics) -> bool {
    &&& node.status == NodeStatus::Active
    &&& !is_short_of_vram(node)
    &&& node.total_vram_gb@.times(Real32::fraction(5, 10)).below(node.available_vram_gb@)
    &&& node.available_vram_gb@.place() > 0
}

/// Whether the node at `t` can take load from a node of the given name, no such node has more
/// VRAM free, and none before it as much.
pub open spec fn is_first_freest(metrics: Seq<NodeMetrics>, source: Seq<char>, t: int) -> bool {
    &&& 0 <= t < metrics.len()
    &&& has_vram_to_spare(metrics[t])
    &&& metrics[t].name@ != source
    &&& forall|j: int|
        0 <= j < metrics.len() && has_vram_to_spare(#[trigger] metrics[j]) && metrics[j].name@
            != source ==> metrics[j].available_vram_gb@.place()
            <= metrics[t].available_vram_gb@.place() && (j < t
            ==> metrics[j].available_vram_gb@.place() < metrics[t].available_vram_gb@.place())
}

proof fn lemma_first_freest(metrics: Seq<NodeMetrics>, source: Seq<char>)
    ensures
        ({
            let best = best_target(metrics, source);
            &&& best >= 0 ==> is_first_freest(metrics, source, best)
            &&& best < 0 ==> best == -1 && forall|j: int|
                0 <= j < metrics.len() && has_vram_to_spare(#[trigger] metrics[j])
                    ==> metrics[j].name@ == source
        }),
    decreases metrics.len(),
{
    lemma_best_target(metrics, source);
    if metrics.len() > 0 {
        let rest = metrics.drop_last();
        let n = metrics.len() - 1;
        lemma_first_freest(rest, source);
        lemma_best_target(rest, source);
        let old_best = best_target(rest, source);
        let best = best_target(metrics, source);
        if old_best >= 0 {
            assert(rest[old_best] == metrics[old_best]);
        }
        if best >= 0 {
            assert(has_vram_to_spare(metrics[best]));
            assert forall|j: int|
                0 <= j < metrics.len() && has_vram_to_spare(#[trigger] metrics[j])
                    && metrics[j].name@ != source implies metrics[j].available_vram_gb@.place()
                <= metrics[best].available_vram_gb@.place() && (j < best
                ==> metrics[j].available_vram_gb@.place()
                < metrics[best].available_vram_gb@.place()) by {
                if j < n {
                    assert(rest[j] == metrics[j]);
                }
            }
        } else {
            assert forall|j: int|
                0 <= j < metrics.len() && has_vram_to_spare(
                    #[trigger] metrics[j],
                ) implies metrics[j].name@ == source by {
                if j < n {
                    assert(rest[j] == metrics[j]);
                }
            }
        }
    }
}

/// Whether a list is that of the transfers from the nodes at the given positions to the given
/// targets.
pub open spec fn are_transfers(
    metrics: Seq<NodeMetrics>,
    list: Seq<(Seq<char>, Seq<char>)>,
    sources: Seq<int>,
    targets: Seq<int>,
) -> bool {
    &&& sources.len() == list.len()
    &&& targets.len() == list.len()
    &&& forall|k: int|
        #![trigger sources[k]]
        0 <= k < list.len() ==> {
            &&& 0 <= sources[k] < metrics.len()
            &&& is_short_of_vram(metrics[sources[k]])
            &&& is_first_freest(metrics, metrics[sources[k]].name@, targets[k])
            &&& list[k].0 == metrics[sources[k]].name@
            &&& list[k].1 == metrics[targets[k]].name@
        }
    &&& forall|k: int, l: int|
        #![trigger sources[k], sources[l]]
        0 <= k < l < sources.len() ==> sources[k] < sources[l]
}

proof fn lemma_are_transfers(metrics: Seq<NodeMetrics>, n: int, limit: nat) -> (r: (
    Seq<int>,
    Seq<int>,
))
    requires
        0 <= n <= metrics.len(),
    ensures
        are_transfers(metrics, transfers(metrics, n, limit), r.0, r.1),
        r.0.len() <= limit,
        forall|k: int| #![trigger r.0[k]] 0 <= k < r.0.len() ==> r.0[k] < n,
        forall|s: int, t: int|
            #![trigger metrics[s], metrics[t]]
            0 <= s < n && 0 <= t < metrics.len() && is_short_of_vram(metrics[s])
                && has_vram_to_spare(metrics[t]) && metrics[t].name@ != metrics[s].name@
                ==> r.0.contains(s) || (r.0.len() == limit && forall|k: int|
                #![trigger r.0[k]]
                0 <= k < r.0.len() ==> r.0[k] < s),
    decreases n,
{
    if n <= 0 {
        (Seq::empty(), Seq::empty())
    } else {
        let (p, q) = lemma_are_transfers(metrics, n - 1, limit);
        let before = transfers(metrics, n - 1, limit);
        let all = transfers(metrics, n, limit);
        let node = metrics[n - 1];
        let target = best_target(metrics, node.name@);
        lemma_first_freest(metrics, node.name@);
        let added = before.len() < limit && is_overloaded(node) && target >= 0;
        let r = if added {
            (p.push(n - 1), q.push(target))
        } else {
            (p, q)
        };
        assert forall|k: int| #![trigger r.0[k]] 0 <= k < all.len() implies {
            &&& 0 <= r.0[k] < metrics.len()
            &&& is_short_of_vram(metrics[r.0[k]])
            &&& is_first_freest(metrics, metrics[r.0[k]].name@, r.1[k])
            &&& all[k].0 == metrics[r.0[k]].name@
            &&& all[k].1 == metrics[r.1[k]].name@
        } by {
            if k < before.len() {
                assert(p[k] == r.0[k]);
            }
        }
        assert forall|s: int, t: int|
            #![trigger metrics[s], metrics[t]]
            0 <= s < n && 0 <= t < metrics.len() && is_short_of_vram(metrics[s])
                && has_vram_to_spare(metrics[t]) && metrics[t].name@
                != metrics[s].name@ implies r.0.contains(s) || (r.0.len() == limit && forall|k: int|
            #![trigger r.0[k]]
            0 <= k < r.0.len() ==> r.0[k] < s) by {
            if s < n - 1 {
                if p.contains(s) {
                    assert(r.0[p.index_of(s)] == s);
                } else {
                    assert(p.len() == limit);
                    assert(r.0 == p);
                }
            } else if added {
                assert(r.0[p.len() as int] == s);
            } else {
                assert(target >= 0);
                assert(p.len() == limit);
            }
        }
        r
    }
}

/// The transfers are those of the first nodes that are short of VRAM, up to the limit. Each goes
/// to the node of another name with the most VRAM to spare, the first of them. A node that is
/// short of VRAM is passed over only where no node of another name has VRAM to spare, or where
/// the limit is reached by nodes before it.
pub proof fn transfers_are_the_first_that_help(metrics: Seq<NodeMetrics>, limit: nat) -> (r: (
    Seq<int>,
    Seq<int>,
))
    ensures
        are_transfers(metrics, transfers(metrics, metrics.len() as int, limit), r.0, r.1),
        transfers(metrics, metrics.len() as int, limit).len() <= limit,
        forall|s: int, t: int|
            #![trigger metrics[s], metrics[t]]
            0 <= s < metrics.len() && 0 <= t < metrics.len() && is_short_of_vram(metrics[s])
                && has_vram_to_spare(metrics[t]) && metrics[t].name@ != metrics[s].name@
                ==> r.0.contains(s) || (r.0.len() == limit && forall|k: int|
                #![trigger r.0[k]]
                0 <= k < r.0.len() ==> r.0[k] < s),
{
    lemma_are_transfers(metrics, metrics.len() as int, limit)
}

/// A list of transfers is seen as its names, one pair for each.
pub proof fn transfers_are_seen_whole(list: Seq<(String, String)>)
    ensures
        transfers_view(list).len() == list.len(),
        forall|k: int|
            0 <= k < list.len() ==> (#[trigger] transfers_view(list)[k]).0 == list[k].0@
                && transfers_view(list)[k].1 == list[k].1@,
{
}

} // verus!
