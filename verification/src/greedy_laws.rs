//! What a distribution is, told by the nodes, the layers and the plan alone.
use crate::binary32::Real32;
use crate::chunking::{chunk_count, chunk_end, lemma_chunk_count};
use crate::cluster::{LayerSpec, NodeResources};
use crate::decimal::decimal;
use crate::distribution::{
    assignments, by_index, by_vram, distribution, fitting_end, index_before,
    lemma_fitting_end_bounds, lemma_layers_ordered, lemma_placed_end_bounds, node_slices,
    nodes_comparable, placed_end, slice_ends_fit, vram_before, vram_of,
};
use crate::ordering::{
    lemma_sorted_contains, sorting_is_stable, sorting_keeps_items, sorting_orders, tied,
};
use crate::plan::{entry_nodes, SliceView};
use vstd::prelude::*;

verus! {

/// The VRAM that a run of layers needs: what each of them needs, added up in their order.
pub open spec fn needed(run: Seq<LayerSpec>) -> Real32 {
    run.fold_left(Real32::zero(), |sum: Real32, layer: LayerSpec| sum.plus(layer.vram_gb@))
}

/// A run that is extended by a layer needs what it needed and what that layer needs.
pub proof fn a_longer_run_needs_its_last_layer(run: Seq<LayerSpec>, layer: LayerSpec)
    ensures
        needed(run.push(layer)) == needed(run).plus(layer.vram_gb@),
        needed(Seq::empty()) == Real32::zero(),
{
    assert(run.push(layer).drop_last() =~= run);
    reveal_with_fuel(Seq::fold_left, 2);
}

proof fn lemma_needed(layers: Seq<LayerSpec>, from: int, to: int)
    requires
        0 <= from <= to <= layers.len(),
    ensures
        vram_of(layers, from, to) == needed(layers.subrange(from, to)),
    decreases to - from,
{
    let run = layers.subrange(from, to);
    if from < to {
        lemma_needed(layers, from, to - 1);
        assert(run =~= layers.subrange(from, to - 1).push(layers[to - 1]));
        a_longer_run_needs_its_last_layer(layers.subrange(from, to - 1), layers[to - 1]);
    } else {
        assert(run =~= Seq::empty());
        a_longer_run_needs_its_last_layer(Seq::empty(), arbitrary());
    }
}

/// Whether the layers between two cuts fit a node, and all of them that could: every run
/// from the first cut up to the second stays within the node's VRAM, and one layer more
/// exceeds it.
pub open spec fn is_full_load(
    node: NodeResources,
    layers: Seq<LayerSpec>,
    from: int,
    to: int,
) -> bool {
    &&& 0 <= from <= to <= layers.len()
    &&& forall|t: int|
        from < t <= to ==> !node.vram_gb@.below(needed(#[trigger] layers.subrange(from, t)))
    &&& to < layers.len() ==> node.vram_gb@.below(needed(layers.subrange(from, to + 1)))
}

/// Whether the cuts are those of nodes that take layers in turn, from `from` on.
pub open spec fn are_greedy_cuts(
    nodes: Seq<NodeResources>,
    layers: Seq<LayerSpec>,
    cuts: Seq<int>,
    from: int,
) -> bool {
    &&& cuts.len() == nodes.len() + 1
    &&& cuts[0] == from
    &&& forall|p: int|
        #![trigger nodes[p]]
        0 <= p < nodes.len() ==> is_full_load(nodes[p], layers, cuts[p], cuts[p + 1])
}

/// Whether slices hold the layers from `from` up to `to`: one slice of them all, of the size
/// that they need, where there are at most `limit`; and otherwise slices of `limit` layers,
/// but for the last, each of a size in proportion to the number of its layers.
pub open spec fn are_slices_of(
    layers: Seq<LayerSpec>,
    from: int,
    to: int,
    limit: nat,
    slices: Seq<SliceView>,
) -> bool {
    let all = needed(layers.subrange(from, to));
    if to - from <= limit {
        &&& slices.len() == 1
        &&& slices[0].start == layers[from].index
        &&& slices[0].end == layers[to - 1].index + 1
        &&& slices[0].size == all
        &&& slices[0].num_weights == 0
    } else {
        &&& (slices.len() - 1) * limit < to - from <= slices.len() * limit
        &&& forall|j: int|
            #![trigger slices[j]]
            0 <= j < slices.len() ==> {
                let a = from + j * limit;
                let b = if j < slices.len() - 1 {
                    a + limit
                } else {
                    to
                };
                &&& from <= a < b <= to
                &&& slices[j].start == layers[a].index
                &&& slices[j].end == layers[b - 1].index + 1
                &&& slices[j].size == all.over(Real32::count((to - from) as nat)).times(
                    Real32::count((b - a) as nat),
                )
                &&& slices[j].num_weights == 0
            }
    }
}

/// Whether an entry is what the node at a position holds.
pub open spec fn is_entry_of(
    nodes: Seq<NodeResources>,
    layers: Seq<LayerSpec>,
    cuts: Seq<int>,
    limit: nat,
    p: int,
    entry: (Seq<char>, Seq<SliceView>),
) -> bool {
    &&& 0 <= p < nodes.len()
    &&& cuts[p] < cuts[p + 1]
    &&& entry.0 == nodes[p].id@
    &&& are_slices_of(layers, cuts[p], cuts[p + 1], limit, entry.1)
}

/// Whether the entries are what the nodes at the given positions hold, and nobody else holds
/// anything.
pub open spec fn are_entries_of(
    nodes: Seq<NodeResources>,
    layers: Seq<LayerSpec>,
    cuts: Seq<int>,
    limit: nat,
    holders: Seq<int>,
    entries: Seq<(Seq<char>, Seq<SliceView>)>,
) -> bool {
    &&& holders.len() == entries.len()
    &&& forall|k: int|
        #![trigger holders[k]]
        #![trigger entries[k]]
        0 <= k < entries.len() ==> is_entry_of(nodes, layers, cuts, limit, holders[k], entries[k])
    &&& forall|k: int, l: int|
        #![trigger holders[k], holders[l]]
        0 <= k < l < holders.len() ==> holders[k] < holders[l]
    &&& forall|p: int|
        #![trigger holders.contains(p)]
        0 <= p < nodes.len() && cuts[p] < cuts[p + 1] ==> holders.contains(p)
}

/// Whether nodes are others by descending VRAM, those of the same VRAM in the order in which
/// they came.
pub open spec fn is_by_descending_vram(
    nodes: Seq<NodeResources>,
    sorted: Seq<NodeResources>,
) -> bool {
    &&& sorted.to_multiset() == nodes.to_multiset()
    &&& forall|i: int, j: int|
        #![trigger sorted[i], sorted[j]]
        0 <= i < j < sorted.len() ==> !sorted[i].vram_gb@.below(sorted[j].vram_gb@)
    &&& forall|y: NodeResources|
        #![trigger nodes.contains(y)]
        nodes.contains(y) ==> sorted.filter(
            |z: NodeResources|
                !y.vram_gb@.below(z.vram_gb@) && !z.vram_gb@.below(y.vram_gb@),
        ) == nodes.filter(
            |z: NodeResources|
                !y.vram_gb@.below(z.vram_gb@) && !z.vram_gb@.below(y.vram_gb@),
        )
}

/// Whether layers are others by ascending index, those of the same index in the order in
/// which they came.
pub open spec fn is_by_ascending_index(layers: Seq<LayerSpec>, queue: Seq<LayerSpec>) -> bool {
    &&& queue.to_multiset() == layers.to_multiset()
    &&& queue.len() == layers.len()
    &&& forall|i: int, j: int|
        #![trigger queue[i], queue[j]]
        0 <= i < j < queue.len() ==> queue[i].index <= queue[j].index
    &&& forall|y: LayerSpec|
        #![trigger layers.contains(y)]
        layers.contains(y) ==> queue.filter(|z: LayerSpec| z.index == y.index) == layers.filter(
            |z: LayerSpec| z.index == y.index,
        )
}

proof fn lemma_full_load(layers: Seq<LayerSpec>, from: int, to: int, capacity: Real32)
    requires
        0 <= from <= to <= layers.len(),
    ensures
        ({
            let end = fitting_end(layers, from, to, capacity);
            &&& forall|t: int|
                to < t <= end ==> !capacity.below(needed(#[trigger] layers.subrange(from, t)))
            &&& end < layers.len() ==> capacity.below(needed(layers.subrange(from, end + 1)))
        }),
    decreases layers.len() - to,
{
    if to < layers.len() {
        lemma_needed(layers, from, to + 1);
        if !capacity.below(vram_of(layers, from, to + 1)) {
            lemma_full_load(layers, from, to + 1, capacity);
        }
    }
}

proof fn lemma_slices_of(layers: Seq<LayerSpec>, from: int, to: int, limit: nat)
    requires
        0 <= from < to <= layers.len(),
        limit > 0,
    ensures
        are_slices_of(layers, from, to, limit, node_slices(layers, from, to, limit)),
{
    let total = (to - from) as nat;
    let slices = node_slices(layers, from, to, limit);
    lemma_needed(layers, from, to);
    if total > limit {
        let count = chunk_count(total, limit);
        lemma_chunk_count(total, limit);
        assert forall|j: int| #![trigger slices[j]] 0 <= j < slices.len() implies {
            let a = from + j * limit;
            let b = if j < slices.len() - 1 {
                a + limit
            } else {
                to
            };
            &&& from <= a < b <= to
            &&& slices[j].start == layers[a].index
            &&& slices[j].end == layers[b - 1].index + 1
            &&& slices[j].size == needed(layers.subrange(from, to)).over(
                Real32::count((to - from) as nat),
            ).times(Real32::count((b - a) as nat))
            &&& slices[j].num_weights == 0
        } by {
            assert((j + 1) * limit == j * limit + limit) by (nonlinear_arith);
            assert(j * limit >= 0) by (nonlinear_arith)
                requires
                    j >= 0,
            ;
            if j < count - 1 {
                assert((j + 1) * limit <= (count - 1) * limit) by (nonlinear_arith)
                    requires
                        j + 1 <= count - 1,
                ;
            } else {
                assert(j + 1 == count);
            }
            let a = from + j * limit;
            let b = if j < slices.len() - 1 {
                a + limit
            } else {
                to
            };
            assert(chunk_end(a as nat, to as nat, limit) == b);
        }
    }
}

/// The entries of nodes are those of the first and those of the others.
proof fn lemma_entries_of(
    nodes: Seq<NodeResources>,
    layers: Seq<LayerSpec>,
    q: Seq<int>,
    from: int,
    limit: nat,
    h: Seq<int>,
    own: Seq<SliceView>,
    others: Seq<(Seq<char>, Seq<SliceView>)>,
) -> (holders: Seq<int>)
    requires
        nodes.len() > 0,
        q.len() == nodes.len(),
        from <= q[0],
        from < q[0] ==> are_slices_of(layers, from, q[0], limit, own),
        are_entries_of(nodes.drop_first(), layers, q, limit, h, others),
    ensures
        are_entries_of(
            nodes,
            layers,
            seq![from] + q,
            limit,
            holders,
            if from < q[0] {
                seq![(nodes[0].id@, own)] + others
            } else {
                others
            },
        ),
{
    let tail = nodes.drop_first();
    let cuts = seq![from] + q;
    let shifted = h.map_values(|p: int| p + 1);
    let skip: int = if from < q[0] {
        1
    } else {
        0
    };
    let holders = if from < q[0] {
        seq![0int] + shifted
    } else {
        shifted
    };
    let entries = if from < q[0] {
        seq![(nodes[0].id@, own)] + others
    } else {
        others
    };
    assert(cuts[0] == from && cuts[1] == q[0]);
    assert forall|k: int|
        #![trigger holders[k]]
        #![trigger entries[k]]
        0 <= k < entries.len() implies is_entry_of(
        nodes,
        layers,
        cuts,
        limit,
        holders[k],
        entries[k],
    ) by {
        if k >= skip {
            let m = k - skip;
            let p = h[m];
            assert(entries[k] == others[m]);
            assert(is_entry_of(tail, layers, q, limit, p, others[m]));
            assert(holders[k] == p + 1);
            assert(tail[p] == nodes[p + 1]);
            assert(cuts[p + 1] == q[p]);
            assert(cuts[p + 2] == q[p + 1]);
        }
    }
    assert forall|k: int, l: int|
        #![trigger holders[k], holders[l]]
        0 <= k < l < holders.len() implies holders[k] < holders[l] by {
        let m = l - skip;
        assert(holders[l] == h[m] + 1);
        assert(is_entry_of(tail, layers, q, limit, h[m], others[m]));
        if k >= skip {
            assert(holders[k] == h[k - skip] + 1);
        }
    }
    assert forall|p: int|
        #![trigger holders.contains(p)]
        0 <= p < nodes.len() && cuts[p] < cuts[p + 1] implies holders.contains(p) by {
        if p > 0 {
            assert(tail[p - 1] == nodes[p]);
            assert(cuts[p] == q[p - 1] && cuts[p + 1] == q[p]);
            assert(h.contains(p - 1));
            let m = h.index_of(p - 1);
            assert(holders[m + skip] == p);
        } else {
            assert(holders[0] == 0);
        }
    }
    assert(holders.len() == entries.len());
    holders
}

proof fn lemma_greedy(
    nodes: Seq<NodeResources>,
    layers: Seq<LayerSpec>,
    from: int,
    limit: nat,
) -> (r: (Seq<int>, Seq<int>))
    requires
        0 <= from <= layers.len(),
        limit > 0,
    ensures
        are_greedy_cuts(nodes, layers, r.0, from),
        r.0.last() == placed_end(nodes, layers, from),
        are_entries_of(nodes, layers, r.0, limit, r.1, assignments(nodes, layers, from, limit)),
    decreases nodes.len(),
{
    if nodes.len() == 0 {
        (seq![from], Seq::empty())
    } else {
        let end = fitting_end(layers, from, from, nodes[0].vram_gb@);
        lemma_fitting_end_bounds(layers, from, from, nodes[0].vram_gb@);
        lemma_full_load(layers, from, from, nodes[0].vram_gb@);
        let tail = nodes.drop_first();
        let (q, h) = lemma_greedy(tail, layers, end, limit);
        let others = assignments(tail, layers, end, limit);
        let entries = assignments(nodes, layers, from, limit);
        let own = node_slices(layers, from, end, limit);
        let cuts = seq![from] + q;
        assert forall|p: int| #![trigger nodes[p]] 0 <= p < nodes.len() implies is_full_load(
            nodes[p],
            layers,
            cuts[p],
            cuts[p + 1],
        ) by {
            if p > 0 {
                assert(tail[p - 1] == nodes[p]);
                assert(cuts[p] == q[p - 1] && cuts[p + 1] == q[p]);
            } else {
                assert(cuts[1] == end);
            }
        }
        if end > from {
            lemma_slices_of(layers, from, end, limit);
        }
        let holders = lemma_entries_of(nodes, layers, q, from, limit, h, own, others);
        assert(cuts.last() == q.last());
        (cuts, holders)
    }
}

proof fn lemma_nodes_sorted(nodes: Seq<NodeResources>)
    requires
        nodes_comparable(nodes),
    ensures
        is_by_descending_vram(nodes, by_vram(nodes)),
{
    let sorted = by_vram(nodes);
    sorting_keeps_items(nodes, vram_before());
    sorting_orders(nodes, vram_before());
    assert forall|i: int, j: int|
        #![trigger sorted[i], sorted[j]]
        0 <= i < j < sorted.len() implies !sorted[i].vram_gb@.below(sorted[j].vram_gb@) by {
        assert(!vram_before()(sorted[j], sorted[i]));
    }
    assert forall|y: NodeResources| #![trigger nodes.contains(y)] nodes.contains(y) implies
        sorted.filter(
        |z: NodeResources| !y.vram_gb@.below(z.vram_gb@) && !z.vram_gb@.below(y.vram_gb@),
    ) == nodes.filter(
        |z: NodeResources| !y.vram_gb@.below(z.vram_gb@) && !z.vram_gb@.below(y.vram_gb@),
    ) by {
        sorting_is_stable(nodes, vram_before(), y);
        let f = |z: NodeResources| tied(y, z, vram_before());
        let g = |z: NodeResources|
            !y.vram_gb@.below(z.vram_gb@) && !z.vram_gb@.below(y.vram_gb@);
        assert(f =~= g);
    }
}

proof fn lemma_layers_sorted(layers: Seq<LayerSpec>)
    ensures
        is_by_ascending_index(layers, by_index(layers)),
{
    let queue = by_index(layers);
    lemma_layers_ordered(layers);
    sorting_keeps_items(layers, index_before());
    assert forall|i: int, j: int|
        #![trigger queue[i], queue[j]]
        0 <= i < j < queue.len() implies queue[i].index <= queue[j].index by {
        assert(!index_before()(queue[j], queue[i]));
    }
    assert forall|y: LayerSpec| #![trigger layers.contains(y)] layers.contains(y) implies
        queue.filter(|z: LayerSpec| z.index == y.index) == layers.filter(
        |z: LayerSpec| z.index == y.index,
    ) by {
        sorting_is_stable(layers, index_before(), y);
        let f = |z: LayerSpec| tied(y, z, index_before());
        let g = |z: LayerSpec| z.index == y.index;
        assert(f =~= g);
    }
}

proof fn lemma_ends_fit(nodes: Seq<NodeResources>, layers: Seq<LayerSpec>)
    ensures
        slice_ends_fit(nodes, layers) <==> forall|i: int|
            0 <= i < placed_end(by_vram(nodes), by_index(layers), 0) ==> (#[trigger] by_index(
                layers,
            )[i]).index < usize::MAX,
{
    let queue = by_index(layers);
    let end = placed_end(by_vram(nodes), queue, 0);
    lemma_layers_sorted(layers);
    lemma_placed_end_bounds(by_vram(nodes), queue, 0);
    if slice_ends_fit(nodes, layers) {
        assert forall|i: int| 0 <= i < end implies (#[trigger] queue[i]).index < usize::MAX by {
            if forall|i: int| 0 <= i < layers.len() ==> (#[trigger] layers[i]).index < usize::MAX {
                lemma_sorted_contains(layers, index_before());
                assert(queue.contains(queue[i]));
                assert(layers.contains(queue[i]));
                let k = layers.index_of(queue[i]);
                assert(layers[k].index < usize::MAX);
            } else if i < end - 1 {
                assert(queue[i].index <= queue[end - 1].index);
            }
        }
    } else {
        assert(end > 0 && queue[end - 1].index >= usize::MAX);
    }
}

/// How layers are distributed over nodes.
pub struct Greedy {
    /// The nodes by descending VRAM.
    pub nodes: Seq<NodeResources>,
    /// The layers by ascending index.
    pub layers: Seq<LayerSpec>,
    /// Where the layers of each node begin, and where those of the last node end.
    pub cuts: Seq<int>,
    /// The positions of the nodes that hold layers.
    pub holders: Seq<int>,
}

/// A distribution is greedy. The nodes take layers in turn, from the one with the most VRAM,
/// and the layers come by ascending index. Each node takes layers as long as what they need,
/// each its own VRAM, stays within the node's, and no fewer. There is a plan just when that
/// places all layers; its entries are what the nodes hold, and a failure tells how many layers
/// are left. The ends of the slices are indices just when no layer that is placed has the
/// largest one.
pub proof fn a_distribution_is_greedy(
    nodes: Seq<NodeResources>,
    layers: Seq<LayerSpec>,
    limit: nat,
) -> (g: Greedy)
    requires
        limit > 0,
        nodes_comparable(nodes),
    ensures
        is_by_descending_vram(nodes, g.nodes),
        is_by_ascending_index(layers, g.layers),
        are_greedy_cuts(g.nodes, g.layers, g.cuts, 0),
        slice_ends_fit(nodes, layers) <==> forall|i: int|
            0 <= i < g.cuts.last() ==> (#[trigger] g.layers[i]).index < usize::MAX,
        match distribution(nodes, layers, limit) {
            Ok(plan) => {
                &&& nodes.len() > 0
                &&& g.cuts.last() == layers.len()
                &&& are_entries_of(
                    g.nodes,
                    g.layers,
                    g.cuts,
                    limit,
                    g.holders,
                    plan.distributions,
                )
                &&& plan.total_layers == layers.len()
                &&& plan.participating_nodes.len() == plan.distributions.len()
                &&& forall|k: int|
                    0 <= k < plan.distributions.len() ==> #[trigger] plan.participating_nodes[k]
                        == plan.distributions[k].0
            },
            Err(message) => if nodes.len() == 0 {
                message == "no nodes available"@
            } else {
                &&& g.cuts.last() < layers.len()
                &&& message == "insufficient VRAM: "@ + decimal(
                    (layers.len() - g.cuts.last()) as nat,
                ) + " layers remain"@
            },
        },
{
    let sorted = by_vram(nodes);
    let queue = by_index(layers);
    lemma_nodes_sorted(nodes);
    lemma_layers_sorted(layers);
    let (cuts, holders) = lemma_greedy(sorted, queue, 0, limit);
    lemma_placed_end_bounds(sorted, queue, 0);
    assert(entry_nodes(assignments(sorted, queue, 0, limit)).len() == assignments(
        sorted,
        queue,
        0,
        limit,
    ).len());
    lemma_ends_fit(nodes, layers);
    Greedy { nodes: sorted, layers: queue, cuts, holders }
}

/// The VRAM of nodes can be ordered just when all of it is numbers, or all numbers among it are
/// the same.
pub proof fn nodes_can_be_ordered_by_numbers(nodes: Seq<NodeResources>)
    ensures
        nodes_comparable(nodes) <==> (forall|i: int|
            0 <= i < nodes.len() ==> (#[trigger] nodes[i]).vram_gb@ !is NaN) || (forall|
            i: int,
            j: int,
        |
            #![trigger nodes[i], nodes[j]]
            0 <= i < nodes.len() && 0 <= j < nodes.len() && nodes[i].vram_gb@ !is NaN
                && nodes[j].vram_gb@ !is NaN ==> nodes[i].vram_gb@.place()
                == nodes[j].vram_gb@.place()),
{
    let before = vram_before();
    let numbers = forall|i: int|
        0 <= i < nodes.len() ==> (#[trigger] nodes[i]).vram_gb@ !is NaN;
    let same = forall|i: int, j: int|
        #![trigger nodes[i], nodes[j]]
        0 <= i < nodes.len() && 0 <= j < nodes.len() && nodes[i].vram_gb@ !is NaN
            && nodes[j].vram_gb@ !is NaN ==> nodes[i].vram_gb@.place() == nodes[j].vram_gb@.place();
    if numbers || same {
        assert forall|x: NodeResources, y: NodeResources, z: NodeResources|
            #![trigger nodes.contains(x), nodes.contains(y), nodes.contains(z)]
            nodes.contains(x) && nodes.contains(y) && nodes.contains(z) && before(
                x,
                z,
            ) implies before(x, y) || before(y, z) by {
            let i = nodes.index_of(x);
            let j = nodes.index_of(y);
            let k = nodes.index_of(z);
            assert(nodes[i] == x && nodes[j] == y && nodes[k] == z);
        }
    } else {
        let k = choose|k: int| 0 <= k < nodes.len() && (#[trigger] nodes[k]).vram_gb@ is NaN;
        let (i, j) = choose|i: int, j: int|
            #![trigger nodes[i], nodes[j]]
            0 <= i < nodes.len() && 0 <= j < nodes.len() && nodes[i].vram_gb@ !is NaN
                && nodes[j].vram_gb@ !is NaN && nodes[i].vram_gb@.place()
                != nodes[j].vram_gb@.place();
        let x = nodes[i];
        let y = nodes[k];
        let z = nodes[j];
        assert(nodes.contains(x) && nodes.contains(y) && nodes.contains(z));
        assert(before(x, z) || before(z, x));
        assert(!before(x, y) && !before(y, x) && !before(z, y) && !before(y, z));
    }
}

} // verus!
