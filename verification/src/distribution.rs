//! Greedy distribution of layers over nodes: the nodes take contiguous layers in turn,
//! from the one with the most VRAM, each as many as fit.
use crate::binary32::{Binary32, Real32};
use crate::chunking::{chunk_count, chunk_end, lemma_chunk_count, share};
use crate::cluster::{LayerSpec, NodeResources};
use crate::decimal::{decimal, push_decimal};
use crate::ordering::{
    are_positions, in_order, items_at, lemma_sorted_contains, orders, sorted_positions,
    sorting_keeps_items, sorting_orders, stably_sorted,
};
use crate::plan::{
    entries_view, entry_nodes, names_view, slices_view, LoadDistributionPlan, PlanView, SliceView,
    TensorSlice,
};
use vstd::prelude::*;
use vstd::string::StringExecFns;

verus! {

/// A node with more VRAM stands before one with less.
pub open spec fn vram_before() -> spec_fn(NodeResources, NodeResources) -> bool {
    |x: NodeResources, y: NodeResources| y.vram_gb@.below(x.vram_gb@)
}

/// The nodes by descending VRAM.
pub open spec fn by_vram(nodes: Seq<NodeResources>) -> Seq<NodeResources> {
    stably_sorted(nodes, vram_before())
}

/// A layer with a smaller index stands before one with a larger.
pub open spec fn index_before() -> spec_fn(LayerSpec, LayerSpec) -> bool {
    |x: LayerSpec, y: LayerSpec| x.index < y.index
}

/// The layers by ascending index.
pub open spec fn by_index(layers: Seq<LayerSpec>) -> Seq<LayerSpec> {
    stably_sorted(layers, index_before())
}

/// The VRAM that the layers from `from` up to `to` need, summed in their order.
pub open spec fn vram_of(layers: Seq<LayerSpec>, from: int, to: int) -> Real32
    decreases to - from,
{
    if to <= from {
        Real32::zero()
    } else {
        vram_of(layers, from, to - 1).plus(layers[to - 1].vram_gb@)
    }
}

/// The end of the layers from `from` on that fit a capacity, when those up to `to` do.
pub open spec fn fitting_end(layers: Seq<LayerSpec>, from: int, to: int, capacity: Real32) -> int
    decreases layers.len() - to,
{
    if to >= layers.len() || capacity.below(vram_of(layers, from, to + 1)) {
        to
    } else {
        fitting_end(layers, from, to + 1, capacity)
    }
}

/// The slices of a node that holds the layers from `from` up to `to`: one, or chunks of
/// `limit` layers with an equal share of the VRAM per layer.
pub open spec fn node_slices(layers: Seq<LayerSpec>, from: int, to: int, limit: nat) -> Seq<
    SliceView,
> {
    let total = (to - from) as nat;
    let used = vram_of(layers, from, to);
    if total <= limit {
        seq![
            SliceView {
                start: layers[from].index as nat,
                end: (layers[to - 1].index + 1) as nat,
                size: used,
                num_weights: 0,
            },
        ]
    } else {
        Seq::new(
            chunk_count(total, limit),
            |i: int|
                {
                    let a = (from + i * limit) as nat;
                    let b = chunk_end(a, to as nat, limit);
                    SliceView {
                        start: layers[a as int].index as nat,
                        end: (layers[b - 1].index + 1) as nat,
                        size: share(used, total, (b - a) as nat),
                        num_weights: 0,
                    }
                },
        )
    }
}

/// The entries of the plan for the layers from `from` on.
pub open spec fn assignments(
    nodes: Seq<NodeResources>,
    layers: Seq<LayerSpec>,
    from: int,
    limit: nat,
) -> Seq<(Seq<char>, Seq<SliceView>)>
    decreases nodes.len(),
{
    if nodes.len() == 0 || from >= layers.len() {
        Seq::empty()
    } else {
        let end = fitting_end(layers, from, from, nodes[0].vram_gb@);
        let rest = assignments(nodes.drop_first(), layers, end, limit);
        if end > from {
            seq![(nodes[0].id@, node_slices(layers, from, end, limit))] + rest
        } else {
            rest
        }
    }
}

/// How far the layers from `from` on can be placed.
pub open spec fn placed_end(nodes: Seq<NodeResources>, layers: Seq<LayerSpec>, from: int) -> int
    decreases nodes.len(),
{
    if nodes.len() == 0 || from >= layers.len() {
        from
    } else {
        placed_end(
            nodes.drop_first(),
            layers,
            fitting_end(layers, from, from, nodes[0].vram_gb@),
        )
    }
}

/// What distributing the layers gives: a plan, or the reason why there is none.
pub open spec fn distribution(
    nodes: Seq<NodeResources>,
    layers: Seq<LayerSpec>,
    limit: nat,
) -> Result<PlanView, Seq<char>> {
    let sorted = by_vram(nodes);
    let queue = by_index(layers);
    let end = placed_end(sorted, queue, 0);
    if nodes.len() == 0 {
        Err("no nodes available"@)
    } else if end >= queue.len() {
        let entries = assignments(sorted, queue, 0, limit);
        Ok(
            PlanView {
                distributions: entries,
                total_layers: layers.len(),
                participating_nodes: entry_nodes(entries),
            },
        )
    } else {
        Err("insufficient VRAM: "@ + decimal((queue.len() - end) as nat) + " layers remain"@)
    }
}

/// A result with what it holds.
pub open spec fn result_view(r: Result<LoadDistributionPlan, String>) -> Result<
    PlanView,
    Seq<char>,
> {
    match r {
        Ok(plan) => Ok(plan@),
        Err(message) => Err(message@),
    }
}

/// Whether the VRAM of the nodes can be ordered: all of it is numbers, or all numbers
/// among it are equal.
pub open spec fn nodes_comparable(nodes: Seq<NodeResources>) -> bool {
    orders(nodes, vram_before())
}

/// Whether the VRAM of the nodes can be ordered.
pub fn can_be_ordered(nodes: &Vec<NodeResources>) -> (r: bool)
    ensures
        r == nodes_comparable(nodes@),
{
    let mut nan_at: Option<usize> = None;
    let mut number_at: Option<usize> = None;
    let mut other_at: Option<usize> = None;
    let mut i: usize = 0;
    while i < nodes.len()
        invariant
            i <= nodes.len(),
            match nan_at {
                Some(p) => p < nodes.len() && nodes@[p as int].vram_gb@ is NaN,
                None => forall|j: int| 0 <= j < i ==> (#[trigger] nodes@[j]).vram_gb@ !is NaN,
            },
            match number_at {
                Some(p) => p < nodes.len() && nodes@[p as int].vram_gb@ !is NaN,
                None => forall|j: int| 0 <= j < i ==> (#[trigger] nodes@[j]).vram_gb@ is NaN,
            },
            match other_at {
                Some(p) => number_at is Some && p < nodes.len() && nodes@[p as int].vram_gb@ !is NaN
                    && nodes@[p as int].vram_gb@.place() != nodes@[number_at->0 as int].vram_gb@.place(),
                None => number_at is Some ==> forall|j: int|
                    0 <= j < i && (#[trigger] nodes@[j]).vram_gb@ !is NaN
                        ==> nodes@[j].vram_gb@.place() == nodes@[number_at->0 as int].vram_gb@.place(),
            },
        decreases nodes.len() - i,
    {
        let vram: Binary32 = nodes[i].vram_gb;
        if vram.is_nan() {
            nan_at = Some(i);
        } else {
            match number_at {
                Some(p) => {
                    if vram.lt(nodes[p].vram_gb) || nodes[p].vram_gb.lt(vram) {
                        other_at = Some(i);
                    }
                },
                None => {
                    number_at = Some(i);
                },
            }
        }
        i = i + 1;
    }
    proof {
        let before = vram_before();
        if nan_at is Some && other_at is Some {
            let y = nodes@[nan_at->0 as int];
            let a = nodes@[number_at->0 as int];
            let b = nodes@[other_at->0 as int];
            assert(nodes@.contains(y) && nodes@.contains(a) && nodes@.contains(b));
            assert(before(a, b) || before(b, a));
            assert(!before(a, y) && !before(y, b) && !before(b, y) && !before(y, a));
            assert(!nodes_comparable(nodes@));
        } else {
            assert forall|x: NodeResources, y: NodeResources, z: NodeResources|
                #![trigger nodes@.contains(x), nodes@.contains(y), nodes@.contains(z)]
                nodes@.contains(x) && nodes@.contains(y) && nodes@.contains(z) && before(
                    x,
                    z,
                ) implies before(x, y) || before(y, z) by {
                let i = nodes@.index_of(x);
                let j = nodes@.index_of(y);
                let k = nodes@.index_of(z);
                assert(nodes@[i] == x && nodes@[j] == y && nodes@[k] == z);
            }
        }
    }
    nan_at.is_none() || other_at.is_none()
}

/// Whether the end of the last slice is an index: no layer with the largest index is
/// there, or at least none is placed.
pub open spec fn slice_ends_fit(nodes: Seq<NodeResources>, layers: Seq<LayerSpec>) -> bool {
    ||| forall|i: int| 0 <= i < layers.len() ==> (#[trigger] layers[i]).index < usize::MAX
    ||| placed_end(by_vram(nodes), by_index(layers), 0) == 0
    ||| by_index(layers)[placed_end(by_vram(nodes), by_index(layers), 0) - 1].index < usize::MAX
}

/// Layers are always in some order of their indices.
pub proof fn lemma_layers_ordered(layers: Seq<LayerSpec>)
    ensures
        orders(layers, index_before()),
        in_order(by_index(layers), index_before()),
        by_index(layers).len() == layers.len(),
{
    sorting_orders(layers, index_before());
    sorting_keeps_items(layers, index_before());
}

/// The layers that fit end within the layers that are left.
pub proof fn lemma_fitting_end_bounds(layers: Seq<LayerSpec>, from: int, to: int, capacity: Real32)
    requires
        0 <= from <= to <= layers.len(),
    ensures
        to <= fitting_end(layers, from, to, capacity) <= layers.len(),
    decreases layers.len() - to,
{
    if to < layers.len() && !capacity.below(vram_of(layers, from, to + 1)) {
        lemma_fitting_end_bounds(layers, from, to + 1, capacity);
    }
}

/// Placing goes forward and ends with the layers.
pub proof fn lemma_placed_end_bounds(
    nodes: Seq<NodeResources>,
    layers: Seq<LayerSpec>,
    from: int,
)
    requires
        0 <= from <= layers.len(),
    ensures
        from <= placed_end(nodes, layers, from) <= layers.len(),
    decreases nodes.len(),
{
    if nodes.len() > 0 && from < layers.len() {
        lemma_fitting_end_bounds(layers, from, from, nodes[0].vram_gb@);
        lemma_placed_end_bounds(
            nodes.drop_first(),
            layers,
            fitting_end(layers, from, from, nodes[0].vram_gb@),
        );
    }
}

/// Every layer that is placed has an index below the largest.
proof fn lemma_placed_indices(nodes: Seq<NodeResources>, layers: Seq<LayerSpec>)
    requires
        slice_ends_fit(nodes, layers),
    ensures
        forall|i: int|
            0 <= i < placed_end(by_vram(nodes), by_index(layers), 0) ==> (#[trigger] by_index(
                layers,
            )[i]).index < usize::MAX,
{
    let queue = by_index(layers);
    let end = placed_end(by_vram(nodes), queue, 0);
    lemma_layers_ordered(layers);
    lemma_placed_end_bounds(by_vram(nodes), queue, 0);
    assert forall|i: int| 0 <= i < end implies (#[trigger] queue[i]).index < usize::MAX by {
        if forall|i: int| 0 <= i < layers.len() ==> (#[trigger] layers[i]).index < usize::MAX {
            lemma_sorted_contains(layers, index_before());
            assert(queue.contains(queue[i]));
            assert(layers.contains(queue[i]));
            let k = layers.index_of(queue[i]);
            assert(layers[k].index < usize::MAX);
        } else if i < end - 1 {
            assert(!index_before()(queue[end - 1], queue[i]));
        }
    }
}

fn has_smaller_index(x: &LayerSpec, y: &LayerSpec) -> (r: bool)
    ensures
        r == index_before()(*x, *y),
{
    x.index < y.index
}

fn has_more_vram(x: &NodeResources, y: &NodeResources) -> (r: bool)
    ensures
        r == vram_before()(*x, *y),
{
    y.vram_gb.lt(x.vram_gb)
}

/// The layers by ascending index.
fn sort_layers(layers: &[LayerSpec]) -> (r: Vec<LayerSpec>)
    ensures
        r@ == by_index(layers@),
{
    proof {
        lemma_layers_ordered(layers@);
    }
    let order: Vec<usize> = sorted_positions(layers, has_smaller_index, Ghost(index_before()));
    let mut out: Vec<LayerSpec> = Vec::new();
    let mut i: usize = 0;
    while i < order.len()
        invariant
            i <= order.len(),
            are_positions(layers@, order@),
            out@ == items_at(layers@, order@).take(i as int),
        decreases order.len() - i,
    {
        out.push(layers[order[i]]);
        assert(out@ =~= items_at(layers@, order@).take(i + 1));
        i = i + 1;
    }
    assert(out@ =~= items_at(layers@, order@));
    out
}

/// The positions of the nodes by descending VRAM.
fn sort_nodes(nodes: &Vec<NodeResources>) -> (r: Vec<usize>)
    requires
        nodes_comparable(nodes@),
    ensures
        items_at(nodes@, r@) == by_vram(nodes@),
        are_positions(nodes@, r@),
{
    sorted_positions(nodes.as_slice(), has_more_vram, Ghost(vram_before()))
}

/// The slices of a node that holds the layers from `from` up to `to`.
fn build_slices(
    layers: &Vec<LayerSpec>,
    from: usize,
    to: usize,
    used: Binary32,
    limit: usize,
) -> (r: Vec<TensorSlice>)
    requires
        from < to <= layers.len(),
        limit > 0,
        used@ == vram_of(layers@, from as int, to as int),
        forall|i: int| from <= i < to ==> (#[trigger] layers@[i]).index < usize::MAX,
    ensures
        slices_view(r@) == node_slices(layers@, from as int, to as int, limit as nat),
{
    let total: usize = to - from;
    let ghost all = node_slices(layers@, from as int, to as int, limit as nat);
    if total <= limit {
        let slice: TensorSlice = TensorSlice::new(
            (layers[from].index, layers[to - 1].index + 1),
            used,
        );
        let slices: Vec<TensorSlice> = vec![slice];
        assert(slices_view(slices@) =~= all);
        return slices;
    }
    let ghost count = chunk_count(total as nat, limit as nat);
    proof {
        lemma_chunk_count(total as nat, limit as nat);
    }
    let mut slices: Vec<TensorSlice> = Vec::new();
    let average: Binary32 = used.div(Binary32::from_count(total));
    let ghost mut i: int = 0;
    let mut start: usize = from;
    assert(slices_view(slices@) =~= all.take(0));
    while start < to
        invariant
            limit > 0,
            from < to <= layers.len(),
            total == to - from,
            total > limit,
            used@ == vram_of(layers@, from as int, to as int),
            average@ == used@.over(Real32::count(total as nat)),
            all == node_slices(layers@, from as int, to as int, limit as nat),
            count == chunk_count(total as nat, limit as nat),
            (count - 1) * limit < total <= count * limit,
            0 <= i <= count,
            i < count ==> start == from + i * limit,
            i == count ==> start == to,
            forall|j: int| from <= j < to ==> (#[trigger] layers@[j]).index < usize::MAX,
            slices_view(slices@) == all.take(i),
        decreases to - start,
    {
        proof {
            assert((i + 1) * limit == i * limit + limit) by (nonlinear_arith);
            if i + 1 < count {
                assert((i + 1) * limit <= (count - 1) * limit) by (nonlinear_arith)
                    requires
                        i + 1 <= count - 1,
                ;
            } else {
                assert(i + 1 == count);
            }
            assert(0 <= i * limit) by (nonlinear_arith)
                requires
                    i >= 0,
            ;
        }
        let end: usize = if limit < to - start {
            start + limit
        } else {
            to
        };
        let slice: TensorSlice = TensorSlice::new(
            (layers[start].index, layers[end - 1].index + 1),
            average.mul(Binary32::from_count(end - start)),
        );
        let ghost before = slices@;
        slices.push(slice);
        assert(slice@ == all[i]);
        assert(slices_view(slices@) =~= slices_view(before).push(slice@));
        assert(all.take(i + 1) =~= all.take(i).push(all[i]));
        start = end;
        proof {
            i = i + 1;
        }
    }
    proof {
        if i < count {
            assert(i * limit <= (count - 1) * limit) by (nonlinear_arith)
                requires
                    i <= count - 1,
            ;
        }
    }
    assert(all.take(i) =~= all);
    slices
}

/// The end of the layers from `from` on that fit a capacity, and the VRAM they need.
fn take_fitting(layers: &Vec<LayerSpec>, from: usize, capacity: Binary32) -> (r: (usize, Binary32))
    requires
        from <= layers.len(),
    ensures
        r.0 == fitting_end(layers@, from as int, from as int, capacity@),
        from <= r.0 <= layers.len(),
        r.1@ == vram_of(layers@, from as int, r.0 as int),
{
    let mut used: Binary32 = Binary32::zero();
    let mut end: usize = from;
    while end < layers.len()
        invariant
            from <= end <= layers.len(),
            used@ == vram_of(layers@, from as int, end as int),
            fitting_end(layers@, from as int, from as int, capacity@) == fitting_end(
                layers@,
                from as int,
                end as int,
                capacity@,
            ),
        decreases layers.len() - end,
    {
        let next: Binary32 = used.add(layers[end].vram_gb);
        assert(next@ == vram_of(layers@, from as int, end + 1));
        if capacity.lt(next) {
            return (end, used);
        }
        used = next;
        end = end + 1;
    }
    (end, used)
}

/// How far the layers can be placed on the nodes at the given positions.
fn find_placed_end(nodes: &Vec<NodeResources>, order: &Vec<usize>, layers: &Vec<LayerSpec>) -> (r:
    usize)
    requires
        are_positions(nodes@, order@),
    ensures
        r == placed_end(items_at(nodes@, order@), layers@, 0),
        r <= layers.len(),
{
    let ghost sorted = items_at(nodes@, order@);
    let mut current: usize = 0;
    let mut i: usize = 0;
    assert(sorted.skip(0) =~= sorted);
    while i < order.len() && current < layers.len()
        invariant
            i <= order.len(),
            current <= layers.len(),
            are_positions(nodes@, order@),
            sorted == items_at(nodes@, order@),
            placed_end(sorted, layers@, 0) == placed_end(
                sorted.skip(i as int),
                layers@,
                current as int,
            ),
        decreases order.len() - i,
    {
        assert(sorted.skip(i as int)[0] == nodes@[order@[i as int] as int]);
        assert(sorted.skip(i as int).drop_first() =~= sorted.skip(i + 1));
        current = take_fitting(layers, current, nodes[order[i]].vram_gb).0;
        i = i + 1;
    }
    current
}

/// Whether the end of the last slice is an index.
pub fn ends_are_indices(nodes: &Vec<NodeResources>, layers: &[LayerSpec]) -> (r: bool)
    requires
        nodes_comparable(nodes@),
    ensures
        r == slice_ends_fit(nodes@, layers@),
{
    let mut i: usize = 0;
    while i < layers.len() && layers[i].index < usize::MAX
        invariant
            i <= layers.len(),
            forall|j: int| 0 <= j < i ==> (#[trigger] layers@[j]).index < usize::MAX,
        ensures
            i <= layers.len(),
            forall|j: int| 0 <= j < i ==> (#[trigger] layers@[j]).index < usize::MAX,
            i < layers.len() ==> layers@[i as int].index == usize::MAX,
        decreases layers.len() - i,
    {
        i = i + 1;
    }
    if i == layers.len() {
        return true;
    }
    let queue: Vec<LayerSpec> = sort_layers(layers);
    let end: usize = find_placed_end(nodes, &sort_nodes(nodes), &queue);
    end == 0 || queue[end - 1].index < usize::MAX
}

fn shortage_message(remaining: usize) -> (r: String)
    ensures
        r@ == "insufficient VRAM: "@ + decimal(remaining as nat) + " layers remain"@,
{
    let mut message: String = "insufficient VRAM: ".to_owned();
    push_decimal(&mut message, remaining as u128);
    message.append(" layers remain");
    message
}

/// Distributes the layers over the nodes, in slices of at most `limit` layers.
pub fn distribute(nodes: &Vec<NodeResources>, layers: &[LayerSpec], limit: usize) -> (r: Result<
    LoadDistributionPlan,
    String,
>)
    requires
        limit > 0,
        nodes_comparable(nodes@),
        slice_ends_fit(nodes@, layers@),
    ensures
        result_view(r) == distribution(nodes@, layers@, limit as nat),
{
    if nodes.len() == 0 {
        return Err("no nodes available".to_owned());
    }
    let order: Vec<usize> = sort_nodes(nodes);
    let queue: Vec<LayerSpec> = sort_layers(layers);
    let ghost sorted = by_vram(nodes@);
    let ghost all = assignments(sorted, queue@, 0, limit as nat);
    let ghost last = placed_end(sorted, queue@, 0);
    proof {
        lemma_layers_ordered(layers@);
        lemma_placed_indices(nodes@, layers@);
        lemma_placed_end_bounds(sorted, queue@, 0);
    }
    let mut distributions: Vec<(String, Vec<TensorSlice>)> = Vec::new();
    let mut participating_nodes: Vec<String> = Vec::new();
    let mut current: usize = 0;
    let mut i: usize = 0;
    assert(sorted.skip(0) =~= sorted);
    assert(entries_view(distributions@) + all =~= all);
    assert(names_view(participating_nodes@) =~= entry_nodes(entries_view(distributions@)));
    while i < order.len() && current < queue.len()
        invariant
            limit > 0,
            i <= order.len(),
            order.len() == sorted.len(),
            sorted == items_at(nodes@, order@),
            are_positions(nodes@, order@),
            current <= queue.len(),
            current <= last,
            last == placed_end(sorted.skip(i as int), queue@, current as int),
            forall|j: int| 0 <= j < last ==> (#[trigger] queue@[j]).index < usize::MAX,
            all == entries_view(distributions@) + assignments(
                sorted.skip(i as int),
                queue@,
                current as int,
                limit as nat,
            ),
            names_view(participating_nodes@) == entry_nodes(entries_view(distributions@)),
        decreases order.len() - i,
    {
        let node: &NodeResources = &nodes[order[i]];
        let ghost rest = sorted.skip(i as int);
        assert(rest[0] == *node);
        assert(rest.drop_first() =~= sorted.skip(i + 1));
        let (end, used): (usize, Binary32) = take_fitting(&queue, current, node.vram_gb);
        proof {
            lemma_placed_end_bounds(rest.drop_first(), queue@, end as int);
        }
        if end > current {
            let slices: Vec<TensorSlice> = build_slices(&queue, current, end, used, limit);
            let ghost before = distributions@;
            let ghost names = participating_nodes@;
            let ghost entry = (node.id@, slices_view(slices@));
            participating_nodes.push(node.id.clone());
            distributions.push((node.id.clone(), slices));
            assert(entries_view(distributions@) =~= entries_view(before).push(entry));
            assert(names_view(participating_nodes@) =~= names_view(names).push(node.id@));
            assert(entry_nodes(entries_view(distributions@)) =~= entry_nodes(
                entries_view(before),
            ).push(node.id@));
            assert(all =~= entries_view(distributions@) + assignments(
                sorted.skip(i + 1),
                queue@,
                end as int,
                limit as nat,
            ));
            current = end;
        }
        i = i + 1;
    }
    assert(entries_view(distributions@) =~= all);
    if current >= queue.len() {
        Ok(LoadDistributionPlan { distributions, total_layers: queue.len(), participating_nodes })
    } else {
        Err(shortage_message(queue.len() - current))
    }
}

} // verus!
