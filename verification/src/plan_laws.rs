//! What holds of every distribution and of every chunking.
use crate::binary32::Real32;
use crate::chunking::{
    all_chunks, chunk_count, chunk_end, chunk_limit, chunked, chunked_entries, lemma_chunk_count,
    lemma_short_slices_stay, slice_chunks,
};
use crate::cluster::{LayerSpec, NodeResources};
use crate::distribution::{
    assignments, by_index, by_vram, distribution, fitting_end, index_before,
    lemma_fitting_end_bounds, lemma_layers_ordered, lemma_placed_end_bounds, node_slices,
    nodes_comparable, placed_end, vram_before, vram_of,
};
use crate::ordering::{
    in_order, sorting_forgets_the_order, sorting_keeps_items, sorting_orders, ties_are_equal,
};
use crate::plan::{entry_nodes, PlanView, SliceView};
use vstd::prelude::*;

verus! {

/// The slices of all entries, one entry after the other.
pub open spec fn all_slices(entries: Seq<(Seq<char>, Seq<SliceView>)>) -> Seq<SliceView>
    decreases entries.len(),
{
    if entries.len() == 0 {
        Seq::empty()
    } else {
        entries[0].1 + all_slices(entries.drop_first())
    }
}

/// Whether the slices hold the layers between the cuts: each slice all of those from one
/// cut up to the next, at least one and at most `limit`.
pub open spec fn cut_into(
    layers: Seq<LayerSpec>,
    slices: Seq<SliceView>,
    cuts: Seq<int>,
    from: int,
    to: int,
    limit: nat,
) -> bool {
    &&& cuts.len() == slices.len() + 1
    &&& cuts[0] == from
    &&& cuts.last() == to
    &&& forall|j: int|
        #![trigger slices[j]]
        0 <= j < slices.len() ==> {
            &&& cuts[j] < cuts[j + 1] <= cuts[j] + limit
            &&& slices[j].start == layers[cuts[j]].index
            &&& slices[j].end == layers[cuts[j + 1] - 1].index + 1
        }
}

proof fn lemma_join_cuts(
    layers: Seq<LayerSpec>,
    a: Seq<SliceView>,
    b: Seq<SliceView>,
    p: Seq<int>,
    q: Seq<int>,
    from: int,
    mid: int,
    to: int,
    limit: nat,
)
    requires
        cut_into(layers, a, p, from, mid, limit),
        cut_into(layers, b, q, mid, to, limit),
    ensures
        cut_into(layers, a + b, p.drop_last() + q, from, to, limit),
{
    let s = a + b;
    let c = p.drop_last() + q;
    assert forall|j: int| #![trigger s[j]] 0 <= j < s.len() implies {
        &&& c[j] < c[j + 1] <= c[j] + limit
        &&& s[j].start == layers[c[j]].index
        &&& s[j].end == layers[c[j + 1] - 1].index + 1
    } by {
        if j < a.len() {
            assert(s[j] == a[j]);
            assert(c[j] == p[j]);
            assert(c[j + 1] == p[j + 1]);
        } else {
            assert(s[j] == b[j - a.len()]);
            assert(c[j] == q[j - a.len()]);
            assert(c[j + 1] == q[j - a.len() + 1]);
        }
    }
    assert(c[0] == from);
}

proof fn lemma_node_cuts(layers: Seq<LayerSpec>, from: int, to: int, limit: nat) -> (cuts: Seq<int>)
    requires
        0 <= from < to <= layers.len(),
        limit > 0,
    ensures
        cut_into(layers, node_slices(layers, from, to, limit), cuts, from, to, limit),
{
    let total = (to - from) as nat;
    let slices = node_slices(layers, from, to, limit);
    if total <= limit {
        seq![from, to]
    } else {
        let count = chunk_count(total, limit);
        lemma_chunk_count(total, limit);
        let cuts = Seq::new(
            count + 1,
            |i: int|
                if i < count {
                    from + i * limit
                } else {
                    to
                },
        );
        assert(0 * limit == 0);
        assert forall|j: int| #![trigger slices[j]] 0 <= j < slices.len() implies {
            &&& cuts[j] < cuts[j + 1] <= cuts[j] + limit
            &&& slices[j].start == layers[cuts[j]].index
            &&& slices[j].end == layers[cuts[j + 1] - 1].index + 1
        } by {
            assert((j + 1) * limit == j * limit + limit) by (nonlinear_arith);
            assert(j * limit >= 0) by (nonlinear_arith)
                requires
                    j >= 0,
            ;
            if j + 1 < count {
                assert((j + 1) * limit <= (count - 1) * limit) by (nonlinear_arith)
                    requires
                        j + 1 <= count - 1,
                ;
            } else {
                assert(j + 1 == count);
            }
            assert(chunk_end((from + j * limit) as nat, to as nat, limit) == cuts[j + 1]);
        }
        cuts
    }
}

proof fn lemma_assignment_cuts(
    nodes: Seq<NodeResources>,
    layers: Seq<LayerSpec>,
    from: int,
    limit: nat,
) -> (cuts: Seq<int>)
    requires
        0 <= from <= layers.len(),
        limit > 0,
    ensures
        cut_into(
            layers,
            all_slices(assignments(nodes, layers, from, limit)),
            cuts,
            from,
            placed_end(nodes, layers, from),
            limit,
        ),
    decreases nodes.len(),
{
    if nodes.len() == 0 || from >= layers.len() {
        seq![from]
    } else {
        let end = fitting_end(layers, from, from, nodes[0].vram_gb@);
        lemma_fitting_end_bounds(layers, from, from, nodes[0].vram_gb@);
        let rest = lemma_assignment_cuts(nodes.drop_first(), layers, end, limit);
        if end > from {
            let entries = assignments(nodes, layers, from, limit);
            let own = lemma_node_cuts(layers, from, end, limit);
            assert(entries.drop_first() =~= assignments(nodes.drop_first(), layers, end, limit));
            lemma_join_cuts(
                layers,
                node_slices(layers, from, end, limit),
                all_slices(entries.drop_first()),
                own,
                rest,
                from,
                end,
                placed_end(nodes, layers, from),
                limit,
            );
            own.drop_last() + rest
        } else {
            rest
        }
    }
}

/// A plan places every layer exactly once: its slices, one after the other, hold the
/// layers by ascending index, from the first to the last without a gap or an overlap,
/// and none holds more than `limit`.
pub proof fn every_layer_is_placed_once(
    nodes: Seq<NodeResources>,
    layers: Seq<LayerSpec>,
    limit: nat,
) -> (cuts: Seq<int>)
    requires
        limit > 0,
        distribution(nodes, layers, limit) is Ok,
    ensures
        cut_into(
            by_index(layers),
            all_slices(distribution(nodes, layers, limit)->Ok_0.distributions),
            cuts,
            0,
            layers.len() as int,
            limit,
        ),
        by_index(layers).to_multiset() == layers.to_multiset(),
        distribution(nodes, layers, limit)->Ok_0.total_layers == layers.len(),
{
    lemma_layers_ordered(layers);
    sorting_keeps_items(layers, index_before());
    lemma_placed_end_bounds(by_vram(nodes), by_index(layers), 0);
    lemma_assignment_cuts(by_vram(nodes), by_index(layers), 0, limit)
}

/// The layers that a node takes fit its VRAM.
proof fn lemma_fitting_end_fits(layers: Seq<LayerSpec>, from: int, to: int, capacity: Real32)
    requires
        0 <= from <= to <= layers.len(),
    ensures
        fitting_end(layers, from, to, capacity) > to ==> !capacity.below(
            vram_of(layers, from, fitting_end(layers, from, to, capacity)),
        ),
        fitting_end(layers, from, to, capacity) < layers.len() ==> capacity.below(
            vram_of(layers, from, fitting_end(layers, from, to, capacity) + 1),
        ),
    decreases layers.len() - to,
{
    if to < layers.len() && !capacity.below(vram_of(layers, from, to + 1)) {
        lemma_fitting_end_fits(layers, from, to + 1, capacity);
    }
}

/// What a node holds: its position among the nodes, and the layers from `from` up to `to`.
pub struct Holding {
    pub position: int,
    pub from: int,
    pub to: int,
}

/// Whether an entry is what a node holds, and the layers together need no more than the
/// node's VRAM.
pub open spec fn is_held(
    nodes: Seq<NodeResources>,
    layers: Seq<LayerSpec>,
    limit: nat,
    entry: (Seq<char>, Seq<SliceView>),
    held: Holding,
) -> bool {
    &&& 0 <= held.position < nodes.len()
    &&& 0 <= held.from < held.to <= layers.len()
    &&& entry.0 == nodes[held.position].id@
    &&& entry.1 == node_slices(layers, held.from, held.to, limit)
    &&& !nodes[held.position].vram_gb@.below(vram_of(layers, held.from, held.to))
}

/// Whether the entries are what the nodes hold, each within its VRAM, at most once and in
/// the order of the nodes.
pub open spec fn within_capacity(
    nodes: Seq<NodeResources>,
    layers: Seq<LayerSpec>,
    limit: nat,
    entries: Seq<(Seq<char>, Seq<SliceView>)>,
    held: Seq<Holding>,
) -> bool {
    &&& held.len() == entries.len()
    &&& forall|k: int|
        0 <= k < entries.len() ==> is_held(
            nodes,
            layers,
            limit,
            #[trigger] entries[k],
            #[trigger] held[k],
        )
    &&& forall|k: int, l: int|
        #![trigger held[k], held[l]]
        0 <= k < l < held.len() ==> held[k].position < held[l].position
}

proof fn lemma_within_capacity(
    nodes: Seq<NodeResources>,
    layers: Seq<LayerSpec>,
    from: int,
    limit: nat,
) -> (held: Seq<Holding>)
    requires
        0 <= from <= layers.len(),
    ensures
        within_capacity(nodes, layers, limit, assignments(nodes, layers, from, limit), held),
    decreases nodes.len(),
{
    if nodes.len() == 0 || from >= layers.len() {
        Seq::empty()
    } else {
        let end = fitting_end(layers, from, from, nodes[0].vram_gb@);
        lemma_fitting_end_bounds(layers, from, from, nodes[0].vram_gb@);
        lemma_fitting_end_fits(layers, from, from, nodes[0].vram_gb@);
        let tail = nodes.drop_first();
        let others = assignments(tail, layers, end, limit);
        let q = lemma_within_capacity(tail, layers, end, limit);
        let entries = assignments(nodes, layers, from, limit);
        let shifted = q.map_values(|h: Holding| Holding { position: h.position + 1, ..h });
        assert forall|k: int| 0 <= k < others.len() implies is_held(
            nodes,
            layers,
            limit,
            #[trigger] others[k],
            #[trigger] shifted[k],
        ) by {
            assert(is_held(tail, layers, limit, others[k], q[k]));
            assert(tail[q[k].position] == nodes[shifted[k].position]);
        }
        assert forall|k: int, l: int|
            #![trigger shifted[k], shifted[l]]
            0 <= k < l < shifted.len() implies shifted[k].position < shifted[l].position by {
            assert(q[k].position < q[l].position);
        }
        if end > from {
            let own = Holding { position: 0, from, to: end };
            let held = seq![own] + shifted;
            assert forall|k: int| 0 <= k < entries.len() implies is_held(
                nodes,
                layers,
                limit,
                #[trigger] entries[k],
                #[trigger] held[k],
            ) by {
                if k > 0 {
                    assert(entries[k] == others[k - 1]);
                    assert(held[k] == shifted[k - 1]);
                }
            }
            assert forall|k: int, l: int|
                #![trigger held[k], held[l]]
                0 <= k < l < held.len() implies held[k].position < held[l].position by {
                assert(held[l] == shifted[l - 1]);
                assert(is_held(tail, layers, limit, others[l - 1], q[l - 1]));
                if k > 0 {
                    assert(held[k] == shifted[k - 1]);
                }
            }
            held
        } else {
            shifted
        }
    }
}

/// No node is given more than its VRAM, the nodes come by descending VRAM, and each at most
/// once: the entries of a plan, whatever the limit on slices, belong to ascending positions
/// among the nodes by descending VRAM, and the layers of each fit its node.
pub proof fn no_node_is_overcommitted(
    nodes: Seq<NodeResources>,
    layers: Seq<LayerSpec>,
    limit: nat,
) -> (held: Seq<Holding>)
    requires
        distribution(nodes, layers, limit) is Ok,
    ensures
        within_capacity(
            by_vram(nodes),
            by_index(layers),
            limit,
            distribution(nodes, layers, limit)->Ok_0.distributions,
            held,
        ),
        by_vram(nodes).to_multiset() == nodes.to_multiset(),
        nodes_comparable(nodes) ==> in_order(by_vram(nodes), vram_before()),
{
    lemma_layers_ordered(layers);
    sorting_keeps_items(nodes, vram_before());
    if nodes_comparable(nodes) {
        sorting_orders(nodes, vram_before());
    }
    lemma_within_capacity(by_vram(nodes), by_index(layers), 0, limit)
}

/// A node stops taking layers only at the end of them or before one with which they would
/// exceed its VRAM.
pub proof fn a_node_takes_all_that_fits(layers: Seq<LayerSpec>, from: int, capacity: Real32)
    requires
        0 <= from <= layers.len(),
    ensures
        ({
            let end = fitting_end(layers, from, from, capacity);
            &&& from <= end <= layers.len()
            &&& end > from ==> !capacity.below(vram_of(layers, from, end))
            &&& end < layers.len() ==> capacity.below(vram_of(layers, from, end + 1))
        }),
{
    lemma_fitting_end_bounds(layers, from, from, capacity);
    lemma_fitting_end_fits(layers, from, from, capacity);
}

/// Whether the slices cover the layer indices from `start` up to `end` one after the
/// other, each at least one and at most `limit`.
pub open spec fn tiles(slices: Seq<SliceView>, start: nat, end: nat, limit: nat) -> bool {
    &&& slices.len() > 0
    &&& slices.first().start == start
    &&& slices.last().end == end
    &&& forall|i: int|
        #![trigger slices[i]]
        0 <= i < slices.len() ==> slices[i].start < slices[i].end <= slices[i].start + limit
    &&& forall|i: int|
        #![trigger slices[i].end]
        0 <= i < slices.len() - 1 ==> slices[i].end == slices[i + 1].start
}

/// The chunks of a slice cover its layers one after the other, none with more than
/// `limit`, and keep its weight count.
pub proof fn chunks_tile_their_slice(slice: SliceView, limit: nat)
    requires
        limit > 0,
        slice.start < slice.end,
    ensures
        tiles(slice_chunks(slice, limit), slice.start, slice.end, limit),
        forall|i: int|
            0 <= i < slice_chunks(slice, limit).len() ==> (#[trigger] slice_chunks(
                slice,
                limit,
            )[i]).num_weights == slice.num_weights,
{
    let total = slice.layers();
    let chunks = slice_chunks(slice, limit);
    if total > limit {
        let count = chunk_count(total, limit);
        lemma_chunk_count(total, limit);
        assert(0 * limit == 0);
        assert forall|i: int| 0 <= i < count implies {
            let c = #[trigger] chunks[i];
            &&& c.start == slice.start + i * limit
            &&& c.start < c.end <= c.start + limit
            &&& i < count - 1 ==> c.end == slice.start + (i + 1) * limit
            &&& i == count - 1 ==> c.end == slice.end
        } by {
            assert((i + 1) * limit == i * limit + limit) by (nonlinear_arith);
            assert(i * limit >= 0) by (nonlinear_arith)
                requires
                    i >= 0,
            ;
            if i < count - 1 {
                assert((i + 1) * limit <= (count - 1) * limit) by (nonlinear_arith)
                    requires
                        i + 1 <= count - 1,
                ;
            }
        }
        assert(chunks.first() == chunks[0]);
        assert(chunks.last() == chunks[count - 1]);
        assert forall|i: int| #![trigger chunks[i].end] 0 <= i < chunks.len() - 1 implies chunks[i].end
            == chunks[i + 1].start by {
            assert(chunks[i + 1].start == slice.start + (i + 1) * limit);
        }
    }
}

/// Whether chunks are those of a slice: the slice itself where it has at most `limit` layers.
/// Otherwise they follow one another from its start to its end, each but the last with `limit`
/// layers and the last with what is left. The size of a chunk is that of the slice divided by
/// the number of the slice's layers, times the number of the chunk's.
pub open spec fn are_chunks_of(slice: SliceView, limit: nat, chunks: Seq<SliceView>) -> bool {
    if slice.end <= slice.start + limit {
        chunks.len() == 1 && chunks[0] == slice
    } else {
        &&& chunks.len() > 0
        &&& chunks[0].start == slice.start
        &&& chunks[chunks.len() - 1].end == slice.end
        &&& forall|i: int|
            #![trigger chunks[i]]
            0 <= i < chunks.len() ==> {
                &&& 0 < chunks[i].end - chunks[i].start <= limit
                &&& i + 1 < chunks.len() ==> chunks[i].end - chunks[i].start == limit
                &&& i + 1 < chunks.len() ==> chunks[i + 1].start == chunks[i].end
                &&& chunks[i].size == slice.size.over(
                    Real32::count((slice.end - slice.start) as nat),
                ).times(Real32::count((chunks[i].end - chunks[i].start) as nat))
                &&& chunks[i].num_weights == slice.num_weights
            }
    }
}

proof fn lemma_chunks_of(slice: SliceView, limit: nat)
    requires
        limit > 0,
    ensures
        are_chunks_of(slice, limit, slice_chunks(slice, limit)),
{
    let chunks = slice_chunks(slice, limit);
    if slice.layers() > limit {
        let total = slice.layers();
        let count = chunk_count(total, limit);
        lemma_chunk_count(total, limit);
        assert(0 * limit == 0);
        assert forall|i: int| #![trigger chunks[i]] 0 <= i < count implies {
            let c = chunks[i];
            &&& c.start == slice.start + i * limit
            &&& 0 < c.end - c.start <= limit
            &&& i < count - 1 ==> c.end == slice.start + (i + 1) * limit
            &&& i < count - 1 ==> c.end - c.start == limit
            &&& i == count - 1 ==> c.end == slice.end
        } by {
            assert((i + 1) * limit == i * limit + limit) by (nonlinear_arith);
            assert(i * limit >= 0) by (nonlinear_arith)
                requires
                    i >= 0,
            ;
            if i < count - 1 {
                assert((i + 1) * limit <= (count - 1) * limit) by (nonlinear_arith)
                    requires
                        i + 1 <= count - 1,
                ;
            }
        }
        assert forall|i: int| #![trigger chunks[i]] 0 <= i < chunks.len() && i + 1
            < chunks.len() implies chunks[i + 1].start == chunks[i].end by {
            assert(chunks[i + 1].start == slice.start + (i + 1) * limit);
        }
        assert(chunks[0].start == slice.start);
    }
}

/// Whether the chunks from one mark up to the next are those of the slice at `j`.
pub open spec fn is_cut_between(
    slices: Seq<SliceView>,
    limit: nat,
    chunks: Seq<SliceView>,
    marks: Seq<int>,
    j: int,
) -> bool {
    &&& 0 <= marks[j] <= marks[j + 1] <= chunks.len()
    &&& are_chunks_of(slices[j], limit, chunks.subrange(marks[j], marks[j + 1]))
}

/// Whether chunks are those of the slices one after the other: those of the slice at `j` stand
/// from one mark up to the next.
pub open spec fn are_all_chunks_of(
    slices: Seq<SliceView>,
    limit: nat,
    chunks: Seq<SliceView>,
    marks: Seq<int>,
) -> bool {
    &&& marks.len() == slices.len() + 1
    &&& marks[0] == 0
    &&& marks[slices.len() as int] == chunks.len()
    &&& forall|j: int|
        0 <= j < slices.len() ==> #[trigger] is_cut_between(slices, limit, chunks, marks, j)
}

proof fn lemma_all_chunks_of(slices: Seq<SliceView>, limit: nat) -> (marks: Seq<int>)
    requires
        limit > 0,
    ensures
        are_all_chunks_of(slices, limit, all_chunks(slices, limit), marks),
    decreases slices.len(),
{
    let chunks = all_chunks(slices, limit);
    if slices.len() == 0 {
        seq![0int]
    } else {
        let rest = slices.drop_last();
        let head = all_chunks(rest, limit);
        let q = lemma_all_chunks_of(rest, limit);
        let marks = q.push(chunks.len() as int);
        lemma_chunks_of(slices.last(), limit);
        assert forall|j: int| 0 <= j < slices.len() implies #[trigger] is_cut_between(
            slices,
            limit,
            chunks,
            marks,
            j,
        ) by {
            if j < rest.len() {
                assert(is_cut_between(rest, limit, head, q, j));
                assert(rest[j] == slices[j]);
                assert(marks[j] == q[j] && marks[j + 1] == q[j + 1]);
                assert(chunks.subrange(q[j], q[j + 1]) =~= head.subrange(q[j], q[j + 1]));
            } else {
                assert(marks[j] == head.len());
                assert(chunks.subrange(marks[j], marks[j + 1]) =~= slice_chunks(
                    slices.last(),
                    limit,
                ));
            }
        }
        marks
    }
}

/// Chunking a plan cuts every slice of every node into its chunks, in their order, and changes
/// nothing else: the nodes, who takes part and the number of layers stay.
pub proof fn chunking_cuts_every_slice(plan: PlanView, limit: nat) -> (marks: Seq<Seq<int>>)
    requires
        limit > 0,
    ensures
        chunked(plan, limit).total_layers == plan.total_layers,
        chunked(plan, limit).participating_nodes == plan.participating_nodes,
        chunked(plan, limit).distributions.len() == plan.distributions.len(),
        marks.len() == plan.distributions.len(),
        forall|i: int|
            #![trigger plan.distributions[i]]
            0 <= i < plan.distributions.len() ==> {
                &&& chunked(plan, limit).distributions[i].0 == plan.distributions[i].0
                &&& are_all_chunks_of(
                    plan.distributions[i].1,
                    limit,
                    chunked(plan, limit).distributions[i].1,
                    marks[i],
                )
            },
{
    let marks = Seq::new(
        plan.distributions.len(),
        |i: int|
            choose|m: Seq<int>|
                are_all_chunks_of(
                    plan.distributions[i].1,
                    limit,
                    all_chunks(plan.distributions[i].1, limit),
                    m,
                ),
    );
    assert forall|i: int| #![trigger plan.distributions[i]] 0 <= i < plan.distributions.len() implies {
        &&& chunked(plan, limit).distributions[i].0 == plan.distributions[i].0
        &&& are_all_chunks_of(
            plan.distributions[i].1,
            limit,
            chunked(plan, limit).distributions[i].1,
            marks[i],
        )
    } by {
        let m = lemma_all_chunks_of(plan.distributions[i].1, limit);
    }
    marks
}

/// A limit of no layers counts as one of one.
pub proof fn a_chunk_holds_at_least_one_layer(limit: usize)
    ensures
        chunk_limit(limit) >= 1,
        limit >= 1 ==> chunk_limit(limit) == limit,
        limit == 0 ==> chunk_limit(limit) == 1,
{
}

/// Where a slice starts does not decide how it is cut: shifting it by some layers shifts its
/// chunks by as many, and leaves their number and their sizes.
pub proof fn shifting_a_slice_shifts_its_chunks(slice: SliceView, by: nat, limit: nat)
    requires
        limit > 0,
    ensures
        ({
            let shifted = SliceView { start: slice.start + by, end: slice.end + by, ..slice };
            let chunks = slice_chunks(slice, limit);
            let moved = slice_chunks(shifted, limit);
            &&& moved.len() == chunks.len()
            &&& forall|i: int|
                #![trigger moved[i]]
                #![trigger chunks[i]]
                0 <= i < chunks.len() ==> {
                    &&& moved[i].start == chunks[i].start + by
                    &&& moved[i].end == chunks[i].end + by
                    &&& moved[i].size == chunks[i].size
                    &&& moved[i].num_weights == chunks[i].num_weights
                }
        }),
{
    let shifted = SliceView { start: slice.start + by, end: slice.end + by, ..slice };
    let chunks = slice_chunks(slice, limit);
    let moved = slice_chunks(shifted, limit);
    assert(shifted.layers() == slice.layers());
    if slice.layers() > limit {
        lemma_chunks_of(slice, limit);
        lemma_chunks_of(shifted, limit);
        assert forall|i: int|
            #![trigger moved[i]]
            #![trigger chunks[i]]
            0 <= i < chunks.len() implies moved[i].start == chunks[i].start + by && moved[i].end
            == chunks[i].end + by && moved[i].size == chunks[i].size by {
            assert(i * limit >= 0) by (nonlinear_arith)
                requires
                    i >= 0,
            ;
        }
    }
}

proof fn lemma_chunks_short(slices: Seq<SliceView>, limit: nat)
    requires
        limit > 0,
    ensures
        forall|j: int|
            0 <= j < all_chunks(slices, limit).len() ==> (#[trigger] all_chunks(
                slices,
                limit,
            )[j]).layers() <= limit,
    decreases slices.len(),
{
    if slices.len() > 0 {
        lemma_chunks_short(slices.drop_last(), limit);
        let head = all_chunks(slices.drop_last(), limit);
        let own = slice_chunks(slices.last(), limit);
        let all = all_chunks(slices, limit);
        if slices.last().layers() > limit {
            chunks_tile_their_slice(slices.last(), limit);
        }
        assert forall|j: int| 0 <= j < all.len() implies (#[trigger] all[j]).layers() <= limit by {
            if j < head.len() {
                assert(all[j] == head[j]);
            } else {
                assert(all[j] == own[j - head.len()]);
            }
        }
    }
}

/// No slice of a chunked plan has more layers than the limit, and chunking it again
/// changes nothing.
pub proof fn chunking_is_final(plan: PlanView, limit: nat)
    requires
        limit > 0,
    ensures
        chunked(chunked(plan, limit), limit) == chunked(plan, limit),
        forall|i: int, j: int|
            #![trigger chunked(plan, limit).distributions[i].1[j]]
            0 <= i < plan.distributions.len() && 0 <= j < chunked(
                plan,
                limit,
            ).distributions[i].1.len() ==> chunked(plan, limit).distributions[i].1[j].layers()
                <= limit,
{
    let once = chunked(plan, limit).distributions;
    let twice = chunked_entries(once, limit);
    assert forall|i: int| 0 <= i < once.len() implies #[trigger] twice[i] == once[i] by {
        lemma_chunks_short(plan.distributions[i].1, limit);
        lemma_short_slices_stay(once[i].1, limit);
    }
    assert forall|i: int, j: int|
        #![trigger once[i].1[j]]
        0 <= i < plan.distributions.len() && 0 <= j < once[i].1.len() implies once[i].1[j].layers()
        <= limit by {
        lemma_chunks_short(plan.distributions[i].1, limit);
        assert(once[i].1 == all_chunks(plan.distributions[i].1, limit));
    }
    assert(twice =~= once);
}

/// How long slices may be does not decide whether the layers can be distributed, nor
/// which nodes take part.
pub proof fn the_limit_does_not_decide(
    nodes: Seq<NodeResources>,
    layers: Seq<LayerSpec>,
    a: nat,
    b: nat,
)
    ensures
        match (distribution(nodes, layers, a), distribution(nodes, layers, b)) {
            (Ok(p), Ok(q)) => p.participating_nodes == q.participating_nodes,
            (Err(p), Err(q)) => p == q,
            _ => false,
        },
{
    lemma_same_nodes(by_vram(nodes), by_index(layers), 0, a, b);
}

proof fn lemma_same_nodes(
    nodes: Seq<NodeResources>,
    layers: Seq<LayerSpec>,
    from: int,
    a: nat,
    b: nat,
)
    ensures
        entry_nodes(assignments(nodes, layers, from, a)) == entry_nodes(
            assignments(nodes, layers, from, b),
        ),
    decreases nodes.len(),
{
    let p = assignments(nodes, layers, from, a);
    let q = assignments(nodes, layers, from, b);
    if nodes.len() > 0 && from < layers.len() {
        let end = fitting_end(layers, from, from, nodes[0].vram_gb@);
        lemma_same_nodes(nodes.drop_first(), layers, end, a, b);
        let u = entry_nodes(assignments(nodes.drop_first(), layers, end, a));
        if end > from {
            assert(entry_nodes(p) =~= seq![nodes[0].id@] + u);
            assert(entry_nodes(q) =~= seq![nodes[0].id@] + u);
        }
    }
}

/// The order in which nodes and layers come does not matter, where nodes with the same VRAM
/// and layers with the same index are the same.
pub proof fn the_order_of_input_does_not_decide(
    nodes: Seq<NodeResources>,
    other_nodes: Seq<NodeResources>,
    layers: Seq<LayerSpec>,
    other_layers: Seq<LayerSpec>,
    limit: nat,
)
    requires
        nodes.to_multiset() == other_nodes.to_multiset(),
        layers.to_multiset() == other_layers.to_multiset(),
        nodes_comparable(nodes),
        ties_are_equal(nodes, vram_before()),
        ties_are_equal(layers, index_before()),
    ensures
        distribution(nodes, layers, limit) == distribution(other_nodes, other_layers, limit),
{
    lemma_layers_ordered(layers);
    lemma_layers_ordered(other_layers);
    sorting_forgets_the_order(nodes, other_nodes, vram_before());
    sorting_forgets_the_order(layers, other_layers, index_before());
    sorting_keeps_items(nodes, vram_before());
    sorting_keeps_items(other_nodes, vram_before());
}

/// Whether the layers' indices follow one another without a gap.
pub open spec fn consecutive(layers: Seq<LayerSpec>) -> bool {
    forall|i: int, j: int|
        #![trigger layers[i], layers[j]]
        0 <= i <= j < layers.len() ==> layers[j].index - layers[i].index == j - i
}

proof fn lemma_chunked_node(layers: Seq<LayerSpec>, from: int, to: int, whole: nat, limit: nat)
    requires
        consecutive(layers),
        0 <= from < to <= layers.len() <= whole,
        limit > 0,
    ensures
        all_chunks(node_slices(layers, from, to, whole), limit) == node_slices(
            layers,
            from,
            to,
            limit,
        ),
{
    let one = node_slices(layers, from, to, whole);
    let slice = one[0];
    assert(one.drop_last() =~= Seq::empty());
    assert(one.last() == slice);
    let parts = slice_chunks(slice, limit);
    let direct = node_slices(layers, from, to, limit);
    assert(layers[to - 1].index - layers[from].index == to - 1 - from);
    assert(slice.layers() == to - from);
    if to - from > limit {
        let total = (to - from) as nat;
        let count = chunk_count(total, limit);
        lemma_chunk_count(total, limit);
        assert forall|i: int| 0 <= i < count implies #[trigger] parts[i] == direct[i] by {
            assert((i + 1) * limit == i * limit + limit) by (nonlinear_arith);
            assert(i * limit >= 0) by (nonlinear_arith)
                requires
                    i >= 0,
            ;
            if i < count - 1 {
                assert((i + 1) * limit <= (count - 1) * limit) by (nonlinear_arith)
                    requires
                        i + 1 <= count - 1,
                ;
            } else {
                assert(i + 1 == count);
            }
            let a = from + i * limit;
            let b = chunk_end(a as nat, to as nat, limit) as int;
            assert(layers[a].index - layers[from].index == a - from);
            assert(layers[b - 1].index - layers[from].index == b - 1 - from);
        }
        assert(parts =~= direct);
    } else {
        assert(parts =~= direct);
    }
    assert(all_chunks(one.drop_last(), limit) + parts =~= parts);
}

proof fn lemma_chunked_assignments(
    nodes: Seq<NodeResources>,
    layers: Seq<LayerSpec>,
    from: int,
    whole: nat,
    limit: nat,
)
    requires
        consecutive(layers),
        0 <= from <= layers.len() <= whole,
        limit > 0,
    ensures
        chunked_entries(assignments(nodes, layers, from, whole), limit) == assignments(
            nodes,
            layers,
            from,
            limit,
        ),
    decreases nodes.len(),
{
    let entries = assignments(nodes, layers, from, whole);
    let target = assignments(nodes, layers, from, limit);
    if nodes.len() > 0 && from < layers.len() {
        let end = fitting_end(layers, from, from, nodes[0].vram_gb@);
        lemma_fitting_end_bounds(layers, from, from, nodes[0].vram_gb@);
        lemma_chunked_assignments(nodes.drop_first(), layers, end, whole, limit);
        let rest = assignments(nodes.drop_first(), layers, end, whole);
        if end > from {
            lemma_chunked_node(layers, from, end, whole, limit);
            let head = (nodes[0].id@, node_slices(layers, from, end, limit));
            assert(chunked_entries(entries, limit) =~= seq![head] + chunked_entries(rest, limit));
        }
    }
    assert(chunked_entries(entries, limit) =~= target);
}

/// Distributing in slices of at most `limit` layers is distributing in whole slices and
/// chunking the plan, where the layers' indices follow one another.
pub proof fn distributing_in_chunks_is_chunking(
    nodes: Seq<NodeResources>,
    layers: Seq<LayerSpec>,
    whole: nat,
    limit: nat,
)
    requires
        consecutive(by_index(layers)),
        layers.len() <= whole,
        limit > 0,
    ensures
        distribution(nodes, layers, limit) == (match distribution(nodes, layers, whole) {
            Ok(plan) => Ok(chunked(plan, limit)),
            Err(message) => Err(message),
        }),
{
    lemma_layers_ordered(layers);
    let sorted = by_vram(nodes);
    let queue = by_index(layers);
    lemma_chunked_assignments(sorted, queue, 0, whole, limit);
    let a = assignments(sorted, queue, 0, whole);
    let b = assignments(sorted, queue, 0, limit);
    assert(entry_nodes(a) =~= entry_nodes(chunked_entries(a, limit)));
}

} // verus!
