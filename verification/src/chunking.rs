//! Cutting the slices of a plan into chunks of a limited number of layers.
use crate::binary32::{Binary32, Real32};
use crate::plan::{
    entries_view, slices_view, LoadDistributionPlan, PlanView, SliceView, TensorSlice,
};
use vstd::arithmetic::div_mod::lemma_fundamental_div_mod;
use vstd::prelude::*;

verus! {

/// The number of chunks of at most `limit` that `total` is cut into.
pub open spec fn chunk_count(total: nat, limit: nat) -> nat {
    if total <= limit {
        1
    } else {
        (total + limit - 1) as nat / limit
    }
}

/// The end of the chunk that starts at `start`.
pub open spec fn chunk_end(start: nat, end: nat, limit: nat) -> nat {
    if start + limit < end {
        start + limit
    } else {
        end
    }
}

/// The share of a size of `total` equal parts that `part` of them have.
pub open spec fn share(size: Real32, total: nat, part: nat) -> Real32 {
    size.over(Real32::count(total)).times(Real32::count(part))
}

/// The chunks of one slice: the slice itself where it is short enough, and otherwise
/// `limit` layers each, but for the last, with an equal share of the size per layer.
pub open spec fn slice_chunks(slice: SliceView, limit: nat) -> Seq<SliceView> {
    if slice.layers() <= limit {
        seq![slice]
    } else {
        Seq::new(
            chunk_count(slice.layers(), limit),
            |i: int|
                {
                    let start = (slice.start + i * limit) as nat;
                    let end = chunk_end(start, slice.end, limit);
                    SliceView {
                        start,
                        end,
                        size: share(slice.size, slice.layers(), (end - start) as nat),
                        num_weights: slice.num_weights,
                    }
                },
        )
    }
}

/// The chunks of a list of slices.
pub open spec fn all_chunks(slices: Seq<SliceView>, limit: nat) -> Seq<SliceView>
    decreases slices.len(),
{
    if slices.len() == 0 {
        Seq::empty()
    } else {
        all_chunks(slices.drop_last(), limit) + slice_chunks(slices.last(), limit)
    }
}

/// The entries of a plan with every slice cut into chunks.
pub open spec fn chunked_entries(
    entries: Seq<(Seq<char>, Seq<SliceView>)>,
    limit: nat,
) -> Seq<(Seq<char>, Seq<SliceView>)> {
    entries.map_values(|e: (Seq<char>, Seq<SliceView>)| (e.0, all_chunks(e.1, limit)))
}

/// A plan with every slice cut into chunks.
pub open spec fn chunked(plan: PlanView, limit: nat) -> PlanView {
    PlanView {
        distributions: chunked_entries(plan.distributions, limit),
        total_layers: plan.total_layers,
        participating_nodes: plan.participating_nodes,
    }
}

/// A limit on the layers of a chunk is never below one.
pub open spec fn chunk_limit(limit: usize) -> nat {
    if limit == 0 {
        1
    } else {
        limit as nat
    }
}

/// Whether cutting stays within the machine's integers: the start of every chunk plus
/// the limit.
pub open spec fn chunking_fits(plan: PlanView, limit: nat) -> bool {
    forall|i: int|
        #![trigger plan.distributions[i]]
        0 <= i < plan.distributions.len() ==> slices_fit(plan.distributions[i].1, limit)
}

/// Whether cutting the slices of one node stays within the machine's integers.
pub open spec fn slices_fit(slices: Seq<SliceView>, limit: nat) -> bool {
    forall|j: int|
        #![trigger slices[j]]
        0 <= j < slices.len() && slices[j].layers() > limit ==> slices[j].start + chunk_count(
            slices[j].layers(),
            limit,
        ) * limit <= usize::MAX
}

/// What is left for the last chunk.
pub proof fn lemma_chunk_count(total: nat, limit: nat)
    requires
        0 < limit < total,
    ensures
        chunk_count(total, limit) >= 2,
        (chunk_count(total, limit) - 1) * limit < total <= chunk_count(total, limit) * limit,
{
    let x = (total + limit - 1) as nat;
    let c = x / limit;
    lemma_fundamental_div_mod(x as int, limit as int);
    assert((c - 1) * limit < total <= c * limit) by (nonlinear_arith)
        requires
            x == limit * c + x % limit,
            x == total + limit - 1,
            0 <= x % limit < limit,
    ;
    assert(c >= 2) by (nonlinear_arith)
        requires
            total <= c * limit,
            limit < total,
    ;
}

/// A plan none of whose slices is too long is not changed.
pub proof fn lemma_short_slices_stay(slices: Seq<SliceView>, limit: nat)
    requires
        forall|j: int| 0 <= j < slices.len() ==> (#[trigger] slices[j]).layers() <= limit,
    ensures
        all_chunks(slices, limit) == slices,
    decreases slices.len(),
{
    if slices.len() > 0 {
        assert forall|j: int| 0 <= j < slices.drop_last().len() implies (
        #[trigger] slices.drop_last()[j]).layers() <= limit by {
            assert(slices.drop_last()[j] == slices[j]);
        }
        lemma_short_slices_stay(slices.drop_last(), limit);
        assert(slices.last() == slices[slices.len() - 1]);
        assert(slices.drop_last() + seq![slices.last()] =~= slices);
    }
    assert(all_chunks(slices, limit) =~= slices);
}

/// Puts the chunks of a slice that is too long at the end of the list.
fn push_chunks(chunks: &mut Vec<TensorSlice>, slice: &TensorSlice, limit: usize)
    requires
        limit > 0,
        slice@.layers() > limit,
        slice@.start + chunk_count(slice@.layers(), limit as nat) * limit <= usize::MAX,
    ensures
        slices_view(final(chunks)@) == slices_view(old(chunks)@) + slice_chunks(
            slice@,
            limit as nat,
        ),
{
    let total: usize = slice.layer_range.1 - slice.layer_range.0;
    let average: Binary32 = slice.size_gb.div(Binary32::from_count(total));
    let ghost all = slice_chunks(slice@, limit as nat);
    let ghost count = chunk_count(slice@.layers(), limit as nat);
    let ghost mut i: int = 0;
    let mut start: usize = slice.layer_range.0;
    proof {
        lemma_chunk_count(slice@.layers(), limit as nat);
    }
    assert(slices_view(chunks@) =~= slices_view(old(chunks)@) + all.take(0));
    while start < slice.layer_range.1
        invariant
            limit > 0,
            total == slice@.layers(),
            total > limit,
            average@ == slice@.size.over(Real32::count(total as nat)),
            all == slice_chunks(slice@, limit as nat),
            count == chunk_count(slice@.layers(), limit as nat),
            (count - 1) * limit < total <= count * limit,
            slice@.start + count * limit <= usize::MAX,
            0 <= i <= count,
            i < count ==> start == slice@.start + i * limit,
            i == count ==> start == slice@.end,
            slices_view(chunks@) == slices_view(old(chunks)@) + all.take(i),
        decreases slice.layer_range.1 - start,
    {
        proof {
            assert(i * limit + limit <= count * limit) by (nonlinear_arith)
                requires
                    i + 1 <= count,
            ;
            assert((i + 1) * limit == i * limit + limit) by (nonlinear_arith);
            if i + 1 < count {
                assert((i + 1) * limit <= (count - 1) * limit) by (nonlinear_arith)
                    requires
                        i + 1 <= count - 1,
                ;
            }
        }
        let end: usize = if start + limit < slice.layer_range.1 {
            start + limit
        } else {
            slice.layer_range.1
        };
        let chunk: TensorSlice = TensorSlice {
            layer_range: (start, end),
            size_gb: average.mul(Binary32::from_count(end - start)),
            num_weights: slice.num_weights,
        };
        let ghost before = chunks@;
        chunks.push(chunk);
        assert(chunk@ == all[i]);
        assert(slices_view(chunks@) =~= slices_view(before).push(chunk@));
        assert(all.take(i + 1) =~= all.take(i).push(all[i]));
        assert(slices_view(chunks@) =~= slices_view(old(chunks)@) + all.take(i + 1));
        start = end;
        proof {
            i = i + 1;
        }
    }
    proof {
        if i < count {
            assert(i * limit <= (count - 1) * limit) by (nonlinear_arith)
                requires
                    i <= count - 1,
            ;
        }
    }
    assert(all.take(i) =~= all);
}

/// The chunks of a node's slices.
fn chunk_slices(slices: &Vec<TensorSlice>, limit: usize) -> (r: Vec<TensorSlice>)
    requires
        limit > 0,
        slices_fit(slices_view(slices@), limit as nat),
    ensures
        slices_view(r@) == all_chunks(slices_view(slices@), limit as nat),
{
    let ghost all = slices_view(slices@);
    let mut chunks: Vec<TensorSlice> = Vec::new();
    let mut i: usize = 0;
    assert(slices_view(chunks@) =~= all_chunks(all.take(0), limit as nat));
    while i < slices.len()
        invariant
            limit > 0,
            i <= slices.len(),
            all == slices_view(slices@),
            slices_fit(all, limit as nat),
            slices_view(chunks@) == all_chunks(all.take(i as int), limit as nat),
        decreases slices.len() - i,
    {
        assert(all.take(i + 1).drop_last() =~= all.take(i as int));
        assert(all[i as int] == slices@[i as int]@);
        let ghost before = chunks@;
        if slices[i].layers() <= limit {
            chunks.push(slices[i]);
            assert(slices_view(chunks@) =~= slices_view(before) + seq![all[i as int]]);
        } else {
            push_chunks(&mut chunks, &slices[i], limit);
        }
        i = i + 1;
    }
    assert(all.take(i as int) =~= all);
    chunks
}

/// Whether a slice of the plan has more than `limit` layers.
fn has_long_slice(plan: &LoadDistributionPlan, limit: usize) -> (r: bool)
    ensures
        r == exists|i: int, j: int|
            #![trigger plan@.distributions[i].1[j]]
            0 <= i < plan@.distributions.len() && 0 <= j < plan@.distributions[i].1.len()
                && plan@.distributions[i].1[j].layers() > limit,
{
    let ghost entries = plan@.distributions;
    let mut i: usize = 0;
    while i < plan.distributions.len()
        invariant
            i <= plan.distributions.len(),
            entries == plan@.distributions,
            forall|a: int, b: int|
                #![trigger entries[a].1[b]]
                0 <= a < i && 0 <= b < entries[a].1.len() ==> entries[a].1[b].layers() <= limit,
        decreases plan.distributions.len() - i,
    {
        let slices: &Vec<TensorSlice> = &plan.distributions[i].1;
        assert(entries[i as int].1 == slices_view(slices@));
        let mut j: usize = 0;
        while j < slices.len()
            invariant
                j <= slices.len(),
                i < entries.len(),
                entries == plan@.distributions,
                entries[i as int].1 == slices_view(slices@),
                forall|b: int|
                    #![trigger entries[i as int].1[b]]
                    0 <= b < j ==> entries[i as int].1[b].layers() <= limit,
            decreases slices.len() - j,
        {
            assert(entries[i as int].1[j as int] == slices@[j as int]@);
            if slices[j].layers() > limit {
                return true;
            }
            j = j + 1;
        }
        i = i + 1;
    }
    false
}

/// Cuts the slices of a plan into chunks of at most `max_layers_per_slice` layers.
pub fn chunk_distribution_plan(plan: LoadDistributionPlan, max_layers_per_slice: usize) -> (r:
    LoadDistributionPlan)
    requires
        chunking_fits(plan@, chunk_limit(max_layers_per_slice)),
    ensures
        r@ == chunked(plan@, chunk_limit(max_layers_per_slice)),
{
    let limit: usize = if max_layers_per_slice == 0 {
        1
    } else {
        max_layers_per_slice
    };
    let ghost entries = plan@.distributions;
    let ghost target = chunked_entries(entries, limit as nat);
    if !has_long_slice(&plan, limit) {
        proof {
            assert forall|i: int| 0 <= i < entries.len() implies #[trigger] target[i]
                == entries[i] by {
                let slices = entries[i].1;
                assert forall|j: int| 0 <= j < slices.len() implies (
                #[trigger] slices[j]).layers() <= limit by {
                    assert(entries[i].1[j].layers() <= limit);
                }
                lemma_short_slices_stay(slices, limit as nat);
            }
            assert(target =~= entries);
        }
        return plan;
    }
    let mut distributions: Vec<(String, Vec<TensorSlice>)> = Vec::new();
    let mut i: usize = 0;
    while i < plan.distributions.len()
        invariant
            limit > 0,
            i <= plan.distributions.len(),
            entries == plan@.distributions,
            target == chunked_entries(entries, limit as nat),
            chunking_fits(plan@, limit as nat),
            entries_view(distributions@) == target.take(i as int),
        decreases plan.distributions.len() - i,
    {
        let entry: &(String, Vec<TensorSlice>) = &plan.distributions[i];
        assert(entries[i as int] == (entry.0@, slices_view(entry.1@)));
        let chunks: Vec<TensorSlice> = chunk_slices(&entry.1, limit);
        let node: String = entry.0.clone();
        let ghost before = distributions@;
        let ghost added = (node@, slices_view(chunks@));
        distributions.push((node, chunks));
        assert(entries_view(distributions@) =~= entries_view(before).push(added));
        assert(target.take(i + 1) =~= target.take(i as int).push(target[i as int]));
        i = i + 1;
    }
    assert(target.take(i as int) =~= target);
    LoadDistributionPlan {
        distributions,
        total_layers: plan.total_layers,
        participating_nodes: plan.participating_nodes,
    }
}

} // verus!
