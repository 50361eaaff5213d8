//! Distribution plans: which node holds which slices of the model's layers.
use crate::binary32::{Binary32, Real32};
use crate::decimal::{decimal, fixed, push_decimal};
use vstd::prelude::*;
use vstd::string::StringExecFns;

verus! {

/// A run of layers that one node holds.
#[derive(Clone, Copy, Debug)]
pub struct TensorSlice {
    /// The first layer index and the one past the last.
    pub layer_range: (usize, usize),
    /// Size in GB.
    pub size_gb: Binary32,
    /// Number of weights.
    pub num_weights: u32,
}

/// What a tensor slice is.
pub struct SliceView {
    pub start: nat,
    pub end: nat,
    pub size: Real32,
    pub num_weights: nat,
}

impl View for TensorSlice {
    type V = SliceView;

    open spec fn view(&self) -> SliceView {
        SliceView {
            start: self.layer_range.0 as nat,
            end: self.layer_range.1 as nat,
            size: self.size_gb@,
            num_weights: self.num_weights as nat,
        }
    }
}

impl SliceView {
    /// The number of layer indices in the slice; none where the range is reversed.
    pub open spec fn layers(self) -> nat {
        if self.end > self.start {
            (self.end - self.start) as nat
        } else {
            0
        }
    }
}

impl TensorSlice {
    /// A slice of the given layers and size, without a weight count.
    pub fn new(layer_range: (usize, usize), size_gb: Binary32) -> (r: TensorSlice)
        ensures
            r == (TensorSlice { layer_range, size_gb, num_weights: 0 }),
    {
        TensorSlice { layer_range, size_gb, num_weights: 0 }
    }

    /// The number of layer indices in the slice; none where the range is reversed.
    pub(crate) fn layers(&self) -> (r: usize)
        ensures
            r == self@.layers(),
    {
        if self.layer_range.1 > self.layer_range.0 {
            self.layer_range.1 - self.layer_range.0
        } else {
            0
        }
    }
}

/// Which slices each node holds.
#[derive(Clone, Debug)]
pub struct LoadDistributionPlan {
    /// The slices per node.
    pub distributions: Vec<(String, Vec<TensorSlice>)>,
    /// Total layers in the plan.
    pub total_layers: usize,
    /// The nodes that take part.
    pub participating_nodes: Vec<String>,
}

/// What a plan is.
pub struct PlanView {
    pub distributions: Seq<(Seq<char>, Seq<SliceView>)>,
    pub total_layers: nat,
    pub participating_nodes: Seq<Seq<char>>,
}

/// The slices of a list.
pub open spec fn slices_view(slices: Seq<TensorSlice>) -> Seq<SliceView> {
    slices.map_values(|s: TensorSlice| s@)
}

/// The entries of a plan.
pub open spec fn entries_view(entries: Seq<(String, Vec<TensorSlice>)>) -> Seq<
    (Seq<char>, Seq<SliceView>),
> {
    entries.map_values(|e: (String, Vec<TensorSlice>)| (e.0@, slices_view(e.1@)))
}

/// The texts of a list of names.
pub open spec fn names_view(names: Seq<String>) -> Seq<Seq<char>> {
    names.map_values(|n: String| n@)
}

/// The nodes of a plan's entries, in their order.
pub open spec fn entry_nodes(entries: Seq<(Seq<char>, Seq<SliceView>)>) -> Seq<Seq<char>> {
    entries.map_values(|e: (Seq<char>, Seq<SliceView>)| e.0)
}

impl View for LoadDistributionPlan {
    type V = PlanView;

    open spec fn view(&self) -> PlanView {
        PlanView {
            distributions: entries_view(self.distributions@),
            total_layers: self.total_layers as nat,
            participating_nodes: names_view(self.participating_nodes@),
        }
    }
}

/// The sum of the slices' sizes, from the first to the last.
pub open spec fn total_size(slices: Seq<SliceView>) -> Real32
    decreases slices.len(),
{
    if slices.len() == 0 {
        Real32::Finite { negative: true, units: 0 }
    } else {
        total_size(slices.drop_last()).plus(slices.last().size)
    }
}

/// The paragraph of a plan's summary about one node.
pub open spec fn entry_summary(entry: (Seq<char>, Seq<SliceView>)) -> Seq<char> {
    let slices = entry.1;
    let first = if slices.len() == 0 {
        0
    } else {
        slices.first().start
    };
    let last = if slices.len() == 0 {
        0
    } else {
        slices.last().end
    };
    "Node: "@ + entry.0 + "\n  Total size: "@ + fixed(total_size(slices), 1) + " GB\n  Layers: "@
        + decimal(first) + "-"@ + decimal(last) + "\n\n"@
}

/// The paragraphs of a plan's summary about its nodes.
pub open spec fn entries_summary(entries: Seq<(Seq<char>, Seq<SliceView>)>) -> Seq<char>
    decreases entries.len(),
{
    if entries.len() == 0 {
        Seq::empty()
    } else {
        entries_summary(entries.drop_last()) + entry_summary(entries.last())
    }
}

/// Names with a comma and a space between them.
pub open spec fn listed(names: Seq<Seq<char>>) -> Seq<char>
    decreases names.len(),
{
    if names.len() == 0 {
        Seq::empty()
    } else if names.len() == 1 {
        names[0]
    } else {
        listed(names.drop_last()) + ", "@ + names.last()
    }
}

/// The text that describes a plan.
pub open spec fn plan_summary(plan: PlanView) -> Seq<char> {
    "Load Distribution Plan\n======================\n\n"@ + entries_summary(plan.distributions)
        + "Total layers: "@ + decimal(plan.total_layers) + "\nNodes: "@ + listed(
        plan.participating_nodes,
    ) + "\n"@
}

impl LoadDistributionPlan {
    /// A plan whose participating nodes are those of its entries.
    pub fn new(distributions: Vec<(String, Vec<TensorSlice>)>, total_layers: usize) -> (r:
        LoadDistributionPlan)
        ensures
            r.distributions == distributions,
            r.total_layers == total_layers,
            r@.participating_nodes == entry_nodes(r@.distributions),
    {
        let mut participating_nodes: Vec<String> = Vec::new();
        let mut i: usize = 0;
        while i < distributions.len()
            invariant
                i <= distributions.len(),
                participating_nodes.len() == i,
                forall|j: int|
                    0 <= j < i ==> (#[trigger] participating_nodes@[j])@ == distributions@[j].0@,
            decreases distributions.len() - i,
        {
            participating_nodes.push(distributions[i].0.clone());
            i = i + 1;
        }
        assert(names_view(participating_nodes@) =~= entry_nodes(entries_view(distributions@)));
        LoadDistributionPlan { distributions, total_layers, participating_nodes }
    }

    fn total_size(slices: &Vec<TensorSlice>) -> (r: Binary32)
        ensures
            r@ == total_size(slices_view(slices@)),
    {
        let mut total: Binary32 = Binary32::negative_zero();
        let mut i: usize = 0;
        while i < slices.len()
            invariant
                i <= slices.len(),
                total@ == total_size(slices_view(slices@).take(i as int)),
            decreases slices.len() - i,
        {
            assert(slices_view(slices@).take(i + 1).drop_last() =~= slices_view(slices@).take(
                i as int,
            ));
            total = total.add(slices[i].size_gb);
            i = i + 1;
        }
        assert(slices_view(slices@).take(i as int) =~= slices_view(slices@));
        total
    }

    fn push_entry_summary(text: &mut String, node: &String, slices: &Vec<TensorSlice>)
        ensures
            final(text)@ == old(text)@ + entry_summary((node@, slices_view(slices@))),
    {
        let first: usize = if slices.len() == 0 {
            0
        } else {
            slices[0].layer_range.0
        };
        let last: usize = if slices.len() == 0 {
            0
        } else {
            slices[slices.len() - 1].layer_range.1
        };
        text.append("Node: ");
        text.append(node.as_str());
        text.append("\n  Total size: ");
        LoadDistributionPlan::total_size(slices).push_fixed(text, 1);
        text.append(" GB\n  Layers: ");
        push_decimal(text, first as u128);
        text.append("-");
        push_decimal(text, last as u128);
        text.append("\n\n");
        assert(text@ =~= old(text)@ + entry_summary((node@, slices_view(slices@))));
    }

    fn push_listed(text: &mut String, names: &Vec<String>)
        ensures
            final(text)@ == old(text)@ + listed(names_view(names@)),
    {
        let ghost all = names_view(names@);
        let mut i: usize = 0;
        assert(all.take(0) =~= Seq::empty());
        assert(text@ =~= old(text)@ + listed(all.take(0)));
        while i < names.len()
            invariant
                i <= names.len(),
                all == names_view(names@),
                text@ == old(text)@ + listed(all.take(i as int)),
            decreases names.len() - i,
        {
            let ghost before = text@;
            assert(all.take(i + 1).drop_last() =~= all.take(i as int));
            if i > 0 {
                text.append(", ");
            } else {
                assert(before =~= old(text)@);
            }
            text.append(names[i].as_str());
            assert(text@ =~= old(text)@ + listed(all.take(i + 1)));
            i = i + 1;
        }
        assert(all.take(i as int) =~= all);
    }

    /// A text that describes the plan.
    pub fn summary(&self) -> (r: String)
        ensures
            r@ == plan_summary(self@),
    {
        let mut text: String = "Load Distribution Plan\n======================\n\n".to_owned();
        let ghost head = text@;
        let ghost all = self@.distributions;
        let mut i: usize = 0;
        assert(all.take(0) =~= Seq::empty());
        assert(text@ =~= head + entries_summary(all.take(0)));
        while i < self.distributions.len()
            invariant
                i <= self.distributions.len(),
                all == self@.distributions,
                text@ == head + entries_summary(all.take(i as int)),
            decreases self.distributions.len() - i,
        {
            let entry: &(String, Vec<TensorSlice>) = &self.distributions[i];
            LoadDistributionPlan::push_entry_summary(&mut text, &entry.0, &entry.1);
            assert(all.take(i + 1).drop_last() =~= all.take(i as int));
            assert(text@ =~= head + entries_summary(all.take(i + 1)));
            i = i + 1;
        }
        assert(all.take(i as int) =~= all);
        text.append("Total layers: ");
        push_decimal(&mut text, self.total_layers as u128);
        text.append("\nNodes: ");
        LoadDistributionPlan::push_listed(&mut text, &self.participating_nodes);
        text.append("\n");
        assert(text@ =~= plan_summary(self@));
        text
    }
}

/// The size that a node's paragraph names is that of its slices, added up from negative zero in
/// their order.
pub proof fn sizes_are_added_in_order(slices: Seq<SliceView>)
    ensures
        total_size(slices) == slices.fold_left(
            Real32::Finite { negative: true, units: 0 },
            |sum: Real32, slice: SliceView| sum.plus(slice.size),
        ),
    decreases slices.len(),
{
    if slices.len() > 0 {
        sizes_are_added_in_order(slices.drop_last());
    }
}

/// The paragraph about a node has a line each for its name, the size of its slices, and the
/// layers from the start of the first slice to the end of the last, and then an empty line. A
/// node without slices has the layers from zero to zero.
pub proof fn a_paragraph_tells_name_size_and_layers(node: Seq<char>, slices: Seq<SliceView>)
    ensures
        ({
            let first = if slices.len() > 0 {
                slices[0].start
            } else {
                0
            };
            let last = if slices.len() > 0 {
                slices[slices.len() - 1].end
            } else {
                0
            };
            entry_summary((node, slices)) == "Node: "@ + node + seq!['\n'] + "  Total size: "@
                + fixed(total_size(slices), 1) + " GB"@ + seq!['\n'] + "  Layers: "@ + decimal(first)
                + seq!['-'] + decimal(last) + seq!['\n', '\n']
        }),
{
    reveal_strlit("\n  Total size: ");
    reveal_strlit("  Total size: ");
    reveal_strlit(" GB\n  Layers: ");
    reveal_strlit(" GB");
    reveal_strlit("  Layers: ");
    reveal_strlit("-");
    reveal_strlit("\n\n");
    assert("\n  Total size: "@ =~= seq!['\n'] + "  Total size: "@);
    assert(" GB\n  Layers: "@ =~= " GB"@ + seq!['\n'] + "  Layers: "@);
    assert("-"@ =~= seq!['-']);
    assert("\n\n"@ =~= seq!['\n', '\n']);
    let first = if slices.len() > 0 {
        slices[0].start
    } else {
        0
    };
    let last = if slices.len() > 0 {
        slices[slices.len() - 1].end
    } else {
        0
    };
    assert(entry_summary((node, slices)) =~= "Node: "@ + node + seq!['\n'] + "  Total size: "@
        + fixed(total_size(slices), 1) + " GB"@ + seq!['\n'] + "  Layers: "@ + decimal(first)
        + seq!['-'] + decimal(last) + seq!['\n', '\n']);
}

/// The paragraphs of two lists of entries follow one another; one entry has its own paragraph,
/// and none has none.
pub proof fn paragraphs_follow_one_another(
    a: Seq<(Seq<char>, Seq<SliceView>)>,
    b: Seq<(Seq<char>, Seq<SliceView>)>,
    entry: (Seq<char>, Seq<SliceView>),
)
    ensures
        entries_summary(a + b) == entries_summary(a) + entries_summary(b),
        entries_summary(seq![entry]) == entry_summary(entry),
        entries_summary(Seq::empty()).len() == 0,
    decreases b.len(),
{
    assert(seq![entry].drop_last() =~= Seq::empty());
    reveal_with_fuel(entries_summary, 2);
    assert(Seq::<char>::empty() + entry_summary(entry) =~= entry_summary(entry));
    if b.len() == 0 {
        assert(a + b =~= a);
        assert(entries_summary(a) + entries_summary(b) =~= entries_summary(a));
    } else {
        paragraphs_follow_one_another(a, b.drop_last(), entry);
        assert((a + b).drop_last() =~= a + b.drop_last());
        assert((a + b).last() == b.last());
        assert(entries_summary(a) + (entries_summary(b.drop_last()) + entry_summary(b.last()))
            =~= (entries_summary(a) + entries_summary(b.drop_last())) + entry_summary(b.last()));
    }
}

/// Two lists of names are listed with a comma and a space between them, where neither is empty;
/// one name is listed as it is, and none as nothing.
pub proof fn lists_are_joined_by_a_comma(a: Seq<Seq<char>>, b: Seq<Seq<char>>, name: Seq<char>)
    ensures
        a.len() > 0 && b.len() > 0 ==> listed(a + b) == listed(a) + seq![',', ' '] + listed(b),
        listed(seq![name]) == name,
        listed(Seq::empty()).len() == 0,
    decreases b.len(),
{
    reveal_strlit(", ");
    assert(", "@ =~= seq![',', ' ']);
    if a.len() > 0 && b.len() > 0 {
        let all = a + b;
        assert(all.last() == b.last());
        assert(all.drop_last() =~= a + b.drop_last());
        if b.len() == 1 {
            assert(a + b.drop_last() =~= a);
            assert(listed(all) =~= listed(a) + seq![',', ' '] + listed(b));
        } else {
            lists_are_joined_by_a_comma(a, b.drop_last(), name);
            assert(listed(all) =~= listed(a) + seq![',', ' '] + listed(b));
        }
    }
}

/// A summary is a heading, the paragraphs about the nodes, the number of layers, and the nodes
/// that take part.
pub proof fn a_summary_tells_layers_and_nodes(plan: PlanView)
    ensures
        plan_summary(plan) == "Load Distribution Plan"@ + seq!['\n'] + "======================"@
            + seq!['\n', '\n'] + entries_summary(plan.distributions) + "Total layers: "@ + decimal(
            plan.total_layers,
        ) + seq!['\n'] + "Nodes: "@ + listed(plan.participating_nodes) + seq!['\n'],
{
    reveal_strlit("Load Distribution Plan\n======================\n\n");
    reveal_strlit("Load Distribution Plan");
    reveal_strlit("======================");
    reveal_strlit("\nNodes: ");
    reveal_strlit("Nodes: ");
    reveal_strlit("\n");
    assert("Load Distribution Plan\n======================\n\n"@ =~= "Load Distribution Plan"@
        + seq!['\n'] + "======================"@ + seq!['\n', '\n']);
    assert("\nNodes: "@ =~= seq!['\n'] + "Nodes: "@);
    assert("\n"@ =~= seq!['\n']);
    assert(plan_summary(plan) =~= "Load Distribution Plan"@ + seq!['\n']
        + "======================"@ + seq!['\n', '\n'] + entries_summary(plan.distributions)
        + "Total layers: "@ + decimal(plan.total_layers) + seq!['\n'] + "Nodes: "@ + listed(
        plan.participating_nodes,
    ) + seq!['\n']);
}

/// A plan is seen with every entry, every slice and every field of them.
pub proof fn a_plan_is_seen_whole(plan: LoadDistributionPlan, slice: TensorSlice)
    ensures
        slice@.start == slice.layer_range.0,
        slice@.end == slice.layer_range.1,
        slice@.size == slice.size_gb@,
        slice@.num_weights == slice.num_weights,
        plan@.total_layers == plan.total_layers,
        plan@.participating_nodes.len() == plan.participating_nodes@.len(),
        forall|i: int|
            0 <= i < plan.participating_nodes@.len() ==> #[trigger] plan@.participating_nodes[i]
                == plan.participating_nodes@[i]@,
        plan@.distributions.len() == plan.distributions@.len(),
        forall|i: int|
            0 <= i < plan.distributions@.len() ==> (#[trigger] plan@.distributions[i]).0
                == plan.distributions@[i].0@ && plan@.distributions[i].1.len()
                == plan.distributions@[i].1@.len(),
        forall|i: int, j: int|
            0 <= i < plan.distributions@.len() && 0 <= j < plan.distributions@[i].1@.len()
                ==> #[trigger] plan@.distributions[i].1[j] == plan.distributions@[i].1@[j]@,
{
}

/// The nodes of entries are their names, one for each and in their order.
pub proof fn every_entry_names_its_node(entries: Seq<(Seq<char>, Seq<SliceView>)>)
    ensures
        entry_nodes(entries).len() == entries.len(),
        forall|i: int| 0 <= i < entries.len() ==> #[trigger] entry_nodes(entries)[i] == entries[i].0,
{
}

} // verus!
