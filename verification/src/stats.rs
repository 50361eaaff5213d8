//! Statistics of the distributions made and the balance reached.
use crate::binary32::{
    lemma_fraction_in_binade, lemma_one, lemma_rounded_at_most, one_in_units, Binary32, Real32,
    ONE_MAGNITUDE,
};
use crate::decimal::{decimal, fixed, push_decimal};
use crate::rounding::{
    lemma_magnitude_equal_quotients, lemma_units_in_binade, lemma_units_increase,
    lemma_units_round_to_magnitude, units_of, BINADE, INFINITE_MAGNITUDE,
};
use vstd::arithmetic::power2::{lemma2_to64, lemma_pow2_adds, lemma_pow2_pos, pow2};
use vstd::prelude::*;
use vstd::string::StringExecFns;

verus! {

/// Collects statistics of the load.
#[derive(Clone, Debug)]
pub struct LoadStats {
    /// Total layers distributed.
    pub total_layers_distributed: usize,
    /// Total VRAM used across the cluster, in GB.
    pub total_vram_used_gb: Binary32,
    /// Average load balance ratio, from zero to one.
    pub avg_load_balance_ratio: Binary32,
    /// Number of rebalancing operations.
    pub rebalancing_count: usize,
    /// Whether the average has had its first sample.
    pub balance_ratio_initialized: bool,
}

/// What the statistics are.
pub struct StatsView {
    pub layers: nat,
    pub vram: Real32,
    pub ratio: Real32,
    pub rebalancings: nat,
    pub sampled: bool,
}

impl View for LoadStats {
    type V = StatsView;

    open spec fn view(&self) -> StatsView {
        StatsView {
            layers: self.total_layers_distributed as nat,
            vram: self.total_vram_used_gb@,
            ratio: self.avg_load_balance_ratio@,
            rebalancings: self.rebalancing_count as nat,
            sampled: self.balance_ratio_initialized,
        }
    }
}

/// The share of the average that a new sample leaves.
pub open spec fn kept_share() -> Real32 {
    Real32::fraction(9, 10)
}

/// The share of a new sample in the average.
pub open spec fn sample_share() -> Real32 {
    Real32::fraction(1, 10)
}

impl StatsView {
    /// Statistics of nothing.
    pub open spec fn empty() -> StatsView {
        StatsView {
            layers: 0,
            vram: Real32::zero(),
            ratio: Real32::zero(),
            rebalancings: 0,
            sampled: false,
        }
    }

    /// After a distribution.
    pub open spec fn distributed(self, layers: nat, vram: Real32) -> StatsView {
        StatsView { layers: self.layers + layers, vram: self.vram.plus(vram), ..self }
    }

    /// After a sample of the balance: the first is the average, and each further one
    /// moves it by a tenth.
    pub open spec fn balanced(self, ratio: Real32) -> StatsView {
        StatsView {
            ratio: if self.sampled {
                self.ratio.times(kept_share()).plus(ratio.times(sample_share()))
            } else {
                ratio
            },
            sampled: true,
            ..self
        }
    }

    /// After a rebalancing.
    pub open spec fn rebalanced(self) -> StatsView {
        StatsView { rebalancings: self.rebalancings + 1, ..self }
    }

    /// The report on the statistics.
    pub open spec fn report(self) -> Seq<char> {
        "Load Statistics\n==========\nTotal layers distributed: "@ + decimal(self.layers)
            + "\nTotal VRAM used: "@ + fixed(self.vram, 1) + " GB\nAvg load balance ratio: "@ + fixed(
            self.ratio,
            2,
        ) + "\nRebalancing operations: "@ + decimal(self.rebalancings)
    }
}

impl Default for LoadStats {
    fn default() -> (r: LoadStats)
        ensures
            r@ == StatsView::empty(),
    {
        LoadStats {
            total_layers_distributed: 0,
            total_vram_used_gb: Binary32::zero(),
            avg_load_balance_ratio: Binary32::zero(),
            rebalancing_count: 0,
            balance_ratio_initialized: false,
        }
    }
}

impl LoadStats {
    /// Statistics of nothing.
    pub fn new() -> (r: LoadStats)
        ensures
            r@ == StatsView::empty(),
    {
        LoadStats::default()
    }

    /// Records a distribution.
    pub fn record_distribution(&mut self, num_layers: usize, vram_gb: Binary32)
        requires
            old(self).total_layers_distributed + num_layers <= usize::MAX,
        ensures
            final(self)@ == old(self)@.distributed(num_layers as nat, vram_gb@),
    {
        self.total_layers_distributed = self.total_layers_distributed + num_layers;
        self.total_vram_used_gb = self.total_vram_used_gb.add(vram_gb);
    }

    /// Takes a sample of the load balance ratio into the average.
    pub fn update_balance_ratio(&mut self, ratio: Binary32)
        ensures
            final(self)@ == old(self)@.balanced(ratio@),
    {
        if !self.balance_ratio_initialized {
            self.avg_load_balance_ratio = ratio;
            self.balance_ratio_initialized = true;
        } else {
            let kept: Binary32 = self.avg_load_balance_ratio.mul(Binary32::fraction(9, 10));
            self.avg_load_balance_ratio = kept.add(ratio.mul(Binary32::fraction(1, 10)));
        }
    }

    /// Records a rebalancing.
    pub fn record_rebalancing(&mut self)
        requires
            old(self).rebalancing_count < usize::MAX,
        ensures
            final(self)@ == old(self)@.rebalanced(),
    {
        self.rebalancing_count = self.rebalancing_count + 1;
    }

    /// A report on the statistics.
    pub fn report(&self) -> (r: String)
        ensures
            r@ == self@.report(),
    {
        let mut text: String = "Load Statistics\n==========\nTotal layers distributed: ".to_owned();
        push_decimal(&mut text, self.total_layers_distributed as u128);
        text.append("\nTotal VRAM used: ");
        self.total_vram_used_gb.push_fixed(&mut text, 1);
        text.append(" GB\nAvg load balance ratio: ");
        self.avg_load_balance_ratio.push_fixed(&mut text, 2);
        text.append("\nRebalancing operations: ");
        push_decimal(&mut text, self.rebalancing_count as u128);
        text
    }
}

/// The first sample is the average, whatever distributions and rebalancings were
/// recorded before it.
pub proof fn first_sample_is_the_average(
    stats: StatsView,
    layers: nat,
    vram: Real32,
    ratio: Real32,
)
    requires
        !stats.sampled,
    ensures
        stats.balanced(ratio).ratio == ratio,
        stats.distributed(layers, vram).balanced(ratio).ratio == ratio,
        stats.rebalanced().balanced(ratio).ratio == ratio,
        stats.balanced(ratio).sampled,
{
}

/// Recording distributions and rebalancings leaves the average alone, and samples leave
/// the totals alone.
pub proof fn totals_and_average_are_independent(
    stats: StatsView,
    layers: nat,
    vram: Real32,
    ratio: Real32,
)
    ensures
        stats.distributed(layers, vram).balanced(ratio) == stats.balanced(ratio).distributed(
            layers,
            vram,
        ),
        stats.rebalanced().balanced(ratio) == stats.balanced(ratio).rebalanced(),
{
}

/// Whether a value lies from zero to one.
pub open spec fn is_ratio(value: Real32) -> bool {
    Real32::zero().at_most(value) && value.at_most(Real32::count(1))
}

proof fn lemma_shares()
    ensures
        kept_share() == (Real32::Finite { negative: false, units: 15_099_494 * pow2(125) }),
        sample_share() == (Real32::Finite { negative: false, units: 13_421_773 * pow2(122) }),
        15_099_494 * pow2(125) == units_of(125 * BINADE as nat + 15_099_494),
        13_421_773 * pow2(122) == units_of(122 * BINADE as nat + 13_421_773),
        15_099_494 * pow2(125) + 13_421_773 * pow2(122) <= one_in_units(),
{
    lemma2_to64();
    lemma_fraction_in_binade(9, 10, 1);
    lemma_fraction_in_binade(1, 10, 4);
    lemma_units_in_binade(125, 15_099_494);
    lemma_units_in_binade(122, 13_421_773);
    lemma_pow2_adds(3, 122);
    lemma_pow2_adds(27, 122);
}

/// A ratio times a share of the average.
proof fn lemma_share_of_ratio(ratio: Real32, units: nat, magnitude: nat)
    requires
        is_ratio(ratio),
        magnitude < INFINITE_MAGNITUDE,
        units == units_of(magnitude),
    ensures
        ({
            let part = ratio.times(Real32::Finite { negative: false, units });
            part is Finite && 0 <= part.place() <= units
        }),
{
    lemma_one();
    lemma_pow2_pos(149);
    lemma_units_increase(ONE_MAGNITUDE as nat, INFINITE_MAGNITUDE as nat);
    let u = ratio->Finite_units;
    assert(ratio is Finite && u <= one_in_units());
    assert(u * units <= units * one_in_units()) by (nonlinear_arith)
        requires
            u <= one_in_units(),
    ;
    lemma_rounded_at_most(ratio->Finite_negative, u * units, one_in_units(), magnitude);
    if ratio->Finite_negative {
        assert(u == 0);
        assert(0 * units == 0);
        lemma_units_round_to_magnitude(0);
        lemma_magnitude_equal_quotients(0, one_in_units(), 0, 1);
    }
}

/// The average of ratios from zero to one stays from zero to one.
pub proof fn average_stays_a_ratio(stats: StatsView, ratio: Real32)
    requires
        is_ratio(ratio),
        stats.sampled ==> is_ratio(stats.ratio),
    ensures
        is_ratio(stats.balanced(ratio).ratio),
{
    if stats.sampled {
        lemma_shares();
        let k = 15_099_494 * pow2(125);
        let s = 13_421_773 * pow2(122);
        lemma_share_of_ratio(stats.ratio, k, 125 * BINADE as nat + 15_099_494);
        lemma_share_of_ratio(ratio, s, 122 * BINADE as nat + 13_421_773);
        let x = stats.ratio.times(kept_share()).place() + ratio.times(sample_share()).place();
        lemma_one();
        if x > 0 {
            lemma_rounded_at_most(false, x as nat, 1, ONE_MAGNITUDE as nat);
        }
    }
}

/// What is recorded adds up: distributions to the totals, rebalancings to their number. A sample
/// after the first leaves nine tenths of the average and adds a tenth of itself. Nothing else
/// changes, and nothing is recorded at the start.
pub proof fn records_add_up(stats: StatsView, layers: nat, vram: Real32, ratio: Real32)
    ensures
        ({
            let after = stats.distributed(layers, vram);
            &&& after.layers == stats.layers + layers
            &&& after.vram == stats.vram.plus(vram)
            &&& after.ratio == stats.ratio && after.sampled == stats.sampled
            &&& after.rebalancings == stats.rebalancings
        }),
        ({
            let after = stats.rebalanced();
            &&& after.rebalancings == stats.rebalancings + 1
            &&& after.layers == stats.layers && after.vram == stats.vram
            &&& after.ratio == stats.ratio && after.sampled == stats.sampled
        }),
        ({
            let after = stats.balanced(ratio);
            &&& after.sampled
            &&& !stats.sampled ==> after.ratio == ratio
            &&& stats.sampled ==> after.ratio == stats.ratio.times(Real32::fraction(9, 10)).plus(
                ratio.times(Real32::fraction(1, 10)),
            )
            &&& after.layers == stats.layers && after.vram == stats.vram
            &&& after.rebalancings == stats.rebalancings
        }),
        StatsView::empty().layers == 0 && StatsView::empty().rebalancings == 0,
        StatsView::empty().vram == Real32::zero() && StatsView::empty().ratio == Real32::zero(),
        !StatsView::empty().sampled,
{
}

/// Statistics are seen with all of their fields.
pub proof fn statistics_are_seen_whole(stats: LoadStats)
    ensures
        stats@.layers == stats.total_layers_distributed,
        stats@.vram == stats.total_vram_used_gb@,
        stats@.ratio == stats.avg_load_balance_ratio@,
        stats@.rebalancings == stats.rebalancing_count,
        stats@.sampled == stats.balance_ratio_initialized,
{
}

/// A report has a heading and one line for each of the totals, the average with two decimal
/// places and the VRAM with one.
pub proof fn a_report_has_a_line_for_each_figure(stats: StatsView)
    ensures
        stats.report() == "Load Statistics"@ + seq!['\n'] + "=========="@ + seq!['\n']
            + "Total layers distributed: "@ + decimal(stats.layers) + seq!['\n']
            + "Total VRAM used: "@ + fixed(stats.vram, 1) + " GB"@ + seq!['\n']
            + "Avg load balance ratio: "@ + fixed(stats.ratio, 2) + seq!['\n']
            + "Rebalancing operations: "@ + decimal(stats.rebalancings),
{
    reveal_strlit("Load Statistics");
    reveal_strlit("==========");
    reveal_strlit("Total layers distributed: ");
    reveal_strlit("Total VRAM used: ");
    reveal_strlit(" GB");
    reveal_strlit("Avg load balance ratio: ");
    reveal_strlit("Rebalancing operations: ");
    reveal_strlit("Load Statistics\n==========\nTotal layers distributed: ");
    reveal_strlit("\nTotal VRAM used: ");
    reveal_strlit(" GB\nAvg load balance ratio: ");
    reveal_strlit("\nRebalancing operations: ");
    assert("Load Statistics\n==========\nTotal layers distributed: "@ =~= "Load Statistics"@
        + seq!['\n'] + "=========="@ + seq!['\n'] + "Total layers distributed: "@);
    assert("\nTotal VRAM used: "@ =~= seq!['\n'] + "Total VRAM used: "@);
    assert(" GB\nAvg load balance ratio: "@ =~= " GB"@ + seq!['\n'] + "Avg load balance ratio: "@);
    assert("\nRebalancing operations: "@ =~= seq!['\n'] + "Rebalancing operations: "@);
    assert(stats.report() =~= "Load Statistics"@ + seq!['\n'] + "=========="@ + seq!['\n']
        + "Total layers distributed: "@ + decimal(stats.layers) + seq!['\n'] + "Total VRAM used: "@
        + fixed(stats.vram, 1) + " GB"@ + seq!['\n'] + "Avg load balance ratio: "@ + fixed(
        stats.ratio,
        2,
    ) + seq!['\n'] + "Rebalancing operations: "@ + decimal(stats.rebalancings));
}

} // verus!
