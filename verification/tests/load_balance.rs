use ghostlink::balancer::{DistributionStep, LoadBalancer, SharedConfig};
use ghostlink::binary32::Binary32;
use ghostlink::chunking::chunk_distribution_plan;
use ghostlink::cluster::{ClusterState, LayerSpec, NodeMetrics, NodeResources, NodeStatus};
use ghostlink::config::LoadBalanceConfig;
use ghostlink::balance::load_skew;
use ghostlink::distribution::{can_be_ordered, ends_are_indices};
use ghostlink::plan::{LoadDistributionPlan, TensorSlice};
use ghostlink::profile::{
    AccelerationMode, ExecutionBackend, ProfileChange, RuntimeProfile, SystemProfile,
};
use ghostlink::shared::SharedBalancers;
use ghostlink::stats::LoadStats;

fn gb(x: f32) -> Binary32 {
    Binary32::from_bits(x.to_bits())
}

fn float(x: Binary32) -> f32 {
    f32::from_bits(x.to_bits())
}

fn node(id: &str, vram_gb: f32) -> NodeResources {
    NodeResources { id: id.to_string(), vram_gb: gb(vram_gb) }
}

fn metrics(name: &str, available: f32, total: f32) -> NodeMetrics {
    NodeMetrics {
        name: name.to_string(),
        status: NodeStatus::Active,
        available_vram_gb: gb(available),
        total_vram_gb: gb(total),
    }
}

/// A cluster of the given nodes, each active and with all of its VRAM free.
fn cluster_of(nodes: Vec<NodeResources>) -> ClusterState {
    let metrics = nodes
        .iter()
        .map(|n| metrics(&n.id, float(n.vram_gb), float(n.vram_gb)))
        .collect();
    ClusterState { nodes, metrics }
}

fn sample_layers(count: usize, vram_gb: f32) -> Vec<LayerSpec> {
    (0..count)
        .map(|index| LayerSpec { index, vram_gb: gb(vram_gb), num_weights: 0 })
        .collect()
}

fn sample_nodes(count: usize, base_vram: f32) -> Vec<NodeResources> {
    (0..count)
        .map(|i| node(&format!("node-{i}"), base_vram + (i as f32 * 6.0)))
        .collect()
}

fn ranges(slices: &[TensorSlice]) -> Vec<(usize, usize)> {
    slices.iter().map(|s| s.layer_range).collect()
}

#[test]
fn load_balancer_distributes_layers() {
    let cluster = cluster_of(sample_nodes(2, 24.0));
    let layers = sample_layers(33, 1.0);
    let balancer = LoadBalancer::new(cluster, LoadBalanceConfig::default());

    let plan = balancer.distribute_layers(&layers).unwrap();
    assert_eq!(plan.total_layers, 33);
    assert_eq!(plan.participating_nodes, vec!["node-1", "node-0"]);
    assert_eq!(ranges(&plan.distributions[0].1), vec![(0, 30)]);
    assert_eq!(ranges(&plan.distributions[1].1), vec![(30, 33)]);
    assert_eq!(float(plan.distributions[0].1[0].size_gb), 30.0);
}

#[test]
fn load_balancer_generates_summary() {
    let cluster = cluster_of(sample_nodes(2, 24.0));
    let layers = sample_layers(33, 1.0);
    let balancer = LoadBalancer::new(cluster, LoadBalanceConfig::default());

    let plan = balancer.distribute_layers(&layers).unwrap();
    let summary = plan.summary();

    assert!(summary.contains("Total layers: 33"));
    assert_eq!(
        summary,
        "Load Distribution Plan\n======================\n\nNode: node-1\n  Total size: 30.0 GB\n  Layers: 0-30\n\nNode: node-0\n  Total size: 3.0 GB\n  Layers: 30-33\n\nTotal layers: 33\nNodes: node-1, node-0\n"
    );
}

#[test]
fn load_stats_records_distribution() {
    let mut stats = LoadStats::new();

    stats.record_distribution(24, gb(24.0));
    stats.record_distribution(9, gb(9.0));

    assert_eq!(stats.total_layers_distributed, 33);
    assert!((float(stats.total_vram_used_gb) - 33.0).abs() < 0.01);
}

#[test]
fn load_stats_updates_balance_ratio() {
    let mut stats = LoadStats::new();

    stats.update_balance_ratio(gb(0.95));
    assert!((float(stats.avg_load_balance_ratio) - 0.95).abs() < 1e-6);

    stats.update_balance_ratio(gb(0.85));
    assert!((float(stats.avg_load_balance_ratio) - 0.94).abs() < 1e-6);
    assert_eq!(float(stats.avg_load_balance_ratio), 0.95f32 * 0.9 + 0.85f32 * 0.1);
}

#[test]
fn load_stats_first_balance_ratio_not_diluted_by_prior_distribution() {
    let mut stats = LoadStats::new();

    stats.record_distribution(24, gb(24.0));
    stats.update_balance_ratio(gb(0.95));

    assert!(
        (float(stats.avg_load_balance_ratio) - 0.95).abs() < 1e-6,
        "first balance ratio sample must be set directly, got {}",
        float(stats.avg_load_balance_ratio)
    );
}

#[test]
fn load_stats_reports() {
    let mut stats = LoadStats::new();

    stats.record_distribution(24, gb(24.0));
    stats.update_balance_ratio(gb(0.95));

    let report = stats.report();
    assert!(report.contains("Total layers distributed: 24"));
    assert_eq!(
        report,
        "Load Statistics\n==========\nTotal layers distributed: 24\nTotal VRAM used: 24.0 GB\nAvg load balance ratio: 0.95\nRebalancing operations: 0"
    );
}

#[test]
fn autotuned_config_reflects_runtime_profile() {
    let profile =
        RuntimeProfile { recommended_workers: 6, acceleration_mode: AccelerationMode::Gpu };

    let config = LoadBalanceConfig::autotuned(&profile);
    assert_eq!(config.lock_timeout_us, 500);
    assert_eq!(config.max_layers_per_assignment, 12);
    assert_eq!(config.max_concurrent_rebalances, 6);
    assert!(float(config.min_load_threshold) > 1.0);
    assert_eq!(float(config.min_load_threshold), 1.15);
}

#[test]
fn autotuned_cpu_threshold_stays_above_one() {
    let profile =
        RuntimeProfile { recommended_workers: 2, acceleration_mode: AccelerationMode::Generic };
    let config = LoadBalanceConfig::autotuned(&profile);
    assert!(
        float(config.min_load_threshold) > 1.0,
        "CPU-tier threshold {} must exceed skew_ratio's mathematical floor of 1.0",
        float(config.min_load_threshold)
    );
}

#[test]
fn rebalance_does_not_always_trigger_on_balanced_cpu_cluster() {
    let cluster = cluster_of(vec![node("node-a", 0.0), node("node-b", 0.0)]);
    let profile =
        RuntimeProfile { recommended_workers: 2, acceleration_mode: AccelerationMode::Generic };
    let balancer = LoadBalancer::new(cluster, LoadBalanceConfig::autotuned(&profile));
    assert!(
        !balancer.rebalance(),
        "a perfectly balanced (zero-VRAM) CPU cluster must not be reported as needing rebalance"
    );
}

#[test]
fn runtime_profile_chunks_large_distribution_slices() {
    let plan = LoadDistributionPlan::new(
        vec![("node-a".into(), vec![TensorSlice::new((0, 10), gb(10.0))])],
        10,
    );

    let chunked = chunk_distribution_plan(plan, 4);
    assert_eq!(chunked.distributions[0].1.len(), 3);
    assert_eq!(chunked.distributions[0].1[0].layer_range, (0, 4));
    assert_eq!(chunked.distributions[0].1[2].layer_range, (8, 10));
    assert_eq!(float(chunked.distributions[0].1[2].size_gb), 2.0);
    assert_eq!(chunked.participating_nodes, vec!["node-a"]);
}

#[test]
fn shed_load_moves_from_low_headroom_to_high_headroom_nodes() {
    let mut cluster = cluster_of(vec![node("node-hot", 24.0), node("node-cool", 24.0)]);
    cluster.metrics = vec![metrics("node-hot", 2.0, 24.0), metrics("node-cool", 20.0, 24.0)];

    let balancer = LoadBalancer::new(cluster, LoadBalanceConfig::default());
    let transfers = balancer.shed_load();

    assert_eq!(transfers.len(), 1);
    assert_eq!(transfers[0].0, "node-hot");
    assert_eq!(transfers[0].1, "node-cool");
}

#[test]
fn the_default_configuration() {
    let config = LoadBalanceConfig::default();
    assert_eq!(config.lock_timeout_us, 1000);
    assert_eq!(float(config.min_load_threshold), 1.25);
    assert_eq!(config.max_layers_per_assignment, 100);
    assert_eq!(config.max_concurrent_rebalances, 1);
}

#[test]
fn every_tier_is_tuned() {
    let tuned = |workers, mode| {
        LoadBalanceConfig::autotuned(&RuntimeProfile {
            recommended_workers: workers,
            acceleration_mode: mode,
        })
    };
    let avx = tuned(0, AccelerationMode::Avx512);
    assert_eq!(avx.lock_timeout_us, 750);
    assert_eq!(float(avx.min_load_threshold), 1.05);
    assert_eq!(avx.max_layers_per_assignment, 2);
    assert_eq!(avx.max_concurrent_rebalances, 1);
    let generic = tuned(20, AccelerationMode::Generic);
    assert_eq!(generic.lock_timeout_us, 1000);
    assert_eq!(float(generic.min_load_threshold), 1.02);
    assert_eq!(generic.max_layers_per_assignment, 40);
    assert_eq!(generic.max_concurrent_rebalances, 8);
}

#[test]
fn distribution_needs_nodes_and_vram() {
    let config = LoadBalanceConfig::default();
    let empty = LoadBalancer::new(cluster_of(vec![]), config);
    assert_eq!(empty.distribute_layers(&sample_layers(1, 1.0)).unwrap_err(), "no nodes available");
    let small = LoadBalancer::new(cluster_of(sample_nodes(1, 5.0)), config);
    assert_eq!(
        small.distribute_layers(&sample_layers(17, 1.0)).unwrap_err(),
        "insufficient VRAM: 12 layers remain"
    );
    let none = small.distribute_layers(&[]).unwrap();
    assert_eq!(none.total_layers, 0);
    assert!(none.distributions.is_empty());
}

#[test]
fn accumulated_rounding_counts_against_a_node() {
    // Ten times a tenth exceeds one in 32 bits.
    let balancer =
        LoadBalancer::new(cluster_of(vec![node("a", 1.0)]), LoadBalanceConfig::default());
    assert_eq!(
        balancer.distribute_layers(&sample_layers(10, 0.1)).unwrap_err(),
        "insufficient VRAM: 1 layers remain"
    );
}

#[test]
fn layers_are_placed_by_index_and_nodes_by_vram() {
    let nodes = vec![node("small", 2.0), node("first", 3.0), node("second", 3.0)];
    let balancer = LoadBalancer::new(cluster_of(nodes), LoadBalanceConfig::default());
    let mut layers = sample_layers(8, 1.0);
    layers.reverse();
    let plan = balancer.distribute_layers(&layers).unwrap();
    assert_eq!(plan.participating_nodes, vec!["first", "second", "small"]);
    assert_eq!(ranges(&plan.distributions[0].1), vec![(0, 3)]);
    assert_eq!(ranges(&plan.distributions[1].1), vec![(3, 6)]);
    assert_eq!(ranges(&plan.distributions[2].1), vec![(6, 8)]);
}

#[test]
fn a_node_that_holds_nothing_takes_no_part() {
    let nodes = vec![node("big", 4.0), node("tiny", 0.5), node("none", 0.0)];
    let balancer = LoadBalancer::new(cluster_of(nodes), LoadBalanceConfig::default());
    let plan = balancer.distribute_layers(&sample_layers(4, 1.0)).unwrap();
    assert_eq!(plan.participating_nodes, vec!["big"]);
    assert!(balancer.distribute_layers(&sample_layers(5, 1.0)).is_err());
}

#[test]
fn distributing_in_chunks_matches_chunking_a_plan() {
    let balancer =
        LoadBalancer::new(cluster_of(sample_nodes(2, 24.0)), LoadBalanceConfig::default());
    let profile =
        RuntimeProfile { recommended_workers: 4, acceleration_mode: AccelerationMode::Gpu };
    let backend = ExecutionBackend { vector_width_bits: 256, preferred_batch_size: 14 };
    let layers = sample_layers(33, 0.7);
    let direct =
        balancer.distribute_layers_with_runtime_profile(&layers, &profile, &backend).unwrap();
    let chunked = chunk_distribution_plan(balancer.distribute_layers(&layers).unwrap(), 7);
    assert_eq!(direct.participating_nodes, chunked.participating_nodes);
    assert_eq!(direct.distributions.len(), chunked.distributions.len());
    for (a, b) in direct.distributions.iter().zip(&chunked.distributions) {
        assert_eq!(ranges(&a.1), ranges(&b.1));
        for (x, y) in a.1.iter().zip(&b.1) {
            assert_eq!(x.size_gb.to_bits(), y.size_gb.to_bits());
        }
    }
    let first = &direct.distributions[0].1;
    assert_eq!(ranges(first)[..2], [(0, 7), (7, 14)]);
    let used: f32 = (0..33).fold(0.0, |sum: f32, _| sum + 0.7);
    assert_eq!(float(first[0].size_gb), used / 33.0 * 7.0);
}

#[test]
fn the_slice_limit_is_never_zero() {
    let balancer =
        LoadBalancer::new(cluster_of(vec![node("a", 9.0)]), LoadBalanceConfig::default());
    let profile =
        RuntimeProfile { recommended_workers: 0, acceleration_mode: AccelerationMode::Generic };
    let backend = ExecutionBackend { vector_width_bits: 512, preferred_batch_size: 0 };
    let plan = balancer
        .distribute_layers_with_runtime_profile(&sample_layers(3, 1.0), &profile, &backend)
        .unwrap();
    assert_eq!(ranges(&plan.distributions[0].1), vec![(0, 1), (1, 2), (2, 3)]);
}

#[test]
fn chunking_is_final_and_keeps_short_slices() {
    let mut slice = TensorSlice::new((3, 12), gb(4.5));
    slice.num_weights = 7;
    let plan = LoadDistributionPlan::new(
        vec![
            ("a".into(), vec![slice, TensorSlice::new((12, 14), gb(1.0))]),
            ("b".into(), vec![TensorSlice::new((9, 4), gb(2.0))]),
        ],
        11,
    );
    let once = chunk_distribution_plan(plan, 0);
    assert_eq!(once.distributions[0].1.len(), 11);
    assert_eq!(once.distributions[1].1[0].layer_range, (9, 4));
    assert!(once.distributions[0].1[..9].iter().all(|s| s.num_weights == 7));
    assert!(once.distributions[0].1[..9].iter().all(|s| float(s.size_gb) == 0.5));
    let twice = chunk_distribution_plan(once.clone(), 1);
    assert_eq!(ranges(&once.distributions[0].1), ranges(&twice.distributions[0].1));
    assert_eq!(twice.total_layers, 11);
}

#[test]
fn sizes_are_summed_as_the_machine_sums_them() {
    let sizes = [0.1f32, 0.2, 0.7, 1e9, 3.3];
    let slices: Vec<TensorSlice> =
        sizes.iter().enumerate().map(|(i, &s)| TensorSlice::new((i, i + 1), gb(s))).collect();
    let plan = LoadDistributionPlan::new(vec![("a".into(), slices), ("b".into(), vec![])], 5);
    let total: f32 = sizes.iter().sum();
    let nothing: f32 = Vec::<f32>::new().iter().sum();
    let summary = plan.summary();
    assert!(summary.contains(&format!("Node: a\n  Total size: {total:.1} GB\n  Layers: 0-5\n")));
    assert!(summary.contains(&format!("Node: b\n  Total size: {nothing:.1} GB\n  Layers: 0-0\n")));
}

#[test]
fn rebalance_follows_the_ratio_of_free_vram() {
    let judge = |list: Vec<NodeMetrics>| {
        LoadBalancer::new(
            ClusterState { nodes: vec![], metrics: list },
            LoadBalanceConfig::default(),
        )
        .rebalance()
    };
    assert!(!judge(vec![]));
    assert!(!judge(vec![metrics("a", 8.0, 8.0), metrics("b", 8.0, 8.0)]));
    assert!(!judge(vec![metrics("a", 8.0, 8.0), metrics("b", 9.9, 10.0)]));
    assert!(judge(vec![metrics("a", 8.0, 8.0), metrics("b", 10.0, 10.0)]));
    assert!(judge(vec![metrics("a", 0.0, 8.0), metrics("b", 1.0, 8.0)]));
    assert!(!judge(vec![metrics("a", -1.0, 8.0), metrics("b", f32::NAN, 8.0)]));
    // Equal, but negligible.
    assert!(judge(vec![metrics("a", 1e-8, 8.0), metrics("b", 1e-8, 8.0)]));
    let mut away = metrics("c", 90.0, 90.0);
    away.status = NodeStatus::Inactive;
    assert!(!judge(vec![metrics("a", 8.0, 8.0), away.clone()]));
    assert!(!judge(vec![away]));
}

#[test]
fn shed_load_keeps_to_its_limit_and_picks_the_freest_target() {
    let list = vec![
        metrics("hot-1", 1.0, 24.0),
        metrics("cool-1", 13.0, 24.0),
        metrics("cool-2", 20.0, 24.0),
        metrics("cool-3", 20.0, 24.0),
        metrics("hot-2", 1.0, 24.0),
        metrics("hot-3", 1.0, 24.0),
        metrics("mild", 9.0, 24.0),
    ];
    let mut config = LoadBalanceConfig::default();
    config.max_concurrent_rebalances = 2;
    let cluster = ClusterState { nodes: vec![], metrics: list };
    let balancer = LoadBalancer::new(cluster.clone(), config);
    assert_eq!(
        balancer.shed_load(),
        vec![
            ("hot-1".to_string(), "cool-2".to_string()),
            ("hot-2".to_string(), "cool-2".to_string())
        ]
    );
    config.max_concurrent_rebalances = 0;
    assert!(LoadBalancer::new(cluster, config).shed_load().is_empty());
}

#[test]
fn a_name_is_not_relieved_by_itself() {
    let cluster = ClusterState {
        nodes: vec![],
        metrics: vec![metrics("same", 1.0, 24.0), metrics("same", 23.0, 24.0)],
    };
    assert!(LoadBalancer::new(cluster, LoadBalanceConfig::default()).shed_load().is_empty());
}

#[test]
fn reconfiguring_takes_effect_unless_poisoned() {
    let profile =
        SystemProfile { recommended_workers: 5, acceleration_mode: AccelerationMode::Gpu };
    let mut balancer = LoadBalancer::new(cluster_of(vec![]), LoadBalanceConfig::default());
    assert!(balancer.watch_step(Some(ProfileChange::Unchanged)));
    assert_eq!(balancer.config().lock_timeout_us, 1000);
    assert!(balancer.watch_step(Some(ProfileChange::Updated(profile))));
    assert_eq!(balancer.config().lock_timeout_us, 500);
    assert_eq!(balancer.config().max_layers_per_assignment, 10);
    assert!(!balancer.watch_step(None));

    let mut stuck = LoadBalancer {
        cluster: cluster_of(vec![]),
        config: SharedConfig { value: balancer.config(), poisoned: true },
    };
    stuck.reconfigure_from_system_profile(&profile);
    assert_eq!(stuck.config().lock_timeout_us, 1000);
    assert_eq!(stuck.config.value.lock_timeout_us, 500);

    let tuned = LoadBalancer::with_runtime_profile(
        cluster_of(vec![]),
        &RuntimeProfile { recommended_workers: 3, acceleration_mode: AccelerationMode::Avx512 },
    );
    assert_eq!(tuned.config().lock_timeout_us, 750);
}

#[test]
fn an_attempt_is_made_only_within_the_time_limit() {
    let balancer =
        LoadBalancer::new(cluster_of(vec![node("a", 2.0)]), LoadBalanceConfig::default());
    let fits = sample_layers(2, 1.0);
    let exceeds = sample_layers(3, 1.0);
    assert!(matches!(
        balancer.distribute_with_deadlock_prevention(&fits, 999),
        DistributionStep::Done(plan) if plan.total_layers == 2
    ));
    assert!(matches!(
        balancer.distribute_with_deadlock_prevention(&exceeds, 0),
        DistributionStep::Retry { wait_ms: 10 }
    ));
    assert!(matches!(
        balancer.distribute_with_deadlock_prevention(&fits, 1000),
        DistributionStep::TimedOut(message) if message == "deadlock prevention timeout"
    ));
}

#[test]
fn the_average_of_ratios_stays_a_ratio() {
    let mut stats = LoadStats::new();
    for _ in 0..200 {
        stats.update_balance_ratio(gb(1.0));
        assert!(float(stats.avg_load_balance_ratio) <= 1.0);
    }
    for _ in 0..2000 {
        stats.update_balance_ratio(gb(0.0));
        assert!(float(stats.avg_load_balance_ratio) >= 0.0);
    }
    stats.record_rebalancing();
    assert_eq!(stats.rebalancing_count, 1);
}

#[test]
fn nodes_can_be_ordered_unless_numbers_differ_around_what_is_none() {
    let list = |sizes: &[f32]| -> Vec<NodeResources> {
        sizes.iter().map(|&size| node("n", size)).collect()
    };
    assert!(can_be_ordered(&list(&[])));
    assert!(can_be_ordered(&list(&[3.0, 1.0, f32::INFINITY])));
    assert!(can_be_ordered(&list(&[f32::NAN, f32::NAN])));
    assert!(can_be_ordered(&list(&[0.0, f32::NAN, -0.0])));
    assert!(!can_be_ordered(&list(&[1.0, f32::NAN, 2.0])));
    assert!(!can_be_ordered(&list(&[2.0, 1.0, f32::NAN])));
}

#[test]
fn the_order_of_input_does_not_matter_without_ties() {
    let plan_of = |nodes: Vec<NodeResources>, layers: &[LayerSpec]| {
        LoadBalancer::new(cluster_of(nodes), LoadBalanceConfig::default())
            .distribute_layers(layers)
            .unwrap()
    };
    let nodes = vec![node("a", 3.0), node("b", 5.0), node("c", 4.0)];
    let layers = sample_layers(11, 1.0);
    let plan = plan_of(nodes.clone(), &layers);
    let mut other_nodes = nodes;
    other_nodes.rotate_left(1);
    let mut other_layers = layers;
    other_layers.rotate_right(4);
    let other = plan_of(other_nodes, &other_layers);
    assert_eq!(plan.participating_nodes, vec!["b", "c", "a"]);
    assert_eq!(other.participating_nodes, plan.participating_nodes);
    for (x, y) in plan.distributions.iter().zip(&other.distributions) {
        assert_eq!(ranges(&x.1), ranges(&y.1));
    }
}

#[test]
fn the_order_of_metrics_does_not_decide_about_balance() {
    let judge = |list: &[NodeMetrics]| {
        LoadBalancer::new(
            ClusterState { nodes: vec![], metrics: list.to_vec() },
            LoadBalanceConfig::default(),
        )
        .rebalance()
    };
    for free in [[8.0, 9.0, 9.9], [8.0, 9.0, 10.0], [0.0, -0.0, f32::NAN]] {
        let mut list: Vec<NodeMetrics> = free.iter().map(|&f| metrics("n", f, 24.0)).collect();
        let first = judge(&list);
        for _ in 0..2 {
            list.rotate_left(1);
            assert_eq!(judge(&list), first);
        }
        list.swap(0, 1);
        assert_eq!(judge(&list), first);
    }
}

#[test]
fn spare_transfers_leave_no_overloaded_node() {
    let mut config = LoadBalanceConfig::default();
    config.max_concurrent_rebalances = 5;
    let names = ["a", "b", "c"];
    let mut list: Vec<NodeMetrics> = names.iter().map(|n| metrics(n, 0.5, 10.0)).collect();
    list.push(metrics("free", 9.0, 10.0));
    let cluster = ClusterState { nodes: vec![], metrics: list };
    let transfers = LoadBalancer::new(cluster, config).shed_load();
    let sources: Vec<&str> = transfers.iter().map(|t| t.0.as_str()).collect();
    assert_eq!(sources, names);
    assert!(transfers.iter().all(|t| t.1 == "free"));
}

#[test]
fn the_slice_limit_does_not_decide_who_takes_part() {
    let balancer =
        LoadBalancer::new(cluster_of(sample_nodes(3, 4.0)), LoadBalanceConfig::default());
    let profile =
        RuntimeProfile { recommended_workers: 1, acceleration_mode: AccelerationMode::Generic };
    let backend = ExecutionBackend { vector_width_bits: 64, preferred_batch_size: 64 };
    for count in [5, 20, 30, 31] {
        let layers = sample_layers(count, 1.0);
        let whole = balancer.distribute_layers(&layers);
        let cut = balancer.distribute_layers_with_runtime_profile(&layers, &profile, &backend);
        match (whole, cut) {
            (Ok(a), Ok(b)) => {
                assert_eq!(a.participating_nodes, b.participating_nodes);
                assert!(b.distributions.iter().all(|d| {
                    d.1.iter().all(|s| s.layer_range.1 - s.layer_range.0 <= 2)
                }));
            }
            (Err(a), Err(b)) => assert_eq!(a, b),
            _ => panic!("only one of the two was distributed"),
        }
    }
}

#[test]
fn a_retune_is_seen_by_clones_and_by_nobody_else() {
    let profile =
        SystemProfile { recommended_workers: 5, acceleration_mode: AccelerationMode::Gpu };
    let fresh = || LoadBalancer::new(cluster_of(vec![node("a", 4.0)]), LoadBalanceConfig::default());
    let mut all = SharedBalancers::new();
    let first = all.add_balancer(fresh());
    let other = all.add_balancer(fresh());
    let clone = first.clone();
    all.reconfigure_from_system_profile(first, &profile);
    for handle in [first, clone] {
        let config = all.get(handle).config();
        assert_eq!(config.lock_timeout_us, 500);
        assert_eq!(float(config.min_load_threshold), 1.15);
        assert_eq!(config.max_layers_per_assignment, 10);
        assert_eq!(config.max_concurrent_rebalances, 5);
        assert_eq!(all.get(handle).cluster.nodes.len(), 1);
    }
    assert_eq!(all.get(other).config().lock_timeout_us, 1000);
    assert!(all.watch_step(other, Some(ProfileChange::Updated(profile))));
    assert_eq!(all.get(other).config().lock_timeout_us, 500);
    assert!(all.watch_step(other, Some(ProfileChange::Unchanged)));
    assert!(!all.watch_step(other, None));
}

#[test]
fn sorting_is_stable_on_long_input() {
    let mut state = 12345usize;
    let mut next = || {
        state = (state * 1103 + 12849) % 65521;
        state
    };
    let layers: Vec<LayerSpec> = (0..500)
        .map(|i| LayerSpec { index: next() % 90, vram_gb: gb(1.0), num_weights: i })
        .collect();
    let nodes: Vec<NodeResources> =
        (0..200).map(|i| node(&format!("n{i}"), (next() % 6 + 1) as f32)).collect();
    let mut expected: Vec<(String, f32)> =
        nodes.iter().map(|n| (n.id.clone(), float(n.vram_gb))).collect();
    expected.sort_by(|a, b| b.1.partial_cmp(&a.1).unwrap());
    let mut indices: Vec<usize> = layers.iter().map(|l| l.index).collect();
    indices.sort();
    let balancer = LoadBalancer::new(cluster_of(nodes), LoadBalanceConfig::default());
    let plan = balancer.distribute_layers(&layers).unwrap();
    let mut at = 0;
    for ((id, slices), (name, vram)) in plan.distributions.iter().zip(&expected) {
        assert_eq!(id, name);
        let end = (at + *vram as usize).min(indices.len());
        assert_eq!(ranges(slices), vec![(indices[at], indices[end - 1] + 1)]);
        at = end;
    }
    assert_eq!(at, 500);
}

#[test]
fn the_largest_index_is_an_error_only_where_it_is_placed() {
    let mut layers = sample_layers(3, 1.0);
    layers[0].index = usize::MAX;
    let small = vec![node("a", 2.0)];
    let large = vec![node("a", 3.0)];
    assert!(ends_are_indices(&small, &layers));
    assert!(!ends_are_indices(&large, &layers));
    assert!(ends_are_indices(&vec![], &layers));
    assert!(ends_are_indices(&large, &sample_layers(3, 1.0)));
    let balancer = LoadBalancer::new(cluster_of(small), LoadBalanceConfig::default());
    assert_eq!(
        balancer.distribute_layers(&layers).unwrap_err(),
        "insufficient VRAM: 1 layers remain"
    );
}

#[test]
fn the_skew_of_the_load() {
    let skew = |list: Vec<NodeMetrics>| load_skew(&list).map(float);
    assert_eq!(skew(vec![]), None);
    assert_eq!(skew(vec![metrics("a", 0.0, 1.0)]), Some(1.0));
    assert_eq!(skew(vec![metrics("a", 3.0, 9.0), metrics("b", 7.0, 9.0)]), Some(7.0 / 3.0));
    assert_eq!(skew(vec![metrics("a", 0.0, 9.0), metrics("b", 7.0, 9.0)]), Some(f32::INFINITY));
}
