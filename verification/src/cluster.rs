//! The cluster as the planner sees it: its nodes, their load, and the model's layers.
use crate::binary32::Binary32;
use vstd::prelude::*;

verus! {

/// A node and the VRAM that it offers.
#[derive(Clone, Debug)]
pub struct NodeResources {
    /// The node's name.
    pub id: String,
    /// VRAM in GB.
    pub vram_gb: Binary32,
}

/// One layer of the model.
#[derive(Clone, Copy, Debug)]
pub struct LayerSpec {
    /// The layer's place in the model.
    pub index: usize,
    /// VRAM that the layer needs, in GB.
    pub vram_gb: Binary32,
    /// Number of weights.
    pub num_weights: u32,
}

/// Whether a node takes part in the cluster.
#[derive(Clone, Copy, Debug, PartialEq, Eq, Structural)]
pub enum NodeStatus {
    Active,
    Inactive,
}

/// The load of a node.
#[derive(Clone, Debug)]
pub struct NodeMetrics {
    /// The node's name.
    pub name: String,
    /// Whether the node takes part.
    pub status: NodeStatus,
    /// VRAM that is free, in GB.
    pub available_vram_gb: Binary32,
    /// VRAM in all, in GB.
    pub total_vram_gb: Binary32,
}

/// The nodes of the cluster, and their load in the order in which it is read.
#[derive(Clone, Debug)]
pub struct ClusterState {
    /// The registered nodes.
    pub nodes: Vec<NodeResources>,
    /// The load of the nodes.
    pub metrics: Vec<NodeMetrics>,
}

} // verus!
