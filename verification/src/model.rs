//! The data of a planning run: locations, connections, vehicles, cargo, and
//! the movements that a plan is made of.

use vstd::prelude::*;

verus! {

/// A location, known by its name.
#[derive(Debug, PartialEq, Eq, Clone, Copy)]
pub struct Node {
    pub name: &'static str,
}

/// A connection between two locations, open in both directions at one weight.
#[derive(Debug, PartialEq, Eq, Clone, Copy)]
pub struct Edge {
    pub name: &'static str,
    pub weight: u32,
    pub from: &'static str,
    pub to: &'static str,
}

/// A vehicle: what it can carry and where it stands.
#[derive(Debug, PartialEq, Eq, Clone, Copy)]
pub struct Train {
    pub name: &'static str,
    pub capacity: u32,
    pub start: &'static str,
}

/// A piece of cargo, to be carried from `start` to `dest`.
#[derive(Debug, PartialEq, Eq, Clone, Copy)]
pub struct Package {
    pub name: &'static str,
    pub weight: u32,
    pub start: &'static str,
    pub dest: &'static str,
}

/// One movement of a vehicle: train `t` leaves `n1` for `n2` when `w` has
/// elapsed. `p1` names the cargo where `n1` is its origin, `p2` where `n2` is
/// its destination; both are empty otherwise.
///
/// Elapsed weight is kept in 128 bits: a timeline has fewer than 2^64
/// movements of less than 2^32 each, so no sum of them overflows.
#[derive(Debug, PartialEq, Eq, Clone, Copy)]
pub struct Move {
    pub w: u128,
    pub t: &'static str,
    pub n1: &'static str,
    pub p1: &'static str,
    pub n2: &'static str,
    pub p2: &'static str,
}

/// Why no plan could be made.
#[derive(Debug, PartialEq, Eq, Clone, Copy)]
pub enum PlanError {
    /// A connection, vehicle or cargo item names a location that the network
    /// does not have.
    UnknownLocation { name: &'static str },
    /// No walk leads from `from` to `to`.
    NoPath { from: &'static str, to: &'static str },
    /// No vehicle can carry the cargo item.
    NoCapableVehicle { cargo: &'static str },
}

/// A network with its fleet and the cargo to deliver.
#[derive(Debug, PartialEq, Eq)]
pub struct Graph {
    pub nodes: Vec<Node>,
    pub edges: Vec<Edge>,
    pub trains: Vec<Train>,
    pub packages: Vec<Package>,
}

impl PlanError {
    /// A short description of the kind of failure.
    pub fn message(&self) -> (text: &'static str)
        ensures
            text == match *self {
                PlanError::UnknownLocation { .. } => "Unknown Location",
                PlanError::NoPath { .. } => "No Path",
                PlanError::NoCapableVehicle { .. } => "No Capable Vehicle",
            },
    {
        match self {
            PlanError::UnknownLocation { .. } => "Unknown Location",
            PlanError::NoPath { .. } => "No Path",
            PlanError::NoCapableVehicle { .. } => "No Capable Vehicle",
        }
    }
}

impl Graph {
    /// A network without locations, vehicles or cargo.
    pub fn new() -> (graph: Graph)
        ensures
            graph.nodes@.len() == 0,
            graph.edges@.len() == 0,
            graph.trains@.len() == 0,
            graph.packages@.len() == 0,
            graph.well_formed(),
    {
        Graph { nodes: Vec::new(), edges: Vec::new(), trains: Vec::new(), packages: Vec::new() }
    }

    /// Replaces the whole content of the network.
    pub fn input(
        &mut self,
        nodes: Vec<Node>,
        edges: Vec<Edge>,
        trains: Vec<Train>,
        packages: Vec<Package>,
    )
        ensures
            final(self).nodes == nodes,
            final(self).edges == edges,
            final(self).trains == trains,
            final(self).packages == packages,
    {
        self.nodes = nodes;
        self.edges = edges;
        self.trains = trains;
        self.packages = packages;
    }
}

} // verus!
