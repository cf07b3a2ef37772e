//! The road map: intersections, roads between them, and derived indexes.
use std::collections::HashMap;
use vstd::prelude::*;

use crate::geometry::Coord;
use crate::state::IdList;
use crate::table::Table;

verus! {

/// An intersection that can be owned.
pub struct RepoNode {
    pub id: String,
    pub coord: Coord,
    pub degree: i64,
    pub s2_cell_id: u64,
}

#[verifier::ext_equal]
pub struct RepoNodeView {
    pub id: Seq<char>,
    pub coord: Coord,
    pub degree: i64,
    pub cell: u64,
}

impl View for RepoNode {
    type V = RepoNodeView;

    open spec fn view(&self) -> RepoNodeView {
        RepoNodeView {
            id: self.id@,
            coord: self.coord,
            degree: self.degree,
            cell: self.s2_cell_id,
        }
    }
}

impl Clone for RepoNode {
    fn clone(&self) -> (r: Self)
        ensures
            r@ == self@,
    {
        RepoNode {
            id: self.id.clone(),
            coord: self.coord,
            degree: self.degree,
            s2_cell_id: self.s2_cell_id,
        }
    }
}

/// A road piece that leads to `to`.
pub struct Edge {
    pub to: String,
    pub weight: u64,
}

#[verifier::ext_equal]
pub struct EdgeView {
    pub to: Seq<char>,
    pub weight: u64,
}

impl View for Edge {
    type V = EdgeView;

    open spec fn view(&self) -> EdgeView {
        EdgeView { to: self.to@, weight: self.weight }
    }
}

/// The road pieces that leave a point.
pub struct EdgeList {
    pub edges: Vec<Edge>,
}

impl View for EdgeList {
    type V = Seq<EdgeView>;

    open spec fn view(&self) -> Seq<EdgeView> {
        Seq::new(self.edges@.len(), |i: int| self.edges@[i]@)
    }
}

/// A route as the points it passes.
pub struct Path {
    pub points: Vec<Coord>,
}

impl View for Path {
    type V = Seq<Coord>;

    open spec fn view(&self) -> Seq<Coord> {
        self.points@
    }
}

pub struct NodeRepo {
    pub refreshed_at: i64,
    pub preview_mtime_ms: i64,
    pub cache_signature: String,
    pub boundary_signature: String,
    pub graph_version: i64,
    pub nodes_by_id: Table<RepoNode>,
    pub adjacency: Table<EdgeList>,
    pub coords_by_id: Table<Coord>,
    pub connected_components: Table<i64>,
    pub immediate_neighbor_cache: Table<IdList>,
    pub route_cache: Table<Path>,
    pub tile_node_id_cache: Table<IdList>,
    pub s2_sorted_nodes: Vec<(u64, String)>,
    pub s2_cell_ranges: HashMap<u64, (usize, usize)>,
    pub s2_index_level: u64,
    pub display_names: Table<String>,
}

/// The road map as maps.
#[verifier::ext_equal]
pub struct RepoView {
    pub refreshed_at: int,
    pub source_mtime: int,
    pub cache_signature: Seq<char>,
    pub boundary_signature: Seq<char>,
    pub graph_version: int,
    pub nodes: Map<Seq<char>, RepoNodeView>,
    pub node_keys: Seq<Seq<char>>,
    pub adjacency: Map<Seq<char>, Seq<EdgeView>>,
    pub coords: Map<Seq<char>, Coord>,
    pub coord_keys: Seq<Seq<char>>,
    pub components: Map<Seq<char>, i64>,
    pub neighbor_cache: Map<Seq<char>, Seq<Seq<char>>>,
    pub route_cache: Map<Seq<char>, Seq<Coord>>,
    pub tile_cache: Map<Seq<char>, Seq<Seq<char>>>,
    pub sorted: Seq<(u64, Seq<char>)>,
    pub ranges: Map<u64, (usize, usize)>,
    pub level: u64,
    pub display_names: Map<Seq<char>, Seq<char>>,
}

/// A list of cells with the nodes in them.
pub open spec fn cell_entries(list: Seq<(u64, String)>) -> Seq<(u64, Seq<char>)> {
    Seq::new(list.len(), |i: int| (list[i].0, list[i].1@))
}

impl View for NodeRepo {
    type V = RepoView;

    open spec fn view(&self) -> RepoView {
        RepoView {
            refreshed_at: self.refreshed_at as int,
            source_mtime: self.preview_mtime_ms as int,
            cache_signature: self.cache_signature@,
            boundary_signature: self.boundary_signature@,
            graph_version: self.graph_version as int,
            nodes: self.nodes_by_id@,
            node_keys: self.nodes_by_id.keys(),
            adjacency: self.adjacency@,
            coords: self.coords_by_id@,
            coord_keys: self.coords_by_id.keys(),
            components: self.connected_components@,
            neighbor_cache: self.immediate_neighbor_cache@,
            route_cache: self.route_cache@,
            tile_cache: self.tile_node_id_cache@,
            sorted: cell_entries(self.s2_sorted_nodes@),
            ranges: self.s2_cell_ranges@,
            level: self.s2_index_level,
            display_names: self.display_names@,
        }
    }
}

} // verus!
