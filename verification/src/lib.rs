//! Route planning over a fixed level graph: every simple route from the
//! entry biome to a destination, a filter over those routes, a scroll score
//! per route, and the reduction of the routes to a list of drawable edges.

pub mod builders;
pub mod edge_laws;
pub mod edges;
pub mod filter;
pub mod graph;
pub mod model;
pub mod request;
pub mod routes;
pub mod scoring;
pub mod tiers;
