//! A two-level doubly-linked list for tours over a fixed set of nodes.
//!
//! A tour is a cyclic order of the nodes `0..n`. The nodes are partitioned
//! into segments; every segment carries a reversal flag, and the segments
//! themselves form a ring. Neighbour queries take constant time, while
//! betweenness queries and the reversal of a sub-path touch only a few
//! segments instead of the whole order.
//!
//! * [`tree`] holds the list, its model and its invariant, [`vertex`] and
//!   [`parent`] the records of nodes and segments, [`order`] explicit tour
//!   orders.
//! * [`apply`] loads an order, [`query`] answers neighbour, relation and
//!   betweenness queries.
//! * [`flip`] is the edge exchange. It is put together from four steps on
//!   the list: [`within`] reverses a block inside a segment, [`reverse`] a
//!   run of whole segments, [`relocate`] moves vertices into a neighbouring
//!   segment, and [`reanchor`] chooses the segment with which the listing
//!   begins.
//! * [`frame`] describes the layout of the segments, and what each step of
//!   a flip makes of it.
//! * [`laws`] and [`flip_laws`] state what holds of every tour and of every
//!   flip; [`cyclic`] has the arithmetic of places on a cycle that they rest
//!   on.
//! * [`mst`] builds a minimum spanning tree over the nodes.

pub mod apply;
pub mod cyclic;
pub mod flip;
pub mod flip_laws;
pub mod frame;
pub mod laws;
pub mod mst;
pub mod order;
pub mod parent;
pub mod query;
pub mod reanchor;
pub mod relocate;
pub mod reverse;
pub mod tree;
pub mod vertex;
pub mod within;
