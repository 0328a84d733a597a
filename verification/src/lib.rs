//! A generation-labeled ancestry graph.
//!
//! The library ingests a flat list of person records (id, names, optional
//! mother id, optional father id, date strings) and produces a directed
//! parent/child graph in which every node carries a generation number:
//! an integer distance from a single anchor node that holds generation 0.
//! Anchor selection, forward propagation along parent edges, and an
//! iterative back-fill pass for nodes the traversal never reached are all
//! verified; reading the input rows and rendering the result are left to
//! the caller.

pub mod graph;
pub mod person;
