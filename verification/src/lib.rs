//! Circuit netlist modelling and hypergraph extraction.
//!
//! A `BookshelfCircuit` holds cells, nets, and pins of a placed circuit
//! design.  For a caller-chosen subset of cells, `build_graph` extracts a
//! compact hypergraph in CSR layout, classifying nets that leave the subset
//! by terminal propagation.  The `MarkList` structure supplies the sparse
//! marking that keeps extraction linear in the size of the subset.

pub mod bookshelf;
pub mod hypergraph;
pub mod marklist;
