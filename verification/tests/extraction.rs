use bookshelf_r::bookshelf::BookshelfCircuit;
use bookshelf_r::bookshelf::Cell;
use bookshelf_r::bookshelf::CellPos;
use bookshelf_r::bookshelf::Net;
use bookshelf_r::bookshelf::Orientation;
use bookshelf_r::bookshelf::PinInstance;
use bookshelf_r::hypergraph::BuildError;
use bookshelf_r::hypergraph::HyperParams;

/// Cells a, b, c of area 6 at x = 0, 10, 20; net 0 connects a and b,
/// net 1 connects b and c.  All pin offsets are zero.
fn abc_circuit() -> BookshelfCircuit {
    let mut ckt = BookshelfCircuit::new();
    let a = ckt.add_cell(2, 3, false);
    let b = ckt.add_cell(2, 3, false);
    let c = ckt.add_cell(2, 3, false);
    let n1 = ckt.add_net();
    let n2 = ckt.add_net();
    ckt.add_pin(a, n1, 0, 0);
    ckt.add_pin(b, n1, 0, 0);
    ckt.add_pin(b, n2, 0, 0);
    ckt.add_pin(c, n2, 0, 0);
    ckt.set_cell_pos(a, 0, 0);
    ckt.set_cell_pos(b, 10, 0);
    ckt.set_cell_pos(c, 20, 0);
    ckt
}

#[test]
fn params_defaults() {
    let ckt = abc_circuit();
    let p = HyperParams::new(&ckt);
    assert!(!p.horizontal);
    assert_eq!(p.split_point, 0);
    assert_eq!(p.partition, vec![-1, -1, -1]);
    assert_eq!(p.k, 2);
    assert!(p.term_prop);
    assert_eq!(p.passes, 1);
    assert_eq!(p.seed, 8675309);
    assert_eq!(p.edgeweight, 0);
}

#[test]
fn scenario_single_cell_with_sink_propagation() {
    let ckt = abc_circuit();
    let mut params = HyperParams::new(&ckt);
    params.split_point = 5;
    params.edgeweight = 1;
    let rep = ckt.build_graph(&vec![0], &mut params).unwrap();
    // one hyperedge: net 0, with cell a internal
    assert_eq!(rep.graph.vtxwt, vec![6, 1, 1]);
    assert_eq!(rep.graph.part, vec![-1, 0, 1]);
    // cell b sits at x = 10, past the split at 5: net 0 pulls toward SINK
    // (pseudo-vertex 2), for 2 pins total and weight 6 under mode 1
    assert_eq!(rep.graph.eptr, vec![0, 2]);
    assert_eq!(rep.graph.eind, vec![0, 2]);
    assert_eq!(rep.graph.hewt, vec![6]);
    assert!(!rep.zero_pin_net);
    assert!(!rep.degenerate_edge);
}

#[test]
fn scenario_two_cells() {
    let ckt = abc_circuit();
    let mut params = HyperParams::new(&ckt);
    params.split_point = 5;
    params.edgeweight = 1;
    let rep = ckt.build_graph(&vec![0, 1], &mut params).unwrap();
    // net 0 has both pins internal (locals 0, 1), no propagation pins;
    // net 1 has one internal pin (b, local 1) and cell c past the split
    assert_eq!(rep.graph.vtxwt, vec![6, 6, 1, 1]);
    assert_eq!(rep.graph.part, vec![-1, -1, 0, 1]);
    assert_eq!(rep.graph.eptr, vec![0, 1, 1, 3]);
    assert_eq!(rep.graph.eind, vec![0, 2, 4]);
    assert_eq!(rep.graph.hewt, vec![5, 6]);
    assert!(!rep.zero_pin_net);
    assert!(!rep.degenerate_edge);
}

#[test]
fn scenario_empty_subset_keeps_pseudo_vertices() {
    let ckt = abc_circuit();
    let mut params = HyperParams::new(&ckt);
    let rep = ckt.build_graph(&vec![], &mut params).unwrap();
    // no real vertices and no hyperedges, but with propagation enabled the
    // two pseudo-vertices are appended even for an empty subset
    assert_eq!(rep.graph.vtxwt, vec![1, 1]);
    assert_eq!(rep.graph.part, vec![0, 1]);
    assert!(rep.graph.hewt.is_empty());
    assert_eq!(rep.graph.eind, vec![0]);
    assert!(rep.graph.eptr.is_empty());
    assert!(!rep.zero_pin_net);
    assert!(!rep.degenerate_edge);
}

#[test]
fn scenario_empty_subset_without_propagation() {
    let ckt = abc_circuit();
    let mut params = HyperParams::new(&ckt);
    params.term_prop = false;
    let rep = ckt.build_graph(&vec![], &mut params).unwrap();
    assert!(rep.graph.vtxwt.is_empty());
    assert!(rep.graph.part.is_empty());
    assert!(rep.graph.hewt.is_empty());
    assert_eq!(rep.graph.eind, vec![0]);
    assert!(rep.graph.eptr.is_empty());
}

#[test]
fn weight_mode_zero_is_uniform() {
    let ckt = abc_circuit();
    let mut params = HyperParams::new(&ckt);
    params.split_point = 5;
    params.edgeweight = 0;
    let rep = ckt.build_graph(&vec![0], &mut params).unwrap();
    assert_eq!(rep.graph.hewt, vec![1]);
}

#[test]
fn weight_mode_unknown_falls_back_to_uniform() {
    let ckt = abc_circuit();
    let mut params = HyperParams::new(&ckt);
    params.split_point = 5;
    params.edgeweight = 7;
    let rep = ckt.build_graph(&vec![0], &mut params).unwrap();
    assert_eq!(rep.graph.hewt, vec![1]);
}

#[test]
fn boundary_pins_before_split_mark_source_only() {
    let ckt = abc_circuit();
    let mut params = HyperParams::new(&ckt);
    params.split_point = 100;
    params.edgeweight = 1;
    // subset {b}: boundary pins a (x = 0) and c (x = 20) both lie strictly
    // before the split, so each net pulls toward SOURCE (pseudo-vertex 1)
    // and never toward SINK (pseudo-vertex 2)
    let rep = ckt.build_graph(&vec![1], &mut params).unwrap();
    assert_eq!(rep.graph.eptr, vec![0, 1, 0, 1]);
    assert_eq!(rep.graph.eind, vec![0, 2, 4]);
    assert_eq!(rep.graph.hewt, vec![6, 6]);
    assert!(!rep.graph.eptr.contains(&2));
}

#[test]
fn boundary_pins_straddling_split_mark_both() {
    let mut ckt = abc_circuit();
    // a third net connecting all of a, b, c
    let n3 = ckt.add_net();
    ckt.add_pin(0, n3, 0, 0);
    ckt.add_pin(1, n3, 0, 0);
    ckt.add_pin(2, n3, 0, 0);
    let mut params = HyperParams::new(&ckt);
    params.split_point = 10;
    // subset {b}: for net 2 the boundary pins straddle the split —
    // a (x = 0) before it, c (x = 20) at or after it — so the net touches
    // both SOURCE and SINK
    let rep = ckt.build_graph(&vec![1], &mut params).unwrap();
    assert_eq!(rep.graph.eptr, vec![0, 1, 0, 2, 0, 1, 2]);
    assert_eq!(rep.graph.eind, vec![0, 2, 4, 7]);
}

#[test]
fn single_pin_hyperedge_is_degenerate() {
    // one cell, one net with a single pin on it: the hyperedge keeps its one
    // pin and is flagged as degenerate
    let mut ckt = BookshelfCircuit::new();
    let a = ckt.add_cell(1, 1, false);
    let n = ckt.add_net();
    ckt.add_pin(a, n, 0, 0);
    let mut params = HyperParams::new(&ckt);
    let rep = ckt.build_graph(&vec![a], &mut params).unwrap();
    assert_eq!(rep.graph.eptr, vec![0]);
    assert_eq!(rep.graph.eind, vec![0, 1]);
    assert!(rep.degenerate_edge);
    assert!(!rep.zero_pin_net);
}

#[test]
fn horizontal_split_compares_y() {
    // cells at y = 0, 10, 20 on a single column; a horizontal cut at y = 15
    // puts boundary pin a (y = 0) before the split and c (y = 20) after it
    let mut ckt = abc_circuit();
    ckt.set_cell_pos(0, 0, 0);
    ckt.set_cell_pos(1, 0, 10);
    ckt.set_cell_pos(2, 0, 20);
    let mut params = HyperParams::new(&ckt);
    params.horizontal = true;
    params.split_point = 15;
    let rep = ckt.build_graph(&vec![1], &mut params).unwrap();
    // net 0: boundary pin a below the split, toward SOURCE (id 1);
    // net 1: boundary pin c at or above it, toward SINK (id 2)
    assert_eq!(rep.graph.eptr, vec![0, 1, 0, 2]);
    assert_eq!(rep.graph.eind, vec![0, 2, 4]);
}

#[test]
fn duplicate_subset_id_is_reported() {
    let ckt = abc_circuit();
    let mut params = HyperParams::new(&ckt);
    let r = ckt.build_graph(&vec![0, 2, 0], &mut params);
    assert_eq!(r.err().unwrap(), BuildError::DuplicateId { position: 2, id: 0 });
    // the scratch markers are left cleared
    assert!(params.cellmark.list.is_empty());
    assert!(params.netmark.list.is_empty());
}

#[test]
fn out_of_range_subset_id_is_reported() {
    let ckt = abc_circuit();
    let mut params = HyperParams::new(&ckt);
    let r = ckt.build_graph(&vec![1, 7], &mut params);
    assert_eq!(r.err().unwrap(), BuildError::IdOutOfRange { position: 1, id: 7 });
}

#[test]
fn inconsistent_pin_lists_are_flagged() {
    // the cell's pin record names net 0, but the net's own pin list is
    // empty: the two views disagree about incidence
    let ckt = BookshelfCircuit {
        cells: vec![
            Cell {
                w: 1,
                h: 1,
                pins: vec![PinInstance { dx: 0, dy: 0, parent_cell: 0, parent_net: 0 }],
                terminal: false,
                is_macro: false,
            },
        ],
        cellpos: vec![CellPos { x: 0, y: 0 }],
        orient: vec![Orientation { orient: 0 }],
        nets: vec![Net { pins: vec![] }],
        num_cells: 0,
        num_macros: 0,
        num_terminals: 0,
    };
    let mut params = HyperParams::new(&ckt);
    let rep = ckt.build_graph(&vec![0], &mut params).unwrap();
    // extraction continues: the net is emitted, with no pins at all
    assert!(rep.zero_pin_net);
    assert!(rep.degenerate_edge);
    assert_eq!(rep.graph.hewt, vec![1]);
    assert_eq!(rep.graph.eind, vec![0, 0]);
    assert!(rep.graph.eptr.is_empty());
}

#[test]
fn context_is_reusable_across_extractions() {
    let ckt = abc_circuit();
    let mut params = HyperParams::new(&ckt);
    params.term_prop = false;
    let first = ckt.build_graph(&vec![0], &mut params).unwrap();
    assert_eq!(first.graph.vtxwt, vec![6]);
    // the second call clears the markers and starts over
    let second = ckt.build_graph(&vec![1, 2], &mut params).unwrap();
    assert_eq!(second.graph.vtxwt, vec![6, 6]);
    assert_eq!(second.graph.eptr, vec![0, 0, 1]);
    assert_eq!(second.graph.eind, vec![0, 1, 3]);
    assert_eq!(second.graph.hewt, vec![1, 1]);
}

#[test]
fn marker_order_after_extraction() {
    let ckt = abc_circuit();
    let mut params = HyperParams::new(&ckt);
    let rep = ckt.build_graph(&vec![2, 0], &mut params);
    assert!(rep.is_ok());
    // cells in subset order; nets in order of first discovery: cell c
    // touches net 1 first, then cell a touches net 0
    assert_eq!(params.cellmark.list, vec![2, 0]);
    assert_eq!(params.netmark.list, vec![1, 0]);
}
