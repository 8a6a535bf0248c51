use bookshelf_r::bookshelf::BookshelfCircuit;
use bookshelf_r::bookshelf::CellPos;
use bookshelf_r::bookshelf::PinRef;

#[test]
fn it_works() {}

fn placed_circuit() -> BookshelfCircuit {
    // cell 0 is 2x3 at (10, 20); cell 1 is 4x5 at (-7, 3); cell 2 is a
    // 1x1 terminal at the origin; one net connects all three
    let mut ckt = BookshelfCircuit::new();
    let a = ckt.add_cell(2, 3, false);
    let b = ckt.add_cell(4, 5, false);
    let t = ckt.add_cell(1, 1, true);
    let n = ckt.add_net();
    ckt.add_pin(a, n, 1, 2);
    ckt.add_pin(b, n, 0, 0);
    ckt.add_pin(t, n, 0, 0);
    ckt.set_cell_pos(a, 10, 20);
    ckt.set_cell_pos(b, -7, 3);
    ckt
}

#[test]
fn area_is_width_times_height() {
    let ckt = placed_circuit();
    assert_eq!(ckt.cells[0].area(), 6);
    assert_eq!(ckt.cells[1].area(), 20);
}

#[test]
fn cellweights_sums_listed_cells() {
    let ckt = placed_circuit();
    assert_eq!(ckt.cellweights(&vec![0, 1]), 26);
    assert_eq!(ckt.cellweights(&vec![1, 1]), 40);
    assert_eq!(ckt.cellweights(&vec![]), 0);
}

#[test]
fn cell_area_skips_terminals() {
    let ckt = placed_circuit();
    assert_eq!(ckt.cell_area(), 26);
}

#[test]
fn pinloc_adds_offset_to_position() {
    let ckt = placed_circuit();
    let loc = ckt.pinloc(&PinRef { parent_cell: 0, index: 0 });
    assert_eq!(loc, (11, 22));
    let loc_b = ckt.pinloc(&PinRef { parent_cell: 1, index: 0 });
    assert_eq!(loc_b, (-7, 3));
}

#[test]
fn classify_cells_counts_and_flags() {
    let mut ckt = placed_circuit();
    // row height 3: cell 1 (height 5) is a macro, cell 0 is standard,
    // cell 2 is a terminal
    ckt.classify_cells(3);
    assert_eq!(ckt.num_cells, 1);
    assert_eq!(ckt.num_macros, 1);
    assert_eq!(ckt.num_terminals, 1);
    assert!(!ckt.cells[0].is_macro);
    assert!(ckt.cells[1].is_macro);
    assert!(!ckt.cells[2].is_macro);
}

#[test]
fn set_cell_center_adjusts_to_lower_left() {
    let mut ckt = placed_circuit();
    // cell 0 is 2x3: the lower-left corner sits half a width and half a
    // height (integer halves) below the requested center
    ckt.set_cell_center(0, &CellPos { x: 10, y: 10 });
    assert_eq!(ckt.cellpos[0].x, 9);
    assert_eq!(ckt.cellpos[0].y, 9);
}

#[test]
fn set_cell_centers_moves_every_listed_cell() {
    let mut ckt = placed_circuit();
    ckt.set_cell_centers(&vec![0, 1], &CellPos { x: 100, y: 100 });
    assert_eq!(ckt.cellpos[0].x, 99);
    assert_eq!(ckt.cellpos[0].y, 99);
    assert_eq!(ckt.cellpos[1].x, 98);
    assert_eq!(ckt.cellpos[1].y, 98);
    // the terminal was not listed and stays put
    assert_eq!(ckt.cellpos[2].x, 0);
    assert_eq!(ckt.cellpos[2].y, 0);
}

#[test]
fn builder_links_pins_both_ways() {
    let ckt = placed_circuit();
    // the net's references lead back to the cells' pin records
    assert_eq!(ckt.nets[0].pins.len(), 3);
    for pr in &ckt.nets[0].pins {
        let pi = &ckt.cells[pr.parent_cell].pins[pr.index];
        assert_eq!(pi.parent_cell, pr.parent_cell);
        assert_eq!(pi.parent_net, 0);
    }
}
