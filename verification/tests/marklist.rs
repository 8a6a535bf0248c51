use bookshelf_r::bookshelf::BookshelfCircuit;
use bookshelf_r::marklist::MarkList;
use bookshelf_r::bookshelf::WlCalc;

#[test]
fn mark_records_order_and_index() {
    let mut m = MarkList::new(10);
    assert_eq!(m.len, 10);
    assert!(m.list.is_empty());
    m.mark(3);
    m.mark(7);
    m.mark(3); // idempotent: a second mark changes nothing
    assert_eq!(m.list, vec![3, 7]);
    assert!(m.marked[3]);
    assert!(m.marked[7]);
    assert!(!m.marked[0]);
    assert_eq!(m.index[3], 0);
    assert_eq!(m.index[7], 1);
}

#[test]
fn clear_unmarks_everything_marked() {
    let mut m = MarkList::new(100);
    m.mark(5);
    m.mark(42);
    m.mark(99);
    m.clear();
    assert!(m.list.is_empty());
    for i in 0..100 {
        assert!(!m.marked[i]);
    }
}

#[test]
fn marking_after_clear_starts_afresh() {
    let mut m = MarkList::new(8);
    m.mark(6);
    m.mark(1);
    m.clear();
    m.mark(2);
    assert_eq!(m.list, vec![2]);
    assert_eq!(m.index[2], 0);
    assert!(m.marked[2]);
    assert!(!m.marked[6]);
    assert!(!m.marked[1]);
}

fn two_net_circuit() -> BookshelfCircuit {
    // cells a, b, c; net 0 connects a and b, net 1 connects b and c
    let mut ckt = BookshelfCircuit::new();
    let a = ckt.add_cell(2, 3, false);
    let b = ckt.add_cell(2, 3, false);
    let c = ckt.add_cell(2, 3, false);
    let n1 = ckt.add_net();
    let n2 = ckt.add_net();
    ckt.add_pin(a, n1, 0, 0);
    ckt.add_pin(b, n1, 0, 0);
    ckt.add_pin(b, n2, 0, 0);
    ckt.add_pin(c, n2, 0, 0);
    ckt
}

#[test]
fn wlcalc_marks_connected_nets() {
    let ckt = two_net_circuit();
    let mut wlc = WlCalc::new(&ckt);
    assert_eq!(wlc.marked_nets.len, 2);
    wlc.add_cells(&ckt, &vec![0]);
    assert_eq!(wlc.marked_nets.list, vec![0]);
    wlc.add_cells(&ckt, &vec![1]);
    assert_eq!(wlc.marked_nets.list, vec![0, 1]);
    wlc.clear();
    assert!(wlc.marked_nets.list.is_empty());
    assert!(!wlc.marked_nets.marked[0]);
    assert!(!wlc.marked_nets.marked[1]);
}
