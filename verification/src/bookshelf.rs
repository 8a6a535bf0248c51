//! The circuit model: cells, nets, pins, and cell positions.
//!
//! A `BookshelfCircuit` holds the cells and nets of a circuit design.  Pins
//! are dual-indexed and never duplicated: the pin record itself (offset and
//! parent links) lives in the owning cell's pin list, and the owning net
//! refers to it by a `PinRef` naming the cell and the slot within that
//! cell's list.  Cell positions are kept apart from the cells, in a parallel
//! array, because they change far more often than cell shapes.
//!
//! The model is grown through the builder methods `add_cell`, `add_net` and
//! `add_pin`, which keep the two pin views consistent with each other; a
//! parsing front end turns circuit description files into these calls.

use vstd::prelude::*;

use crate::marklist::MarkList;
use crate::marklist::mark_seq;

verus! {

/// A pin as stored on its owning cell: an offset `(dx, dy)` from the cell's
/// lower-left corner and links to the owning cell and owning net.
#[derive(Clone, Copy, PartialEq, Eq, Structural, Debug)]
pub struct PinInstance {
    pub dx: i32,
    pub dy: i32,
    pub parent_cell: usize,
    pub parent_net: usize,
}

/// A pin as referenced from its owning net: the owning cell and the slot of
/// the pin within that cell's pin list.
#[derive(Clone, Copy, PartialEq, Eq, Structural, Debug)]
pub struct PinRef {
    pub parent_cell: usize,
    pub index: usize,
}

/// Placement orientation code of a cell.
#[derive(Clone, Copy, PartialEq, Eq, Structural, Debug)]
pub struct Orientation {
    pub orient: u8,
}

/// The position of a cell's lower-left corner.
#[derive(Clone, Copy, PartialEq, Eq, Structural, Debug)]
pub struct CellPos {
    pub x: i32,
    pub y: i32,
}

/// A circuit cell: shape, owned pins, and classification flags.
pub struct Cell {
    pub w: u32,
    pub h: u32,
    pub pins: Vec<PinInstance>,
    pub terminal: bool,
    pub is_macro: bool,
}

impl Cell {
    /// The cell's area.
    pub open spec fn area_spec(&self) -> int {
        self.w * self.h
    }

    /// Computes the cell's area, width times height.
    pub fn area(&self) -> (r: u64)
        ensures
            r == self.area_spec(),
    {
        proof {
            assert(self.w * self.h <= (u32::MAX as int) * (u32::MAX as int)) by (nonlinear_arith)
                requires
                    self.w <= u32::MAX,
                    self.h <= u32::MAX,
            ;
        }
        (self.w as u64) * (self.h as u64)
    }
}

/// A net: the ordered list of references to its pins.
pub struct Net {
    pub pins: Vec<PinRef>,
}

/// How many of the cells are terminals.
pub open spec fn count_terminals(cs: Seq<Cell>) -> int
    decreases cs.len(),
{
    if cs.len() == 0 {
        0
    } else {
        count_terminals(cs.drop_last()) + if cs.last().terminal {
            1int
        } else {
            0int
        }
    }
}

/// How many of the cells are movable macros: not terminals, taller than the
/// row height.
pub open spec fn count_macros(cs: Seq<Cell>, row_height: int) -> int
    decreases cs.len(),
{
    if cs.len() == 0 {
        0
    } else {
        count_macros(cs.drop_last(), row_height) + if !cs.last().terminal && cs.last().h
            > row_height {
            1int
        } else {
            0int
        }
    }
}

/// How many of the cells are ordinary standard cells: not terminals, at most
/// the row height tall.
pub open spec fn count_core_cells(cs: Seq<Cell>, row_height: int) -> int
    decreases cs.len(),
{
    if cs.len() == 0 {
        0
    } else {
        count_core_cells(cs.drop_last(), row_height) + if !cs.last().terminal && cs.last().h
            <= row_height {
            1int
        } else {
            0int
        }
    }
}

/// Total area of the non-terminal cells.
pub open spec fn sum_core_area(cs: Seq<Cell>) -> int
    decreases cs.len(),
{
    if cs.len() == 0 {
        0
    } else {
        sum_core_area(cs.drop_last()) + if cs.last().terminal {
            0int
        } else {
            cs.last().area_spec()
        }
    }
}

/// Relates a cell before and after classification: shape, pins and terminal
/// flag unchanged; for a non-terminal cell the macro flag is set exactly when
/// the cell is taller than the row height, and a terminal keeps its flag.
pub open spec fn cell_reclassified(before: Cell, after: Cell, row_height: int) -> bool {
    &&& after.w == before.w
    &&& after.h == before.h
    &&& after.pins@ == before.pins@
    &&& after.terminal == before.terminal
    &&& after.is_macro == if before.terminal {
        before.is_macro
    } else {
        before.h > row_height
    }
}

/// Whether a pin reference names an existing pin slot.
pub open spec fn ref_ok(pr: PinRef, cells: Seq<Cell>) -> bool {
    &&& pr.parent_cell < cells.len()
    &&& pr.index < cells[pr.parent_cell as int].pins@.len()
}

/// A circuit design: cells and nets, with cell positions and orientations in
/// parallel arrays, and classification counts filled in by `classify_cells`.
pub struct BookshelfCircuit {
    pub cells: Vec<Cell>,
    pub cellpos: Vec<CellPos>,
    pub orient: Vec<Orientation>,
    pub nets: Vec<Net>,
    pub num_cells: usize,
    pub num_macros: usize,
    pub num_terminals: usize,
}

impl BookshelfCircuit {
    /// Structural well-formedness: the parallel arrays line up, every pin
    /// link is in range, every cell's area fits a 32-bit signed weight, and
    /// the cell count leaves room for two more 32-bit vertex ids (the
    /// pseudo-vertices of hypergraph extraction).
    pub open spec fn wf(&self) -> bool {
        &&& self.cellpos@.len() == self.cells@.len()
        &&& self.orient@.len() == self.cells@.len()
        &&& self.cells@.len() + 2 <= u32::MAX
        &&& forall|c: int|
            0 <= c < self.cells@.len() ==> (#[trigger] self.cells@[c]).area_spec() <= i32::MAX
        &&& forall|c: int, p: int|
            0 <= c < self.cells@.len() && 0 <= p < self.cells@[c].pins@.len() ==> (
            #[trigger] self.cells@[c].pins@[p]).parent_net < self.nets@.len()
        &&& forall|n: int, q: int|
            0 <= n < self.nets@.len() && 0 <= q < self.nets@[n].pins@.len() ==> ref_ok(
                #[trigger] self.nets@[n].pins@[q],
                self.cells@,
            )
    }

    /// The two pin views agree: every net's reference leads to a pin record
    /// that names that net and that cell, and every cell's pin record is
    /// referenced by its owning net.  `build_graph` does not assume this; it
    /// reports a net that violates it.
    pub open spec fn consistent(&self) -> bool {
        &&& forall|n: int, q: int|
            0 <= n < self.nets@.len() && 0 <= q < self.nets@[n].pins@.len() ==> {
                let pr = #[trigger] self.nets@[n].pins@[q];
                &&& ref_ok(pr, self.cells@)
                &&& self.cells@[pr.parent_cell as int].pins@[pr.index as int].parent_net == n
                &&& self.cells@[pr.parent_cell as int].pins@[pr.index as int].parent_cell
                    == pr.parent_cell
            }
        &&& forall|c: int, p: int|
            0 <= c < self.cells@.len() && 0 <= p < self.cells@[c].pins@.len() ==> {
                let pi = #[trigger] self.cells@[c].pins@[p];
                &&& pi.parent_cell == c
                &&& pi.parent_net < self.nets@.len()
                &&& self.nets@[pi.parent_net as int].pins@.contains(
                    PinRef { parent_cell: c as usize, index: p as usize },
                )
            }
    }

    /// Creates an empty circuit.
    pub fn new() -> (r: BookshelfCircuit)
        ensures
            r.wf(),
            r.consistent(),
            r.cells@.len() == 0,
            r.nets@.len() == 0,
            r.num_cells == 0,
            r.num_macros == 0,
            r.num_terminals == 0,
    {
        BookshelfCircuit {
            cells: Vec::new(),
            cellpos: Vec::new(),
            orient: Vec::new(),
            nets: Vec::new(),
            num_cells: 0,
            num_macros: 0,
            num_terminals: 0,
        }
    }

    /// Appends a cell with the given shape, at position (0, 0) with the
    /// default orientation and no pins, and returns its id.
    pub fn add_cell(&mut self, w: u32, h: u32, terminal: bool) -> (id: usize)
        requires
            old(self).wf(),
            old(self).consistent(),
            old(self).cells@.len() + 3 <= u32::MAX,
            w * h <= i32::MAX,
        ensures
            final(self).wf(),
            final(self).consistent(),
            id == old(self).cells@.len(),
            final(self).cells@.len() == old(self).cells@.len() + 1,
            forall|i: int|
                0 <= i < old(self).cells@.len() ==> final(self).cells@[i] == old(self).cells@[i],
            final(self).cells@[id as int].w == w,
            final(self).cells@[id as int].h == h,
            final(self).cells@[id as int].pins@.len() == 0,
            final(self).cells@[id as int].terminal == terminal,
            final(self).cells@[id as int].is_macro == false,
            final(self).cellpos@ == old(self).cellpos@.push((CellPos { x: 0, y: 0 })),
            final(self).orient@ == old(self).orient@.push((Orientation { orient: 0 })),
            final(self).nets@ == old(self).nets@,
            final(self).num_cells == old(self).num_cells,
            final(self).num_macros == old(self).num_macros,
            final(self).num_terminals == old(self).num_terminals,
    {
        let id = self.cells.len();
        self.cells.push(
            Cell { w: w, h: h, pins: Vec::new(), terminal: terminal, is_macro: false },
        );
        self.cellpos.push(CellPos { x: 0, y: 0 });
        self.orient.push(Orientation { orient: 0 });
        proof {
            assert forall|n: int, q: int|
                0 <= n < self.nets@.len() && 0 <= q < self.nets@[n].pins@.len() implies ref_ok(
                #[trigger] self.nets@[n].pins@[q],
                self.cells@,
            ) by {
                assert(ref_ok(old(self).nets@[n].pins@[q], old(self).cells@));
            }
        }
        id
    }

    /// Appends an empty net and returns its id.
    pub fn add_net(&mut self) -> (id: usize)
        requires
            old(self).wf(),
            old(self).consistent(),
        ensures
            final(self).wf(),
            final(self).consistent(),
            id == old(self).nets@.len(),
            final(self).nets@.len() == old(self).nets@.len() + 1,
            forall|i: int|
                0 <= i < old(self).nets@.len() ==> final(self).nets@[i] == old(self).nets@[i],
            final(self).nets@[id as int].pins@.len() == 0,
            final(self).cells@ == old(self).cells@,
            final(self).cellpos@ == old(self).cellpos@,
            final(self).orient@ == old(self).orient@,
            final(self).num_cells == old(self).num_cells,
            final(self).num_macros == old(self).num_macros,
            final(self).num_terminals == old(self).num_terminals,
    {
        let id = self.nets.len();
        self.nets.push(Net { pins: Vec::new() });
        id
    }

    /// Attaches a new pin to cell `cell` and net `net`, with offset
    /// `(dx, dy)` from the cell's lower-left corner.  The pin record goes to
    /// the cell's pin list and the net receives a reference to that slot, so
    /// the two views stay consistent.
    pub fn add_pin(&mut self, cell: usize, net: usize, dx: i32, dy: i32)
        requires
            old(self).wf(),
            old(self).consistent(),
            cell < old(self).cells@.len(),
            net < old(self).nets@.len(),
        ensures
            final(self).wf(),
            final(self).consistent(),
            final(self).cells@.len() == old(self).cells@.len(),
            final(self).nets@.len() == old(self).nets@.len(),
            forall|i: int|
                0 <= i < old(self).cells@.len() && i != cell ==> final(self).cells@[i] == old(
                    self,
                ).cells@[i],
            forall|i: int|
                0 <= i < old(self).nets@.len() && i != net ==> final(self).nets@[i] == old(
                    self,
                ).nets@[i],
            final(self).cells@[cell as int].w == old(self).cells@[cell as int].w,
            final(self).cells@[cell as int].h == old(self).cells@[cell as int].h,
            final(self).cells@[cell as int].terminal == old(self).cells@[cell as int].terminal,
            final(self).cells@[cell as int].is_macro == old(self).cells@[cell as int].is_macro,
            final(self).cells@[cell as int].pins@ == old(self).cells@[cell as int].pins@.push(
                (PinInstance { dx: dx, dy: dy, parent_cell: cell, parent_net: net }),
            ),
            final(self).nets@[net as int].pins@.len() == old(self).nets@[net as int].pins@.len()
                + 1,
            forall|q: int|
                0 <= q < old(self).nets@[net as int].pins@.len() ==> final(self).nets@[
                    net as int
                ].pins@[q] == old(self).nets@[net as int].pins@[q],
            final(self).nets@[net as int].pins@.last().parent_cell == cell,
            final(self).nets@[net as int].pins@.last().index == old(self).cells@[
                cell as int
            ].pins@.len(),
            final(self).cellpos@ == old(self).cellpos@,
            final(self).orient@ == old(self).orient@,
            final(self).num_cells == old(self).num_cells,
            final(self).num_macros == old(self).num_macros,
            final(self).num_terminals == old(self).num_terminals,
    {
        broadcast use vstd::seq_lib::group_seq_properties;

        let slot = self.cells[cell].pins.len();
        let mut c = self.cells.remove(cell);
        c.pins.push(PinInstance { dx: dx, dy: dy, parent_cell: cell, parent_net: net });
        self.cells.insert(cell, c);
        proof {
            assert(self.cells@ =~= old(self).cells@.update(
                cell as int,
                self.cells@[cell as int],
            ));
        }
        let mut n = self.nets.remove(net);
        n.pins.push(PinRef { parent_cell: cell, index: slot });
        self.nets.insert(net, n);
        proof {
            assert(self.nets@ =~= old(self).nets@.update(net as int, self.nets@[net as int]));
            assert(self.cells@[cell as int].pins@ == old(self).cells@[cell as int].pins@.push(
                PinInstance { dx: dx, dy: dy, parent_cell: cell, parent_net: net },
            ));
            assert(self.nets@[net as int].pins@ == old(self).nets@[net as int].pins@.push(
                PinRef { parent_cell: cell, index: slot },
            ));
            self.lemma_add_pin_preserves(old(self), cell, net, slot, dx, dy);
        }
    }

    /// The absolute x coordinate of a pin: its cell's position plus the pin
    /// offset.
    pub open spec fn pin_x(&self, pr: PinRef) -> int {
        self.cellpos@[pr.parent_cell as int].x + self.cells@[pr.parent_cell as int].pins@[
            pr.index as int
        ].dx
    }

    /// The absolute y coordinate of a pin.
    pub open spec fn pin_y(&self, pr: PinRef) -> int {
        self.cellpos@[pr.parent_cell as int].y + self.cells@[pr.parent_cell as int].pins@[
            pr.index as int
        ].dy
    }

    /// Computes the absolute location of the pin that `pr` references.
    pub fn pinloc(&self, pr: &PinRef) -> (loc: (i64, i64))
        requires
            self.wf(),
            ref_ok(*pr, self.cells@),
        ensures
            loc.0 == self.pin_x(*pr),
            loc.1 == self.pin_y(*pr),
    {
        let px = self.cellpos[pr.parent_cell].x as i64 + self.cells[pr.parent_cell].pins[
            pr.index
        ].dx as i64;
        let py = self.cellpos[pr.parent_cell].y as i64 + self.cells[pr.parent_cell].pins[
            pr.index
        ].dy as i64;
        (px, py)
    }

    /// Sum of the areas of the cells named by `ids`.
    pub open spec fn sum_areas(&self, ids: Seq<usize>) -> int
        decreases ids.len(),
    {
        if ids.len() == 0 {
            0
        } else {
            self.sum_areas(ids.drop_last()) + self.cells@[ids.last() as int].area_spec()
        }
    }

    /// Computes the total area of the listed cells.
    pub fn cellweights(&self, cells: &Vec<usize>) -> (total: u64)
        requires
            self.wf(),
            forall|i: int| 0 <= i < cells@.len() ==> (#[trigger] cells@[i]) < self.cells@.len(),
            cells@.len() <= 0x1_0000_0000,
        ensures
            total == self.sum_areas(cells@),
    {
        let mut total: u64 = 0;
        let mut i: usize = 0;
        while i < cells.len()
            invariant
                self.wf(),
                forall|j: int|
                    0 <= j < cells@.len() ==> (#[trigger] cells@[j]) < self.cells@.len(),
                cells@.len() <= 0x1_0000_0000,
                i <= cells@.len(),
                total == self.sum_areas(cells@.subrange(0, i as int)),
                total <= i * 0x7fff_ffffu64,
            decreases cells@.len() - i,
        {
            let cid = cells[i];
            let a = self.cells[cid].area();
            proof {
                assert(self.cells@[cid as int].area_spec() <= i32::MAX);
                assert(total + a <= 0x1_0000_0000i64 * 0x7fff_ffffi64 + 0x7fff_ffffi64)
                    by (nonlinear_arith)
                    requires
                        total <= i * 0x7fff_ffffu64,
                        i <= 0x1_0000_0000,
                        a <= 0x7fff_ffff,
                ;
                assert(cells@.subrange(0, i + 1).drop_last() =~= cells@.subrange(0, i as int));
                assert(cells@.subrange(0, i + 1).last() == cells@[i as int]);
            }
            total = total + a;
            i = i + 1;
        }
        proof {
            assert(cells@.subrange(0, cells@.len() as int) =~= cells@);
        }
        total
    }

    /// Computes the total area of the non-terminal cells.
    pub fn cell_area(&self) -> (r: u64)
        requires
            self.wf(),
        ensures
            r == sum_core_area(self.cells@),
    {
        let mut total: u64 = 0;
        let mut i: usize = 0;
        while i < self.cells.len()
            invariant
                self.wf(),
                i <= self.cells@.len(),
                total == sum_core_area(self.cells@.subrange(0, i as int)),
                total <= i * 0x7fff_ffffu64,
            decreases self.cells@.len() - i,
        {
            proof {
                assert(self.cells@[i as int].area_spec() <= i32::MAX);
                assert(total + 0x7fff_ffffu64 <= 0x1_0000_0000i64 * 0x7fff_ffffi64
                    + 0x7fff_ffffi64) by (nonlinear_arith)
                    requires
                        total <= i * 0x7fff_ffffu64,
                        i <= 0x1_0000_0000,
                ;
                assert(self.cells@.subrange(0, i + 1).drop_last() =~= self.cells@.subrange(
                    0,
                    i as int,
                ));
                assert(self.cells@.subrange(0, i + 1).last() == self.cells@[i as int]);
            }
            if !self.cells[i].terminal {
                let a = self.cells[i].area();
                total = total + a;
            }
            i = i + 1;
        }
        proof {
            assert(self.cells@.subrange(0, self.cells@.len() as int) =~= self.cells@);
        }
        total
    }

    /// Classifies every cell against the row height — terminals, macros
    /// (taller than a row), and standard cells — setting the macro flag of
    /// each non-terminal cell and recording the three counts.
    pub fn classify_cells(&mut self, row_height: u32)
        requires
            old(self).wf(),
        ensures
            final(self).wf(),
            old(self).consistent() ==> final(self).consistent(),
            final(self).cells@.len() == old(self).cells@.len(),
            final(self).nets@ == old(self).nets@,
            final(self).cellpos@ == old(self).cellpos@,
            final(self).orient@ == old(self).orient@,
            forall|i: int|
                0 <= i < old(self).cells@.len() ==> cell_reclassified(
                    old(self).cells@[i],
                    #[trigger] final(self).cells@[i],
                    row_height as int,
                ),
            final(self).num_terminals == count_terminals(old(self).cells@),
            final(self).num_macros == count_macros(old(self).cells@, row_height as int),
            final(self).num_cells == count_core_cells(old(self).cells@, row_height as int),
    {
        let ghost orig = *old(self);
        let mut nt: usize = 0;
        let mut nm: usize = 0;
        let mut nc: usize = 0;
        let mut i: usize = 0;
        while i < self.cells.len()
            invariant
                orig.wf(),
                self.cells@.len() == orig.cells@.len(),
                self.nets@ == orig.nets@,
                self.cellpos@ == orig.cellpos@,
                self.orient@ == orig.orient@,
                self.num_cells == orig.num_cells,
                self.num_macros == orig.num_macros,
                self.num_terminals == orig.num_terminals,
                i <= self.cells@.len(),
                forall|j: int|
                    0 <= j < i ==> cell_reclassified(
                        orig.cells@[j],
                        #[trigger] self.cells@[j],
                        row_height as int,
                    ),
                forall|j: int|
                    i <= j < self.cells@.len() ==> #[trigger] self.cells@[j] == orig.cells@[j],
                nt == count_terminals(orig.cells@.subrange(0, i as int)),
                nm == count_macros(orig.cells@.subrange(0, i as int), row_height as int),
                nc == count_core_cells(orig.cells@.subrange(0, i as int), row_height as int),
                nt <= i,
                nm <= i,
                nc <= i,
            decreases self.cells@.len() - i,
        {
            proof {
                assert(orig.cells@.subrange(0, i + 1).drop_last() =~= orig.cells@.subrange(
                    0,
                    i as int,
                ));
                assert(orig.cells@.subrange(0, i + 1).last() == orig.cells@[i as int]);
            }
            let prev_cells = Ghost(self.cells@);
            let mut c = self.cells.remove(i);
            if c.terminal {
                nt = nt + 1;
            } else if c.h > row_height {
                nm = nm + 1;
                c.is_macro = true;
            } else {
                nc = nc + 1;
                c.is_macro = false;
            }
            self.cells.insert(i, c);
            proof {
                assert(self.cells@ =~= prev_cells@.update(i as int, self.cells@[i as int]));
            }
            i = i + 1;
        }
        self.num_terminals = nt;
        self.num_macros = nm;
        self.num_cells = nc;
        proof {
            assert(orig.cells@.subrange(0, orig.cells@.len() as int) =~= orig.cells@);
            self.lemma_reclassified_preserves(&orig, row_height);
        }
    }

    /// Reclassifying macro flags disturbs neither well-formedness nor the
    /// agreement of the two pin views.
    proof fn lemma_reclassified_preserves(&self, prev: &BookshelfCircuit, row_height: u32)
        requires
            prev.wf(),
            self.cells@.len() == prev.cells@.len(),
            self.nets@ == prev.nets@,
            self.cellpos@ == prev.cellpos@,
            self.orient@ == prev.orient@,
            forall|i: int|
                0 <= i < prev.cells@.len() ==> cell_reclassified(
                    prev.cells@[i],
                    #[trigger] self.cells@[i],
                    row_height as int,
                ),
        ensures
            self.wf(),
            prev.consistent() ==> self.consistent(),
    {
        assert forall|c: int|
            0 <= c < self.cells@.len() implies (#[trigger] self.cells@[c]).area_spec()
            <= i32::MAX by {
            assert(cell_reclassified(prev.cells@[c], self.cells@[c], row_height as int));
            assert(prev.cells@[c].area_spec() <= i32::MAX);
        }
        assert forall|c: int, p: int|
            0 <= c < self.cells@.len() && 0 <= p < self.cells@[c].pins@.len() implies (
        #[trigger] self.cells@[c].pins@[p]).parent_net < self.nets@.len() by {
            assert(cell_reclassified(prev.cells@[c], self.cells@[c], row_height as int));
            assert(prev.cells@[c].pins@[p].parent_net < prev.nets@.len());
        }
        assert forall|n: int, q: int|
            0 <= n < self.nets@.len() && 0 <= q < self.nets@[n].pins@.len() implies ref_ok(
            #[trigger] self.nets@[n].pins@[q],
            self.cells@,
        ) by {
            let pr = self.nets@[n].pins@[q];
            assert(ref_ok(pr, prev.cells@));
            assert(cell_reclassified(
                prev.cells@[pr.parent_cell as int],
                self.cells@[pr.parent_cell as int],
                row_height as int,
            ));
        }
        if prev.consistent() {
            assert forall|n: int, q: int|
                0 <= n < self.nets@.len() && 0 <= q < self.nets@[n].pins@.len() implies {
                let pr = #[trigger] self.nets@[n].pins@[q];
                &&& ref_ok(pr, self.cells@)
                &&& self.cells@[pr.parent_cell as int].pins@[pr.index as int].parent_net == n
                &&& self.cells@[pr.parent_cell as int].pins@[pr.index as int].parent_cell
                    == pr.parent_cell
            } by {
                let pr = self.nets@[n].pins@[q];
                assert(ref_ok(pr, prev.cells@));
                assert(cell_reclassified(
                    prev.cells@[pr.parent_cell as int],
                    self.cells@[pr.parent_cell as int],
                    row_height as int,
                ));
            }
            assert forall|c: int, p: int|
                0 <= c < self.cells@.len() && 0 <= p < self.cells@[c].pins@.len() implies {
                let pi = #[trigger] self.cells@[c].pins@[p];
                &&& pi.parent_cell == c
                &&& pi.parent_net < self.nets@.len()
                &&& self.nets@[pi.parent_net as int].pins@.contains(
                    PinRef { parent_cell: c as usize, index: p as usize },
                )
            } by {
                assert(cell_reclassified(prev.cells@[c], self.cells@[c], row_height as int));
                assert(prev.cells@[c].pins@[p].parent_cell == c);
            }
        }
    }

    /// Overwrites the position of cell `cid`.
    pub fn set_cell_pos(&mut self, cid: usize, x: i32, y: i32)
        requires
            old(self).wf(),
            cid < old(self).cells@.len(),
        ensures
            final(self).wf(),
            final(self).cells@ == old(self).cells@,
            final(self).nets@ == old(self).nets@,
            final(self).orient@ == old(self).orient@,
            final(self).cellpos@ == old(self).cellpos@.update(cid as int, (CellPos { x: x, y: y })),
            final(self).num_cells == old(self).num_cells,
            final(self).num_macros == old(self).num_macros,
            final(self).num_terminals == old(self).num_terminals,
    {
        self.cellpos.set(cid, CellPos { x: x, y: y });
    }

    /// Moves cell `cid` so that `loc` becomes its center: the stored
    /// lower-left position is the center less half the width and height.
    pub fn set_cell_center(&mut self, cid: usize, loc: &CellPos)
        requires
            old(self).wf(),
            cid < old(self).cells@.len(),
            i32::MIN <= loc.x - old(self).cells@[cid as int].w / 2,
            i32::MIN <= loc.y - old(self).cells@[cid as int].h / 2,
        ensures
            final(self).wf(),
            final(self).cells@ == old(self).cells@,
            final(self).nets@ == old(self).nets@,
            final(self).orient@ == old(self).orient@,
            final(self).cellpos@.len() == old(self).cellpos@.len(),
            forall|j: int|
                0 <= j < old(self).cellpos@.len() && j != cid ==> final(self).cellpos@[j] == old(
                    self,
                ).cellpos@[j],
            final(self).cellpos@[cid as int].x == loc.x - old(self).cells@[cid as int].w / 2,
            final(self).cellpos@[cid as int].y == loc.y - old(self).cells@[cid as int].h / 2,
            final(self).num_cells == old(self).num_cells,
            final(self).num_macros == old(self).num_macros,
            final(self).num_terminals == old(self).num_terminals,
    {
        let nx = loc.x as i64 - (self.cells[cid].w / 2) as i64;
        let ny = loc.y as i64 - (self.cells[cid].h / 2) as i64;
        self.cellpos.set(cid, CellPos { x: nx as i32, y: ny as i32 });
    }

    /// Moves every listed cell so that `loc` becomes its center.
    pub fn set_cell_centers(&mut self, cells: &Vec<usize>, loc: &CellPos)
        requires
            old(self).wf(),
            forall|i: int|
                0 <= i < cells@.len() ==> (#[trigger] cells@[i]) < old(self).cells@.len(),
            forall|i: int|
                0 <= i < cells@.len() ==> i32::MIN <= loc.x - old(self).cells@[
                    #[trigger] cells@[i] as int
                ].w / 2,
            forall|i: int|
                0 <= i < cells@.len() ==> i32::MIN <= loc.y - old(self).cells@[
                    #[trigger] cells@[i] as int
                ].h / 2,
        ensures
            final(self).wf(),
            final(self).cells@ == old(self).cells@,
            final(self).nets@ == old(self).nets@,
            final(self).orient@ == old(self).orient@,
            final(self).cellpos@.len() == old(self).cellpos@.len(),
            forall|j: int|
                0 <= j < old(self).cellpos@.len() && !cells@.contains(j as usize)
                    ==> final(self).cellpos@[j] == old(self).cellpos@[j],
            forall|j: int|
                0 <= j < old(self).cellpos@.len() && cells@.contains(j as usize)
                    ==> (final(self).cellpos@[j].x == loc.x - old(self).cells@[j].w / 2
                    && final(self).cellpos@[j].y == loc.y - old(self).cells@[j].h / 2),
            final(self).num_cells == old(self).num_cells,
            final(self).num_macros == old(self).num_macros,
            final(self).num_terminals == old(self).num_terminals,
    {
        let mut i: usize = 0;
        while i < cells.len()
            invariant
                self.wf(),
                self.cells@ == old(self).cells@,
                self.nets@ == old(self).nets@,
                self.orient@ == old(self).orient@,
                self.cellpos@.len() == old(self).cellpos@.len(),
                self.num_cells == old(self).num_cells,
                self.num_macros == old(self).num_macros,
                self.num_terminals == old(self).num_terminals,
                i <= cells@.len(),
                forall|k: int|
                    0 <= k < cells@.len() ==> (#[trigger] cells@[k]) < old(self).cells@.len(),
                forall|k: int|
                    0 <= k < cells@.len() ==> i32::MIN <= loc.x - old(self).cells@[
                        #[trigger] cells@[k] as int
                    ].w / 2,
                forall|k: int|
                    0 <= k < cells@.len() ==> i32::MIN <= loc.y - old(self).cells@[
                        #[trigger] cells@[k] as int
                    ].h / 2,
                forall|j: int|
                    0 <= j < old(self).cellpos@.len() && !cells@.subrange(0, i as int).contains(
                        j as usize,
                    ) ==> self.cellpos@[j] == old(self).cellpos@[j],
                forall|j: int|
                    0 <= j < old(self).cellpos@.len() && cells@.subrange(0, i as int).contains(
                        j as usize,
                    ) ==> (self.cellpos@[j].x == loc.x - old(self).cells@[j].w / 2
                        && self.cellpos@[j].y == loc.y - old(self).cells@[j].h / 2),
            decreases cells@.len() - i,
        {
            let cid = cells[i];
            self.set_cell_center(cid, loc);
            proof {
                assert forall|j: int|
                    0 <= j < old(self).cellpos@.len() && cells@.subrange(0, i + 1).contains(
                        j as usize,
                    ) implies (self.cellpos@[j].x == loc.x - old(self).cells@[j].w / 2
                    && self.cellpos@[j].y == loc.y - old(self).cells@[j].h / 2) by {
                    if j != cid {
                        let k = choose|k: int|
                            0 <= k < i + 1 && #[trigger] cells@.subrange(0, i + 1)[k]
                                == j as usize;
                        assert(cells@.subrange(0, i as int)[k] == j as usize);
                    }
                }
                assert forall|j: int|
                    0 <= j < old(self).cellpos@.len() && !cells@.subrange(0, i + 1).contains(
                        j as usize,
                    ) implies self.cellpos@[j] == old(self).cellpos@[j] by {
                    assert forall|k: int|
                        0 <= k < i implies cells@.subrange(0, i as int)[k] != j as usize by {
                        assert(cells@.subrange(0, i + 1)[k] == cells@.subrange(0, i as int)[k]);
                    }
                    assert(cells@.subrange(0, i + 1)[i as int] == cid);
                }
            }
            i = i + 1;
        }
        proof {
            assert(cells@.subrange(0, cells@.len() as int) =~= cells@);
        }
    }

    /// The nets referenced by the pins of cell `c`, one entry per pin, in
    /// pin order.
    pub open spec fn cell_net_refs(&self, c: int) -> Seq<usize> {
        self.cells@[c].pins@.map_values(|pi: PinInstance| pi.parent_net)
    }

    /// The nets referenced by the pins of the cells of `s`, cell by cell, in
    /// order.
    pub open spec fn subset_net_refs(&self, s: Seq<usize>) -> Seq<usize>
        decreases s.len(),
    {
        if s.len() == 0 {
            Seq::empty()
        } else {
            self.subset_net_refs(s.drop_last()) + self.cell_net_refs(s.last() as int)
        }
    }

    /// Marks, in `netmark`, every net with a pin on one of the listed cells.
    /// A net touched by many pins is marked once, at its first pin, so the
    /// cost is one mark per pin of the listed cells.
    pub fn mark_subset_nets(&self, cells: &Vec<usize>, netmark: &mut MarkList)
        requires
            self.wf(),
            old(netmark).wf(),
            old(netmark).len == self.nets@.len(),
            forall|i: int| 0 <= i < cells@.len() ==> (#[trigger] cells@[i]) < self.cells@.len(),
        ensures
            final(netmark).wf(),
            final(netmark).len == old(netmark).len,
            final(netmark).list@ == mark_seq(
                old(netmark).list@,
                self.subset_net_refs(cells@),
            ),
    {
        let ghost l0 = old(netmark).list@;
        let mut i: usize = 0;
        while i < cells.len()
            invariant
                self.wf(),
                netmark.wf(),
                netmark.len == self.nets@.len(),
                forall|k: int|
                    0 <= k < cells@.len() ==> (#[trigger] cells@[k]) < self.cells@.len(),
                i <= cells@.len(),
                netmark.list@ == mark_seq(l0, self.subset_net_refs(cells@.subrange(0, i as int))),
            decreases cells@.len() - i,
        {
            let cid = cells[i];
            let ghost pre = self.subset_net_refs(cells@.subrange(0, i as int));
            let mut j: usize = 0;
            while j < self.cells[cid].pins.len()
                invariant
                    self.wf(),
                    netmark.wf(),
                    netmark.len == self.nets@.len(),
                    cid < self.cells@.len(),
                    j <= self.cells@[cid as int].pins@.len(),
                    netmark.list@ == mark_seq(
                        l0,
                        pre + self.cells@[cid as int].pins@.subrange(0, j as int).map_values(
                            |pi: PinInstance| pi.parent_net,
                        ),
                    ),
                decreases self.cells@[cid as int].pins@.len() - j,
            {
                let net_id = self.cells[cid].pins[j].parent_net;
                proof {
                    assert(self.cells@[cid as int].pins@[j as int].parent_net < self.nets@.len());
                    let f = |pi: PinInstance| pi.parent_net;
                    let bj = self.cells@[cid as int].pins@.subrange(0, j as int).map_values(f);
                    let bj1 = self.cells@[cid as int].pins@.subrange(0, j + 1).map_values(f);
                    assert(bj1 =~= bj.push(net_id));
                    assert(pre + bj.push(net_id) =~= (pre + bj).push(net_id));
                    crate::marklist::lemma_mark_seq_push(l0, pre + bj, net_id);
                }
                netmark.mark(net_id);
                j = j + 1;
            }
            proof {
                let f = |pi: PinInstance| pi.parent_net;
                let pins = self.cells@[cid as int].pins@;
                assert(pins.subrange(0, pins.len() as int) =~= pins);
                assert(pins.subrange(0, j as int).map_values(f) == self.cell_net_refs(
                    cid as int,
                ));
                assert(cells@.subrange(0, i + 1).drop_last() =~= cells@.subrange(0, i as int));
                assert(cells@.subrange(0, i + 1).last() == cells@[i as int]);
                assert(self.subset_net_refs(cells@.subrange(0, i + 1)) == pre
                    + self.cell_net_refs(cid as int));
            }
            i = i + 1;
        }
        proof {
            assert(cells@.subrange(0, cells@.len() as int) =~= cells@);
        }
    }

    /// The well-formedness and consistency argument for `add_pin`, stated
    /// over the old and new model values.
    proof fn lemma_add_pin_preserves(
        &self,
        prev: &BookshelfCircuit,
        cell: usize,
        net: usize,
        slot: usize,
        dx: i32,
        dy: i32,
    )
        requires
            prev.wf(),
            prev.consistent(),
            cell < prev.cells@.len(),
            net < prev.nets@.len(),
            slot == prev.cells@[cell as int].pins@.len(),
            self.cells@.len() == prev.cells@.len(),
            self.nets@.len() == prev.nets@.len(),
            forall|i: int|
                0 <= i < prev.cells@.len() && i != cell ==> self.cells@[i] == prev.cells@[i],
            forall|i: int|
                0 <= i < prev.nets@.len() && i != net ==> self.nets@[i] == prev.nets@[i],
            self.cells@[cell as int].w == prev.cells@[cell as int].w,
            self.cells@[cell as int].h == prev.cells@[cell as int].h,
            self.cells@[cell as int].terminal == prev.cells@[cell as int].terminal,
            self.cells@[cell as int].is_macro == prev.cells@[cell as int].is_macro,
            self.cells@[cell as int].pins@ == prev.cells@[cell as int].pins@.push(
                PinInstance { dx: dx, dy: dy, parent_cell: cell, parent_net: net },
            ),
            self.nets@[net as int].pins@ == prev.nets@[net as int].pins@.push(
                PinRef { parent_cell: cell, index: slot },
            ),
            self.cellpos@ == prev.cellpos@,
            self.orient@ == prev.orient@,
        ensures
            self.wf(),
            self.consistent(),
    {
        broadcast use vstd::seq_lib::group_seq_properties;

        let newpin = PinInstance { dx: dx, dy: dy, parent_cell: cell, parent_net: net };
        let newref = PinRef { parent_cell: cell, index: slot };
        assert forall|c: int|
            0 <= c < self.cells@.len() implies (#[trigger] self.cells@[c]).area_spec()
            <= i32::MAX by {
            assert(prev.cells@[c].area_spec() <= i32::MAX);
        }
        assert forall|c: int, p: int|
            0 <= c < self.cells@.len() && 0 <= p < self.cells@[c].pins@.len() implies (
        #[trigger] self.cells@[c].pins@[p]).parent_net < self.nets@.len() by {
            if c == cell && p == slot {
            } else {
                assert(self.cells@[c].pins@[p] == prev.cells@[c].pins@[p]);
                assert(prev.cells@[c].pins@[p].parent_net < prev.nets@.len());
            }
        }
        assert forall|n: int, q: int|
            0 <= n < self.nets@.len() && 0 <= q < self.nets@[n].pins@.len() implies ref_ok(
            #[trigger] self.nets@[n].pins@[q],
            self.cells@,
        ) by {
            if n == net && q == self.nets@[n].pins@.len() - 1 {
                assert(self.nets@[n].pins@[q] == newref);
            } else {
                assert(self.nets@[n].pins@[q] == prev.nets@[n].pins@[q]);
                assert(ref_ok(prev.nets@[n].pins@[q], prev.cells@));
            }
        }
        assert forall|n: int, q: int|
            0 <= n < self.nets@.len() && 0 <= q < self.nets@[n].pins@.len() implies {
            let pr = #[trigger] self.nets@[n].pins@[q];
            &&& ref_ok(pr, self.cells@)
            &&& self.cells@[pr.parent_cell as int].pins@[pr.index as int].parent_net == n
            &&& self.cells@[pr.parent_cell as int].pins@[pr.index as int].parent_cell
                == pr.parent_cell
        } by {
            let pr = self.nets@[n].pins@[q];
            if n == net && q == self.nets@[n].pins@.len() - 1 {
                assert(pr == newref);
                assert(self.cells@[cell as int].pins@[slot as int] == newpin);
            } else {
                assert(pr == prev.nets@[n].pins@[q]);
                assert(ref_ok(pr, prev.cells@));
                assert(prev.cells@[pr.parent_cell as int].pins@[pr.index as int].parent_net == n);
                if pr.parent_cell == cell {
                    assert(self.cells@[pr.parent_cell as int].pins@[pr.index as int]
                        == prev.cells@[pr.parent_cell as int].pins@[pr.index as int]);
                }
            }
        }
        assert forall|c: int, p: int|
            0 <= c < self.cells@.len() && 0 <= p < self.cells@[c].pins@.len() implies {
            let pi = #[trigger] self.cells@[c].pins@[p];
            &&& pi.parent_cell == c
            &&& pi.parent_net < self.nets@.len()
            &&& self.nets@[pi.parent_net as int].pins@.contains(
                PinRef { parent_cell: c as usize, index: p as usize },
            )
        } by {
            let pi = self.cells@[c].pins@[p];
            if c == cell && p == slot {
                assert(pi == newpin);
                assert(self.nets@[net as int].pins@[self.nets@[net as int].pins@.len() - 1]
                    == newref);
                assert(self.nets@[net as int].pins@.contains(newref));
            } else {
                assert(pi == prev.cells@[c].pins@[p]);
                let oldref = PinRef { parent_cell: c as usize, index: p as usize };
                assert(prev.nets@[pi.parent_net as int].pins@.contains(oldref));
                if pi.parent_net == net {
                    assert(self.nets@[net as int].pins@.contains(oldref));
                } else {
                    assert(self.nets@[pi.parent_net as int].pins@ == prev.nets@[pi.parent_net
                        as int].pins@);
                }
            }
        }
    }
}

/// A reusable scratch context for wirelength queries: the set of nets
/// touched by a growing collection of cells.
pub struct WlCalc {
    pub marked_nets: MarkList,
}

impl WlCalc {
    /// A wirelength scratch context sized to the circuit's net count.
    pub fn new(bc: &BookshelfCircuit) -> (r: WlCalc)
        ensures
            r.marked_nets.wf(),
            r.marked_nets.len == bc.nets@.len(),
            r.marked_nets.list@.len() == 0,
    {
        WlCalc { marked_nets: MarkList::new(bc.nets.len()) }
    }

    /// Marks every net touched by a pin of one of the listed cells; the
    /// marked set accumulates across calls until `clear`.
    pub fn add_cells(&mut self, bc: &BookshelfCircuit, cells: &Vec<usize>)
        requires
            bc.wf(),
            old(self).marked_nets.wf(),
            old(self).marked_nets.len == bc.nets@.len(),
            forall|i: int| 0 <= i < cells@.len() ==> (#[trigger] cells@[i]) < bc.cells@.len(),
        ensures
            final(self).marked_nets.wf(),
            final(self).marked_nets.len == old(self).marked_nets.len,
            final(self).marked_nets.list@ == mark_seq(
                old(self).marked_nets.list@,
                bc.subset_net_refs(cells@),
            ),
    {
        bc.mark_subset_nets(cells, &mut self.marked_nets);
    }

    /// Unmarks every net, at a cost proportional to the marked count.
    pub fn clear(&mut self)
        requires
            old(self).marked_nets.wf(),
        ensures
            final(self).marked_nets.wf(),
            final(self).marked_nets.len == old(self).marked_nets.len,
            final(self).marked_nets.list@.len() == 0,
            forall|i: usize|
                i < final(self).marked_nets.len
                    ==> !(#[trigger] final(self).marked_nets.marked@[i as int]),
    {
        self.marked_nets.clear();
    }
}

} // verus!
