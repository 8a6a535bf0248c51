//! Hypergraph extraction: for a caller-chosen subset of cells, `build_graph`
//! produces a compact hypergraph in CSR layout for a balanced-partitioning
//! engine.
//!
//! Every cell of the subset becomes a vertex, renumbered to the dense local
//! range `0 .. |S|`, weighted by its area.  Every net with a pin on the
//! subset becomes a hyperedge, discovered once through the marking structure,
//! in order of first discovery.  A hyperedge lists the local ids of its pins
//! inside the subset; with terminal propagation enabled, a net that also has
//! pins outside the subset additionally pulls toward a SOURCE or SINK
//! pseudo-vertex, depending on which side of the split coordinate its outside
//! pins sit.

use vstd::prelude::*;

use crate::bookshelf::BookshelfCircuit;
use crate::bookshelf::PinRef;
use crate::bookshelf::ref_ok;
use crate::marklist::MarkList;
use crate::marklist::mark_seq;

verus! {

/// Extraction scratch state and configuration, reused across calls: one
/// marker over the cells, one over the nets, the split geometry for terminal
/// propagation, the edge-weight mode, and pass-through tuning fields that the
/// extractor itself does not consume.
pub struct HyperParams {
    pub cellmark: MarkList,
    pub netmark: MarkList,
    /// Split axis: a horizontal cut compares y coordinates, a vertical cut
    /// compares x coordinates.
    pub horizontal: bool,
    /// The split coordinate that boundary pins are classified against.
    pub split_point: i64,
    /// Pass-through initial partition assignment, one entry per cell.
    pub partition: Vec<i32>,
    /// Pass-through: number of partitions requested from the engine.
    pub k: u32,
    /// Whether terminal propagation is performed.
    pub term_prop: bool,
    /// Pass-through: number of refinement passes requested from the engine.
    pub passes: usize,
    /// Pass-through: random seed handed to the engine.
    pub seed: usize,
    /// Edge weighting mode; any mode other than 0 and 1 falls back to the
    /// uniform weighting of mode 0.
    pub edgeweight: usize,
}

impl HyperParams {
    /// The scratch markers fit the circuit.
    pub open spec fn wf_for(&self, ckt: &BookshelfCircuit) -> bool {
        &&& self.cellmark.wf()
        &&& self.cellmark.len == ckt.cells@.len()
        &&& self.netmark.wf()
        &&& self.netmark.len == ckt.nets@.len()
    }

    /// Allocates extraction state for the circuit, with the default
    /// configuration: vertical split at 0, terminal propagation on, uniform
    /// edge weights.
    pub fn new(ckt: &BookshelfCircuit) -> (r: HyperParams)
        ensures
            r.wf_for(ckt),
            r.cellmark.list@.len() == 0,
            r.netmark.list@.len() == 0,
            r.horizontal == false,
            r.split_point == 0,
            r.partition@.len() == ckt.cells@.len(),
            forall|i: int| 0 <= i < r.partition@.len() ==> #[trigger] r.partition@[i] == -1,
            r.k == 2,
            r.term_prop == true,
            r.passes == 1,
            r.seed == 8675309,
            r.edgeweight == 0,
    {
        HyperParams {
            cellmark: MarkList::new(ckt.cells.len()),
            netmark: MarkList::new(ckt.nets.len()),
            horizontal: false,
            split_point: 0,
            partition: vec![-1i32; ckt.cells.len()],
            k: 2,
            term_prop: true,
            passes: 1,
            seed: 8675309,
            edgeweight: 0,
        }
    }
}

/// The extracted hypergraph, in the CSR layout a native partitioning
/// interface takes: vertex weights, initial partition per vertex (-1 free,
/// 0/1 fixed), hyperedge weights, the flat local-vertex-id array `eptr`, and
/// the offsets array `eind` with one entry per hyperedge plus a leading 0.
pub struct HyperGraph {
    pub vtxwt: Vec<i32>,
    pub hewt: Vec<i32>,
    pub part: Vec<i32>,
    pub eind: Vec<u64>,
    pub eptr: Vec<u32>,
}

impl HyperGraph {
    /// An empty hypergraph.
    pub fn new() -> (r: HyperGraph)
        ensures
            r.vtxwt@.len() == 0,
            r.hewt@.len() == 0,
            r.part@.len() == 0,
            r.eind@.len() == 0,
            r.eptr@.len() == 0,
    {
        HyperGraph {
            vtxwt: Vec::new(),
            hewt: Vec::new(),
            part: Vec::new(),
            eind: Vec::new(),
            eptr: Vec::new(),
        }
    }
}

/// A caller-input error of `build_graph`, reported as a hard failure.
#[derive(Clone, Copy, PartialEq, Eq, Structural, Debug)]
pub enum BuildError {
    /// The subset names a cell id at `position` that the circuit does not
    /// have.
    IdOutOfRange { position: usize, id: usize },
    /// The subset names the same cell twice; `position` is where the second
    /// occurrence sits.
    DuplicateId { position: usize, id: usize },
}

/// The outcome of a successful extraction: the hypergraph, and the two
/// diagnostic flags of the non-fatal conditions.
pub struct BuildReport {
    pub graph: HyperGraph,
    /// Internal-consistency anomaly: some discovered net ended with zero
    /// internal pins, so a cell's pin list and a net's pin list disagree
    /// about incidence.
    pub zero_pin_net: bool,
    /// Some emitted hyperedge has fewer than two pins even after terminal
    /// propagation; a downstream partitioner may misbehave on it.
    pub degenerate_edge: bool,
}

/// The `u32` pin array seen as a sequence of mathematical integers.
pub open spec fn u32_ints(v: Seq<u32>) -> Seq<int> {
    v.map_values(|x: u32| x as int)
}

/// Every id of the subset names a cell of the circuit.
pub open spec fn subset_in_range(s: Seq<usize>, bound: nat) -> bool {
    forall|i: int| 0 <= i < s.len() ==> (#[trigger] s[i]) < bound
}

/// `pos` is the first place where the subset leaves the circuit's id range.
pub open spec fn first_out_of_range(s: Seq<usize>, bound: nat, pos: int) -> bool {
    &&& 0 <= pos < s.len()
    &&& s[pos] >= bound
    &&& forall|j: int| 0 <= j < pos ==> (#[trigger] s[j]) < bound
}

/// `pos` is the first place where the subset repeats an earlier id.
pub open spec fn first_duplicate(s: Seq<usize>, pos: int) -> bool {
    &&& 0 <= pos < s.len()
    &&& s.subrange(0, pos).contains(s[pos])
    &&& forall|j: int| 0 <= j < pos ==> !(#[trigger] s.subrange(0, j)).contains(s[j])
}

/// The weight a hyperedge receives: mode 1 gives 6 to a net that touches
/// SOURCE or SINK and 5 to every other net; mode 0, and every unknown mode as
/// a documented fallback, gives 1 to every net.
pub open spec fn edge_weight(mode: usize, touches: bool) -> int {
    if mode == 1 {
        if touches {
            6int
        } else {
            5int
        }
    } else {
        1int
    }
}

/// The local vertex ids recorded for the pin references `prs`: one id per
/// reference whose cell lies in the subset `s`, in reference order, each the
/// position of its cell within `s`.
pub open spec fn internal_locals_of(prs: Seq<PinRef>, s: Seq<usize>) -> Seq<int>
    decreases prs.len(),
{
    if prs.len() == 0 {
        Seq::empty()
    } else {
        let pre = internal_locals_of(prs.drop_last(), s);
        if s.contains(prs.last().parent_cell) {
            pre.push(s.index_of(prs.last().parent_cell))
        } else {
            pre
        }
    }
}

impl BookshelfCircuit {
    /// The coordinate of a pin on the axis that the split compares: y for a
    /// horizontal cut, x for a vertical one.
    pub open spec fn boundary_coord(&self, pr: PinRef, horizontal: bool) -> int {
        if horizontal {
            self.pin_y(pr)
        } else {
            self.pin_x(pr)
        }
    }

    /// Whether net `n` has a pin outside the subset that lies strictly
    /// before the split coordinate, pulling the net toward SOURCE.
    pub open spec fn net_touches_source(
        &self,
        s: Seq<usize>,
        n: int,
        horizontal: bool,
        split: int,
    ) -> bool {
        exists|q: int|
            0 <= q < self.nets@[n].pins@.len() && !s.contains(
                (#[trigger] self.nets@[n].pins@[q]).parent_cell,
            ) && self.boundary_coord(self.nets@[n].pins@[q], horizontal) < split
    }

    /// Whether net `n` has a pin outside the subset at or after the split
    /// coordinate, pulling the net toward SINK.
    pub open spec fn net_touches_sink(
        &self,
        s: Seq<usize>,
        n: int,
        horizontal: bool,
        split: int,
    ) -> bool {
        exists|q: int|
            0 <= q < self.nets@[n].pins@.len() && !s.contains(
                (#[trigger] self.nets@[n].pins@[q]).parent_cell,
            ) && self.boundary_coord(self.nets@[n].pins@[q], horizontal) >= split
    }

    /// The nets discovered for subset `s`, in order of first discovery while
    /// walking the subset's cells and, within a cell, its pins.
    pub open spec fn discovered_nets(&self, s: Seq<usize>) -> Seq<usize> {
        mark_seq(Seq::empty(), self.subset_net_refs(s))
    }

    /// The pins emitted for the hyperedge of net `n`: the local ids of its
    /// subset pins, then the SOURCE pseudo-id `|s|` and the SINK pseudo-id
    /// `|s| + 1` as the net touches them under terminal propagation.
    pub open spec fn edge_pins(
        &self,
        s: Seq<usize>,
        n: int,
        tp: bool,
        horizontal: bool,
        split: int,
    ) -> Seq<int> {
        let base = internal_locals_of(self.nets@[n].pins@, s);
        let with_src = if tp && self.net_touches_source(s, n, horizontal, split) {
            base.push(s.len() as int)
        } else {
            base
        };
        if tp && self.net_touches_sink(s, n, horizontal, split) {
            with_src.push(s.len() as int + 1)
        } else {
            with_src
        }
    }

    /// The flat pin array of the hyperedges of `netlist`, in order.
    pub open spec fn edges_flat(
        &self,
        s: Seq<usize>,
        netlist: Seq<usize>,
        tp: bool,
        horizontal: bool,
        split: int,
    ) -> Seq<int>
        decreases netlist.len(),
    {
        if netlist.len() == 0 {
            Seq::empty()
        } else {
            self.edges_flat(s, netlist.drop_last(), tp, horizontal, split) + self.edge_pins(
                s,
                netlist.last() as int,
                tp,
                horizontal,
                split,
            )
        }
    }

    /// Some discovered net ended with no internal pin at all: its presence in
    /// a subset cell's pin list is not mirrored by its own pin list.
    pub open spec fn some_net_without_internal_pin(&self, s: Seq<usize>) -> bool {
        exists|e: int|
            0 <= e < self.discovered_nets(s).len() && internal_locals_of(
                self.nets@[(#[trigger] self.discovered_nets(s)[e]) as int].pins@,
                s,
            ).len() == 0
    }

    /// Some emitted hyperedge carries fewer than two pins after propagation.
    pub open spec fn some_degenerate_edge(
        &self,
        s: Seq<usize>,
        tp: bool,
        horizontal: bool,
        split: int,
    ) -> bool {
        exists|e: int|
            0 <= e < self.discovered_nets(s).len() && self.edge_pins(
                s,
                (#[trigger] self.discovered_nets(s)[e]) as int,
                tp,
                horizontal,
                split,
            ).len() < 2
    }

    /// The structural contract of an extracted hypergraph for subset `s`:
    /// vertex weights are the subset cells' areas in subset order, followed
    /// by the two unit-weight pseudo-vertices when propagation is on; the
    /// initial partition is free for real vertices and fixes SOURCE to side 0
    /// and SINK to side 1; hyperedges appear in discovery order with their
    /// mode's weights; `eptr` is the concatenation of the per-edge pin lists
    /// and `eind[e]` counts the pins of the first `e` hyperedges.
    pub open spec fn graph_matches(
        &self,
        s: Seq<usize>,
        tp: bool,
        horizontal: bool,
        split: int,
        mode: usize,
        hg: HyperGraph,
    ) -> bool {
        let netlist = self.discovered_nets(s);
        let nv = s.len() as int;
        &&& hg.vtxwt@.len() == nv + if tp {
            2int
        } else {
            0int
        }
        &&& forall|k: int|
            0 <= k < nv ==> #[trigger] hg.vtxwt@[k] == self.cells@[s[k] as int].area_spec()
        &&& tp ==> hg.vtxwt@[nv] == 1 && hg.vtxwt@[nv + 1] == 1
        &&& hg.part@.len() == hg.vtxwt@.len()
        &&& forall|k: int| 0 <= k < nv ==> #[trigger] hg.part@[k] == -1
        &&& tp ==> hg.part@[nv] == 0 && hg.part@[nv + 1] == 1
        &&& hg.hewt@.len() == netlist.len()
        &&& forall|e: int|
            0 <= e < netlist.len() ==> #[trigger] hg.hewt@[e] == edge_weight(
                mode,
                tp && (self.net_touches_source(s, netlist[e] as int, horizontal, split)
                    || self.net_touches_sink(s, netlist[e] as int, horizontal, split)),
            )
        &&& hg.eind@.len() == netlist.len() + 1
        &&& forall|e: int|
            0 <= e <= netlist.len() ==> #[trigger] hg.eind@[e] == self.edges_flat(
                s,
                netlist.subrange(0, e),
                tp,
                horizontal,
                split,
            ).len()
        &&& u32_ints(hg.eptr@) == self.edges_flat(s, netlist, tp, horizontal, split)
    }
}

/// Viewing a pin array as integers commutes with appending one id.
proof fn lemma_u32_ints_push(v: Seq<u32>, x: u32)
    ensures
        u32_ints(v.push(x)) == u32_ints(v).push(x as int),
{
    assert(u32_ints(v.push(x)) =~= u32_ints(v).push(x as int));
}

/// A marked item's recorded position is its index within the order list.
proof fn lemma_local_id(cm: &MarkList, pc: usize)
    requires
        cm.wf(),
        cm.list@.contains(pc),
    ensures
        0 <= cm.list@.index_of(pc) < cm.list@.len(),
        cm.list@[cm.list@.index_of(pc)] == pc,
        pc < cm.len,
        cm.index@[pc as int] == cm.list@.index_of(pc),
{
    assert(exists|i: int| 0 <= i < cm.list@.len() && cm.list@[i] == pc);
    let io = cm.list@.index_of(pc);
    assert(0 <= io < cm.list@.len() && cm.list@[io] == pc);
    assert(cm.index@[cm.list@[io] as int] == io);
}

impl BookshelfCircuit {
    /// Extracts the hypergraph of the subset `cells`.
    ///
    /// The scratch markers in `params` are cleared first, so state from any
    /// prior call is discarded.  An id out of range is reported before any
    /// state is touched; a duplicated id is reported as soon as the marking
    /// reaches it, with both markers left cleared.  On success the cell
    /// marker holds the subset and the net marker the discovered nets, in
    /// order, and the returned report carries the hypergraph together with
    /// the two non-fatal diagnostic flags.
    #[verifier::loop_isolation(false)]
    #[verifier::rlimit(100)]
    pub fn build_graph(&self, cells: &Vec<usize>, params: &mut HyperParams) -> (r: Result<
        BuildReport,
        BuildError,
    >)
        requires
            self.wf(),
            old(params).wf_for(self),
        ensures
            final(params).wf_for(self),
            final(params).horizontal == old(params).horizontal,
            final(params).split_point == old(params).split_point,
            final(params).partition@ == old(params).partition@,
            final(params).k == old(params).k,
            final(params).term_prop == old(params).term_prop,
            final(params).passes == old(params).passes,
            final(params).seed == old(params).seed,
            final(params).edgeweight == old(params).edgeweight,
            r is Ok <==> (subset_in_range(cells@, self.cells@.len() as nat)
                && cells@.no_duplicates()),
            r matches Ok(rep) ==> final(params).cellmark.list@ == cells@,
            r matches Ok(rep) ==> final(params).netmark.list@ == self.discovered_nets(cells@),
            r matches Ok(rep) ==> self.graph_matches(
                cells@,
                old(params).term_prop,
                old(params).horizontal,
                old(params).split_point as int,
                old(params).edgeweight,
                rep.graph,
            ),
            r matches Ok(rep) ==> rep.zero_pin_net == self.some_net_without_internal_pin(cells@),
            r matches Ok(rep) ==> rep.degenerate_edge == (old(params).term_prop
                && self.some_degenerate_edge(
                cells@,
                old(params).term_prop,
                old(params).horizontal,
                old(params).split_point as int,
            )),
            r matches Err(BuildError::IdOutOfRange { position, id }) ==> (first_out_of_range(
                cells@,
                self.cells@.len() as nat,
                position as int,
            ) && id == cells@[position as int] && *final(params) == *old(params)),
            r matches Err(BuildError::DuplicateId { position, id }) ==> (subset_in_range(
                cells@,
                self.cells@.len() as nat,
            ) && first_duplicate(cells@, position as int) && id == cells@[position as int]
                && final(params).cellmark.list@.len() == 0
                && final(params).netmark.list@.len() == 0),
    {
        broadcast use vstd::seq_lib::group_seq_properties;

        let ghost s = cells@;

        // Reject an out-of-range id before touching any state.
        let mut i: usize = 0;
        while i < cells.len()
            invariant
                i <= s.len(),
                forall|j: int| 0 <= j < i ==> (#[trigger] s[j]) < self.cells@.len(),
            decreases s.len() - i,
        {
            if cells[i] >= self.cells.len() {
                return Err(BuildError::IdOutOfRange { position: i, id: cells[i] });
            }
            i = i + 1;
        }

        // Discard state from any prior extraction.
        params.cellmark.clear();
        params.netmark.clear();

        // Mark the subset's cells; the marker makes a repeated id visible,
        // and a repeat is a caller error, not something to mask.
        let mut i: usize = 0;
        while i < cells.len()
            invariant
                i <= s.len(),
                params.cellmark.wf(),
                params.cellmark.len == self.cells@.len(),
                params.cellmark.list@ == s.subrange(0, i as int),
                params.netmark.wf(),
                params.netmark.len == self.nets@.len(),
                params.netmark.list@.len() == 0,
                params.horizontal == old(params).horizontal,
                params.split_point == old(params).split_point,
                params.partition@ == old(params).partition@,
                params.k == old(params).k,
                params.term_prop == old(params).term_prop,
                params.passes == old(params).passes,
                params.seed == old(params).seed,
                params.edgeweight == old(params).edgeweight,
                forall|j: int| 0 <= j < i ==> !(#[trigger] s.subrange(0, j)).contains(s[j]),
            decreases s.len() - i,
        {
            let cid = cells[i];
            if params.cellmark.marked[cid] {
                proof {
                    assert(params.cellmark.list@.contains(cid));
                    let k = choose|k: int| 0 <= k < i && s.subrange(0, i as int)[k] == cid;
                    assert(s[k] == s[i as int]);
                }
                params.cellmark.clear();
                params.netmark.clear();
                return Err(BuildError::DuplicateId { position: i, id: cid });
            }
            proof {
                assert(!s.subrange(0, i as int).contains(cid));
            }
            params.cellmark.mark(cid);
            proof {
                assert(s.subrange(0, i + 1) =~= s.subrange(0, i as int).push(cid));
            }
            i = i + 1;
        }
        proof {
            assert(s.subrange(0, s.len() as int) =~= s);
            params.cellmark.lemma_list_no_duplicates();
            params.cellmark.lemma_list_len_bound();
        }

        // Discover every net with a pin on the subset, once each.
        self.mark_subset_nets(cells, &mut params.netmark);
        let ghost netlist = self.discovered_nets(s);
        proof {
            assert(params.netmark.list@ == netlist);
            params.netmark.lemma_list_len_bound();
        }

        let tp = params.term_prop;
        let hz = params.horizontal;
        let split = params.split_point;
        let mode = params.edgeweight;
        let ne = params.netmark.list.len();
        let nv = params.cellmark.list.len();

        // Classify every discovered net: count its internal pins and, under
        // terminal propagation, test each boundary pin against the split.
        let mut sources: Vec<bool> = vec![false; ne];
        let mut sinks: Vec<bool> = vec![false; ne];
        let mut zero_pin = false;
        let mut e: usize = 0;
        while e < ne
            invariant
                e <= ne,
                sources@.len() == ne,
                sinks@.len() == ne,
                forall|x: int|
                    0 <= x < e ==> #[trigger] sources@[x] == (tp && self.net_touches_source(
                        s,
                        netlist[x] as int,
                        hz,
                        split as int,
                    )),
                forall|x: int|
                    0 <= x < e ==> #[trigger] sinks@[x] == (tp && self.net_touches_sink(
                        s,
                        netlist[x] as int,
                        hz,
                        split as int,
                    )),
                zero_pin == exists|x: int|
                    0 <= x < e && internal_locals_of(
                        self.nets@[(#[trigger] netlist[x]) as int].pins@,
                        s,
                    ).len() == 0,
            decreases ne - e,
        {
            let net_id = params.netmark.list[e];
            let npins = self.nets[net_id].pins.len();
            let mut card: usize = 0;
            let mut src = false;
            let mut snk = false;
            let mut q: usize = 0;
            while q < npins
                invariant
                    q <= npins,
                    net_id == netlist[e as int],
                    net_id < self.nets@.len(),
                    npins == self.nets@[net_id as int].pins@.len(),
                    card == internal_locals_of(
                        self.nets@[net_id as int].pins@.subrange(0, q as int),
                        s,
                    ).len(),
                    card <= q,
                    src == (tp && exists|t: int|
                        0 <= t < q && !s.contains(
                            (#[trigger] self.nets@[net_id as int].pins@[t]).parent_cell,
                        ) && self.boundary_coord(self.nets@[net_id as int].pins@[t], hz)
                            < split),
                    snk == (tp && exists|t: int|
                        0 <= t < q && !s.contains(
                            (#[trigger] self.nets@[net_id as int].pins@[t]).parent_cell,
                        ) && self.boundary_coord(self.nets@[net_id as int].pins@[t], hz)
                            >= split),
                decreases npins - q,
            {
                let pr = self.nets[net_id].pins[q];
                proof {
                    assert(ref_ok(self.nets@[net_id as int].pins@[q as int], self.cells@));
                    assert(self.nets@[net_id as int].pins@.subrange(0, q + 1).drop_last()
                        =~= self.nets@[net_id as int].pins@.subrange(0, q as int));
                    assert(self.nets@[net_id as int].pins@.subrange(0, q + 1).last()
                        == self.nets@[net_id as int].pins@[q as int]);
                }
                if params.cellmark.marked[pr.parent_cell] {
                    proof {
                        assert(s.contains(pr.parent_cell));
                    }
                    card = card + 1;
                } else {
                    proof {
                        assert(!s.contains(pr.parent_cell));
                    }
                    if tp {
                        let loc = self.pinloc(&pr);
                        let split_value = if hz {
                            loc.1
                        } else {
                            loc.0
                        };
                        if split_value < split {
                            src = true;
                        } else {
                            snk = true;
                        }
                    }
                }
                q = q + 1;
            }
            proof {
                assert(self.nets@[net_id as int].pins@.subrange(0, npins as int)
                    =~= self.nets@[net_id as int].pins@);
            }
            sources.set(e, src);
            sinks.set(e, snk);
            if card == 0 {
                zero_pin = true;
            }
            e = e + 1;
        }

        // Emit the vertices: one weighted, free vertex per subset cell, in
        // subset order.
        let mut hg = HyperGraph::new();
        let mut k: usize = 0;
        while k < nv
            invariant
                k <= nv,
                hg.vtxwt@.len() == k,
                hg.part@.len() == k,
                hg.hewt@.len() == 0,
                hg.eind@.len() == 0,
                hg.eptr@.len() == 0,
                forall|j: int|
                    0 <= j < k ==> #[trigger] hg.vtxwt@[j] == self.cells@[s[j] as int].area_spec(),
                forall|j: int| 0 <= j < k ==> #[trigger] hg.part@[j] == -1,
            decreases nv - k,
        {
            let cid = params.cellmark.list[k];
            proof {
                assert(cid == s[k as int]);
                assert(cid < self.cells@.len());
                assert(self.cells@[cid as int].area_spec() <= i32::MAX);
            }
            let a = self.cells[cid].area();
            hg.vtxwt.push(a as i32);
            hg.part.push(-1i32);
            k = k + 1;
        }

        // With propagation on, the SOURCE and SINK pseudo-vertices follow,
        // of weight 1 and with fixed partition sides 0 and 1; they stand for
        // the aggregate pull of everything outside the subset, and they are
        // appended even when the subset is empty.
        let mut src_id: usize = 0;
        let mut sink_id: usize = 0;
        if tp {
            src_id = hg.vtxwt.len();
            hg.vtxwt.push(1);
            hg.part.push(0);
            sink_id = hg.vtxwt.len();
            hg.vtxwt.push(1);
            hg.part.push(1);
        }

        // Emit the hyperedges in discovery order: the local ids of the
        // internal pins, then the pseudo-vertices the net touches, the
        // running pin total after each edge, and the mode's weight.
        let mut degenerate = false;
        hg.eind.push(0u64);
        let mut e: usize = 0;
        while e < ne
            invariant
                e <= ne,
                hg.vtxwt@.len() == nv + if tp {
                    2int
                } else {
                    0int
                },
                forall|j: int|
                    0 <= j < nv ==> #[trigger] hg.vtxwt@[j] == self.cells@[s[j] as int].area_spec(),
                tp ==> hg.vtxwt@[nv as int] == 1 && hg.vtxwt@[nv as int + 1] == 1,
                hg.part@.len() == hg.vtxwt@.len(),
                forall|j: int| 0 <= j < nv ==> #[trigger] hg.part@[j] == -1,
                tp ==> hg.part@[nv as int] == 0 && hg.part@[nv as int + 1] == 1,
                hg.hewt@.len() == e,
                hg.eind@.len() == e + 1,
                forall|x: int|
                    0 <= x < e ==> #[trigger] hg.hewt@[x] == edge_weight(
                        mode,
                        tp && (self.net_touches_source(s, netlist[x] as int, hz, split as int)
                            || self.net_touches_sink(s, netlist[x] as int, hz, split as int)),
                    ),
                forall|x: int|
                    0 <= x <= e ==> #[trigger] hg.eind@[x] == self.edges_flat(
                        s,
                        netlist.subrange(0, x),
                        tp,
                        hz,
                        split as int,
                    ).len(),
                u32_ints(hg.eptr@) == self.edges_flat(
                    s,
                    netlist.subrange(0, e as int),
                    tp,
                    hz,
                    split as int,
                ),
                degenerate == (tp && exists|x: int|
                    0 <= x < e && self.edge_pins(
                        s,
                        (#[trigger] netlist[x]) as int,
                        tp,
                        hz,
                        split as int,
                    ).len() < 2),
            decreases ne - e,
        {
            let ghost flat_pre = self.edges_flat(s, netlist.subrange(0, e as int), tp, hz, split as int);
            let ghost vtx0 = hg.vtxwt@;
            let ghost part0 = hg.part@;
            let ghost hewt0 = hg.hewt@;
            let ghost eind0 = hg.eind@;
            let net_id = params.netmark.list[e];
            let npins = self.nets[net_id].pins.len();
            let edge_start = hg.eptr.len();
            proof {
                assert(flat_pre + internal_locals_of(
                    self.nets@[net_id as int].pins@.subrange(0, 0), s) =~= flat_pre);
                assert(u32_ints(hg.eptr@).len() == hg.eptr@.len());
                assert(edge_start == flat_pre.len());
            }
            let mut q: usize = 0;
            while q < npins
                invariant
                    q <= npins,
                    net_id == netlist[e as int],
                    net_id < self.nets@.len(),
                    npins == self.nets@[net_id as int].pins@.len(),
                    hg.vtxwt@ == vtx0,
                    hg.part@ == part0,
                    hg.hewt@ == hewt0,
                    hg.eind@ == eind0,
                    u32_ints(hg.eptr@) == flat_pre + internal_locals_of(
                        self.nets@[net_id as int].pins@.subrange(0, q as int),
                        s,
                    ),
                decreases npins - q,
            {
                let pr = self.nets[net_id].pins[q];
                proof {
                    assert(ref_ok(self.nets@[net_id as int].pins@[q as int], self.cells@));
                    assert(self.nets@[net_id as int].pins@.subrange(0, q + 1).drop_last()
                        =~= self.nets@[net_id as int].pins@.subrange(0, q as int));
                    assert(self.nets@[net_id as int].pins@.subrange(0, q + 1).last()
                        == self.nets@[net_id as int].pins@[q as int]);
                }
                if params.cellmark.marked[pr.parent_cell] {
                    proof {
                        assert(s.contains(pr.parent_cell));
                        lemma_local_id(&params.cellmark, pr.parent_cell);
                    }
                    let local = params.cellmark.index[pr.parent_cell];
                    let ghost ep0 = hg.eptr@;
                    hg.eptr.push(local as u32);
                    proof {
                        let io = s.index_of(pr.parent_cell);
                        lemma_u32_ints_push(ep0, (local as u32));
                        assert(local < u32::MAX);
                        assert((local as u32) as int == io);
                        assert(internal_locals_of(
                            self.nets@[net_id as int].pins@.subrange(0, q + 1),
                            s,
                        ) == internal_locals_of(
                            self.nets@[net_id as int].pins@.subrange(0, q as int),
                            s,
                        ).push(io));
                        assert(flat_pre + internal_locals_of(
                            self.nets@[net_id as int].pins@.subrange(0, q as int),
                            s,
                        ).push(io) =~= (flat_pre + internal_locals_of(
                            self.nets@[net_id as int].pins@.subrange(0, q as int),
                            s,
                        )).push(io));
                    }
                } else {
                    proof {
                        assert(!s.contains(pr.parent_cell));
                        assert(internal_locals_of(
                            self.nets@[net_id as int].pins@.subrange(0, q + 1),
                            s,
                        ) == internal_locals_of(
                            self.nets@[net_id as int].pins@.subrange(0, q as int),
                            s,
                        ));
                    }
                }
                q = q + 1;
            }
            proof {
                assert(self.nets@[net_id as int].pins@.subrange(0, npins as int)
                    =~= self.nets@[net_id as int].pins@);
            }
            let ghost base = internal_locals_of(self.nets@[net_id as int].pins@, s);

            let wt: i32 = match mode {
                0 => 1,
                1 => {
                    if sources[e] || sinks[e] {
                        6
                    } else {
                        5
                    }
                },
                _ => 1,
            };
            hg.hewt.push(wt);

            if tp {
                if sources[e] {
                    let ghost ep0 = hg.eptr@;
                    hg.eptr.push(src_id as u32);
                    proof {
                        lemma_u32_ints_push(ep0, (src_id as u32));
                        assert((src_id as u32) as int == s.len() as int);
                        assert(flat_pre + base.push(s.len() as int) =~= (flat_pre + base).push(
                            s.len() as int,
                        ));
                    }
                }
                if sinks[e] {
                    let ghost mid = if tp && self.net_touches_source(
                        s,
                        net_id as int,
                        hz,
                        split as int,
                    ) {
                        base.push(s.len() as int)
                    } else {
                        base
                    };
                    let ghost ep0 = hg.eptr@;
                    hg.eptr.push(sink_id as u32);
                    proof {
                        lemma_u32_ints_push(ep0, (sink_id as u32));
                        assert((sink_id as u32) as int == s.len() as int + 1);
                        assert(flat_pre + mid.push(s.len() as int + 1) =~= (flat_pre + mid).push(
                            s.len() as int + 1,
                        ));
                    }
                }
            }
            proof {
                assert(u32_ints(hg.eptr@) == flat_pre + self.edge_pins(
                    s,
                    net_id as int,
                    tp,
                    hz,
                    split as int,
                ));
                assert(netlist.subrange(0, e + 1).drop_last() =~= netlist.subrange(0, e as int));
                assert(netlist.subrange(0, e + 1).last() == netlist[e as int]);
                assert(self.edges_flat(s, netlist.subrange(0, e + 1), tp, hz, split as int)
                    == flat_pre + self.edge_pins(s, net_id as int, tp, hz, split as int));
                assert(hg.eptr@.len() - edge_start == self.edge_pins(
                    s,
                    net_id as int,
                    tp,
                    hz,
                    split as int,
                ).len()) by {
                    assert(u32_ints(hg.eptr@).len() == hg.eptr@.len());
                    assert(flat_pre.len() == edge_start);
                }
            }
            hg.eind.push(hg.eptr.len() as u64);
            let edge_pin_count = hg.eptr.len() - edge_start;
            if edge_pin_count < 2 && tp {
                degenerate = true;
            }
            e = e + 1;
        }

        proof {
            assert(netlist.subrange(0, netlist.len() as int) =~= netlist);
        }
        Ok(BuildReport { graph: hg, zero_pin_net: zero_pin, degenerate_edge: degenerate })
    }
}

/// Every recorded local id is the first-occurrence position of some subset
/// pin's cell.
proof fn lemma_internal_locals_membership(prs: Seq<PinRef>, s: Seq<usize>, x: int)
    requires
        internal_locals_of(prs, s).contains(x),
    ensures
        exists|a: int|
            0 <= a < prs.len() && s.contains((#[trigger] prs[a]).parent_cell) && x == s.index_of(
                prs[a].parent_cell,
            ),
    decreases prs.len(),
{
    broadcast use vstd::seq_lib::group_seq_properties;

    if prs.len() > 0 {
        let pre = internal_locals_of(prs.drop_last(), s);
        if s.contains(prs.last().parent_cell) && x == s.index_of(prs.last().parent_cell)
            && !pre.contains(x) {
            assert(prs[prs.len() - 1] == prs.last());
        } else {
            assert(pre.contains(x));
            lemma_internal_locals_membership(prs.drop_last(), s, x);
            let a = choose|a: int|
                0 <= a < prs.drop_last().len() && s.contains(
                    (#[trigger] prs.drop_last()[a]).parent_cell,
                ) && x == s.index_of(prs.drop_last()[a].parent_cell);
            assert(prs[a] == prs.drop_last()[a]);
        }
    }
}

/// A pin reference whose cell lies in the subset guarantees at least one
/// recorded local id.
proof fn lemma_internal_locals_nonempty(prs: Seq<PinRef>, s: Seq<usize>)
    requires
        exists|q: int| 0 <= q < prs.len() && s.contains((#[trigger] prs[q]).parent_cell),
    ensures
        internal_locals_of(prs, s).len() > 0,
    decreases prs.len(),
{
    let q = choose|q: int| 0 <= q < prs.len() && s.contains((#[trigger] prs[q]).parent_cell);
    if q == prs.len() - 1 {
        assert(s.contains(prs.last().parent_cell));
    } else {
        assert(prs.drop_last()[q] == prs[q]);
        lemma_internal_locals_nonempty(prs.drop_last(), s);
    }
}

/// The number of a net's pin references that lie on subset cells.
pub open spec fn internal_pin_count(prs: Seq<PinRef>, s: Seq<usize>) -> int
    decreases prs.len(),
{
    if prs.len() == 0 {
        0
    } else {
        internal_pin_count(prs.drop_last(), s) + if s.contains(prs.last().parent_cell) {
            1int
        } else {
            0int
        }
    }
}

/// For a net with k pins on subset cells, exactly k local ids are recorded,
/// and none is omitted: every subset pin's cell position appears among them.
pub proof fn lemma_internal_pins_exact(prs: Seq<PinRef>, s: Seq<usize>)
    ensures
        internal_locals_of(prs, s).len() == internal_pin_count(prs, s),
        forall|q: int|
            0 <= q < prs.len() && s.contains((#[trigger] prs[q]).parent_cell)
                ==> internal_locals_of(prs, s).contains(s.index_of(prs[q].parent_cell)),
    decreases prs.len(),
{
    broadcast use vstd::seq_lib::group_seq_properties;

    if prs.len() > 0 {
        lemma_internal_pins_exact(prs.drop_last(), s);
        let pre = internal_locals_of(prs.drop_last(), s);
        let whole = internal_locals_of(prs, s);
        assert forall|q: int|
            0 <= q < prs.len() && s.contains((#[trigger] prs[q]).parent_cell)
            implies whole.contains(s.index_of(prs[q].parent_cell)) by {
            if q < prs.len() - 1 {
                assert(prs.drop_last()[q] == prs[q]);
                assert(pre.contains(s.index_of(prs[q].parent_cell)));
                if s.contains(prs.last().parent_cell) {
                    assert(whole == pre.push(s.index_of(prs.last().parent_cell)));
                }
            } else {
                assert(prs[q] == prs.last());
                assert(whole == pre.push(s.index_of(prs[q].parent_cell)));
                assert(whole[pre.len() as int] == s.index_of(prs[q].parent_cell));
            }
        }
    }
}

/// When the subset pins of a net sit on pairwise distinct cells, the
/// recorded local ids repeat none of their values.
pub proof fn lemma_internal_pins_distinct(prs: Seq<PinRef>, s: Seq<usize>)
    requires
        s.no_duplicates(),
        forall|a: int, b: int|
            0 <= a < b < prs.len() && s.contains((#[trigger] prs[a]).parent_cell) && s.contains(
                (#[trigger] prs[b]).parent_cell,
            ) ==> prs[a].parent_cell != prs[b].parent_cell,
    ensures
        internal_locals_of(prs, s).no_duplicates(),
    decreases prs.len(),
{
    broadcast use vstd::seq_lib::group_seq_properties;

    if prs.len() > 0 {
        assert forall|a: int, b: int|
            0 <= a < b < prs.drop_last().len() && s.contains(
                (#[trigger] prs.drop_last()[a]).parent_cell,
            ) && s.contains((#[trigger] prs.drop_last()[b]).parent_cell)
            implies prs.drop_last()[a].parent_cell != prs.drop_last()[b].parent_cell by {
            assert(prs[a] == prs.drop_last()[a]);
            assert(prs[b] == prs.drop_last()[b]);
        }
        lemma_internal_pins_distinct(prs.drop_last(), s);
        let pre = internal_locals_of(prs.drop_last(), s);
        let last = prs.last();
        if s.contains(last.parent_cell) {
            assert(!pre.contains(s.index_of(last.parent_cell))) by {
                if pre.contains(s.index_of(last.parent_cell)) {
                    lemma_internal_locals_membership(
                        prs.drop_last(),
                        s,
                        s.index_of(last.parent_cell),
                    );
                    let a = choose|a: int|
                        0 <= a < prs.drop_last().len() && s.contains(
                            (#[trigger] prs.drop_last()[a]).parent_cell,
                        ) && s.index_of(last.parent_cell) == s.index_of(
                            prs.drop_last()[a].parent_cell,
                        );
                    assert(prs[a] == prs.drop_last()[a]);
                    let ca = prs[a].parent_cell;
                    let cl = last.parent_cell;
                    assert(s[s.index_of(ca)] == ca);
                    assert(s[s.index_of(cl)] == cl);
                    assert(prs[prs.len() - 1] == last);
                    assert(false);
                }
            }
            assert(internal_locals_of(prs, s) == pre.push(s.index_of(last.parent_cell)));
            assert forall|i: int, j: int|
                0 <= i < pre.push(s.index_of(last.parent_cell)).len() && 0 <= j < pre.push(
                    s.index_of(last.parent_cell),
                ).len() && i != j implies pre.push(s.index_of(last.parent_cell))[i] != pre.push(
                s.index_of(last.parent_cell),
            )[j] by {
                if i < pre.len() && j < pre.len() {
                } else if i == pre.len() {
                    assert(pre.contains(pre[j]));
                } else if j == pre.len() {
                    assert(pre.contains(pre[i]));
                }
            }
        }
    }
}

impl BookshelfCircuit {
    /// Pin `p` of the `i`-th subset cell exists and lies on net `n`.
    pub open spec fn subset_pin_on_net(&self, s: Seq<usize>, i: int, p: int, n: usize) -> bool {
        &&& 0 <= i < s.len()
        &&& 0 <= p < self.cells@[s[i] as int].pins@.len()
        &&& self.cells@[s[i] as int].pins@[p].parent_net == n
    }

    /// The set of nets with at least one pin on a cell of the subset, read
    /// from the subset cells' own pin lists.
    pub open spec fn touched_nets(&self, s: Seq<usize>) -> Set<usize> {
        Set::new(|n: usize| exists|i: int, p: int| self.subset_pin_on_net(s, i, p, n))
    }

    /// A net occurs among the subset's pin references exactly when some pin
    /// of a subset cell names it.
    pub proof fn lemma_subset_net_refs_contains(&self, s: Seq<usize>, n: usize)
        ensures
            self.subset_net_refs(s).contains(n) <==> exists|i: int, p: int|
                self.subset_pin_on_net(s, i, p, n),
        decreases s.len(),
    {
        broadcast use vstd::seq_lib::group_seq_properties;

        if s.len() > 0 {
            self.lemma_subset_net_refs_contains(s.drop_last(), n);
            let refs = self.subset_net_refs(s);
            let pre = self.subset_net_refs(s.drop_last());
            let cell_refs = self.cell_net_refs(s.last() as int);
            let pins = self.cells@[s.last() as int].pins@;
            assert(cell_refs.contains(n) <==> exists|p: int|
                0 <= p < pins.len() && pins[p].parent_net == n) by {
                if cell_refs.contains(n) {
                    let p = choose|p: int| 0 <= p < cell_refs.len() && cell_refs[p] == n;
                    assert(pins[p].parent_net == n);
                }
                if exists|p: int| 0 <= p < pins.len() && pins[p].parent_net == n {
                    let p = choose|p: int| 0 <= p < pins.len() && pins[p].parent_net == n;
                    assert(cell_refs[p] == n);
                }
            }
            assert(refs.contains(n) <==> pre.contains(n) || cell_refs.contains(n)) by {
                if refs.contains(n) {
                    let j = choose|j: int| 0 <= j < refs.len() && refs[j] == n;
                    if j < pre.len() {
                        assert(pre[j] == n);
                    } else {
                        assert(cell_refs[j - pre.len()] == n);
                    }
                }
                if pre.contains(n) {
                    let j = choose|j: int| 0 <= j < pre.len() && pre[j] == n;
                    assert(refs[j] == n);
                }
                if cell_refs.contains(n) {
                    let j = choose|j: int| 0 <= j < cell_refs.len() && cell_refs[j] == n;
                    assert(refs[pre.len() + j] == n);
                }
            }
            assert((exists|i: int, p: int| self.subset_pin_on_net(s, i, p, n)) <==> ((exists|
                i: int,
                p: int,
            | self.subset_pin_on_net(s.drop_last(), i, p, n)) || (exists|p: int|
                0 <= p < pins.len() && pins[p].parent_net == n))) by {
                if exists|i: int, p: int| self.subset_pin_on_net(s, i, p, n) {
                    let (i, p) = choose|i: int, p: int| self.subset_pin_on_net(s, i, p, n);
                    if i < s.len() - 1 {
                        assert(s.drop_last()[i] == s[i]);
                        assert(self.subset_pin_on_net(s.drop_last(), i, p, n));
                    } else {
                        assert(s[i] == s.last());
                    }
                }
                if exists|i: int, p: int| self.subset_pin_on_net(s.drop_last(), i, p, n) {
                    let (i, p) = choose|i: int, p: int| self.subset_pin_on_net(s.drop_last(), i, p, n);
                    assert(s[i] == s.drop_last()[i]);
                    assert(self.subset_pin_on_net(s, i, p, n));
                }
                if exists|p: int| 0 <= p < pins.len() && pins[p].parent_net == n {
                    let p = choose|p: int| 0 <= p < pins.len() && pins[p].parent_net == n;
                    assert(s[s.len() - 1] == s.last());
                    assert(self.subset_pin_on_net(s, s.len() - 1, p, n));
                }
            }
        }
    }

    /// For every subset, the number of emitted hyperedges — the length of
    /// the discovered net list, and of the weight array `build_graph` fills —
    /// equals the number of distinct nets with at least one pin on a cell of
    /// the subset.
    pub proof fn lemma_hyperedge_count(&self, s: Seq<usize>)
        ensures
            self.touched_nets(s).finite(),
            self.discovered_nets(s).len() == self.touched_nets(s).len(),
    {
        broadcast use vstd::seq_lib::group_seq_properties;
        broadcast use vstd::set::group_set_axioms;
        broadcast use vstd::seq_lib::seq_to_set_is_finite;

        let netlist = self.discovered_nets(s);
        let refs = self.subset_net_refs(s);
        crate::marklist::lemma_mark_seq_no_duplicates(Seq::empty(), refs);
        assert forall|n: usize| #[trigger]
            netlist.to_set().contains(n) <==> self.touched_nets(s).contains(n) by {
            crate::marklist::lemma_mark_seq_contains(Seq::empty(), refs, n);
            self.lemma_subset_net_refs_contains(s, n);
            if netlist.to_set().contains(n) {
                assert(netlist.contains(n));
            }
            if self.touched_nets(s).contains(n) {
                assert(netlist.contains(n));
                assert(netlist.to_set().contains(n));
            }
        }
        assert(netlist.to_set() =~= self.touched_nets(s));
        netlist.unique_seq_to_set();
    }

    /// For every subset, an extracted hypergraph has exactly one hyperedge —
    /// one weight entry, one offset step — per distinct net with a pin on a
    /// cell of the subset.
    pub proof fn lemma_emitted_edge_count(
        &self,
        s: Seq<usize>,
        tp: bool,
        horizontal: bool,
        split: int,
        mode: usize,
        hg: HyperGraph,
    )
        requires
            self.graph_matches(s, tp, horizontal, split, mode, hg),
        ensures
            hg.hewt@.len() == self.touched_nets(s).len(),
            hg.eind@.len() == self.touched_nets(s).len() + 1,
    {
        self.lemma_hyperedge_count(s);
    }

    /// In the CSR layout, the slice of the flat pin array between the
    /// offsets of hyperedge `e` is exactly that hyperedge's pin list.
    pub proof fn lemma_edge_slice(
        &self,
        s: Seq<usize>,
        netlist: Seq<usize>,
        tp: bool,
        horizontal: bool,
        split: int,
        e: int,
    )
        requires
            0 <= e < netlist.len(),
        ensures
            self.edges_flat(s, netlist, tp, horizontal, split).subrange(
                self.edges_flat(s, netlist.subrange(0, e), tp, horizontal, split).len() as int,
                self.edges_flat(s, netlist.subrange(0, e + 1), tp, horizontal, split).len() as int,
            ) == self.edge_pins(s, netlist[e] as int, tp, horizontal, split),
        decreases netlist.len(),
    {
        let whole = self.edges_flat(s, netlist, tp, horizontal, split);
        let lo = self.edges_flat(s, netlist.subrange(0, e), tp, horizontal, split).len() as int;
        let hi = self.edges_flat(s, netlist.subrange(0, e + 1), tp, horizontal, split).len() as int;
        assert(netlist.subrange(0, e + 1).drop_last() =~= netlist.subrange(0, e));
        assert(netlist.subrange(0, e + 1).last() == netlist[e]);
        assert(self.edges_flat(s, netlist.subrange(0, e + 1), tp, horizontal, split)
            == self.edges_flat(s, netlist.subrange(0, e), tp, horizontal, split) + self.edge_pins(
            s,
            netlist[e] as int,
            tp,
            horizontal,
            split,
        ));
        if e == netlist.len() - 1 {
            assert(netlist.subrange(0, e) =~= netlist.drop_last());
            assert(netlist.subrange(0, e + 1) =~= netlist);
            assert(whole.subrange(lo, hi) =~= self.edge_pins(
                s,
                netlist[e] as int,
                tp,
                horizontal,
                split,
            ));
        } else {
            self.lemma_edge_slice(s, netlist.drop_last(), tp, horizontal, split, e);
            assert(netlist.drop_last().subrange(0, e) =~= netlist.subrange(0, e));
            assert(netlist.drop_last().subrange(0, e + 1) =~= netlist.subrange(0, e + 1));
            let pre = self.edges_flat(s, netlist.drop_last(), tp, horizontal, split);
            assert(whole == pre + self.edge_pins(
                s,
                netlist.last() as int,
                tp,
                horizontal,
                split,
            ));
            self.lemma_edges_flat_prefix_len(s, netlist.drop_last(), tp, horizontal, split, e + 1);
            assert(hi <= pre.len());
            assert(whole.subrange(lo, hi) =~= pre.subrange(lo, hi));
        }
    }

    /// The flat pin array of a prefix of the hyperedges is no longer than
    /// that of all of them.
    proof fn lemma_edges_flat_prefix_len(
        &self,
        s: Seq<usize>,
        netlist: Seq<usize>,
        tp: bool,
        horizontal: bool,
        split: int,
        t: int,
    )
        requires
            0 <= t <= netlist.len(),
        ensures
            self.edges_flat(s, netlist.subrange(0, t), tp, horizontal, split).len()
                <= self.edges_flat(s, netlist, tp, horizontal, split).len(),
        decreases netlist.len(),
    {
        if t == netlist.len() {
            assert(netlist.subrange(0, t) =~= netlist);
        } else {
            self.lemma_edges_flat_prefix_len(s, netlist.drop_last(), tp, horizontal, split, t);
            assert(netlist.drop_last().subrange(0, t) =~= netlist.subrange(0, t));
        }
    }

    /// A circuit whose two pin views agree never produces the
    /// zero-internal-pin anomaly: every discovered net records at least one
    /// internal pin.
    pub proof fn lemma_consistent_no_anomaly(&self, s: Seq<usize>)
        requires
            self.wf(),
            self.consistent(),
            subset_in_range(s, self.cells@.len() as nat),
        ensures
            !self.some_net_without_internal_pin(s),
    {
        broadcast use vstd::seq_lib::group_seq_properties;

        let netlist = self.discovered_nets(s);
        assert forall|e: int| 0 <= e < netlist.len() implies internal_locals_of(
            self.nets@[(#[trigger] netlist[e]) as int].pins@,
            s,
        ).len() > 0 by {
            let n = netlist[e];
            assert(netlist.contains(n));
            crate::marklist::lemma_mark_seq_contains(
                Seq::empty(),
                self.subset_net_refs(s),
                n,
            );
            self.lemma_subset_net_refs_contains(s, n);
            let (i, p) = choose|i: int, p: int| self.subset_pin_on_net(s, i, p, n);
            let c = s[i];
            assert(self.nets@[n as int].pins@.contains(
                PinRef { parent_cell: c, index: p as usize },
            ));
            let q = choose|q: int|
                0 <= q < self.nets@[n as int].pins@.len() && self.nets@[n as int].pins@[q]
                    == PinRef { parent_cell: c, index: p as usize };
            assert(s.contains(self.nets@[n as int].pins@[q].parent_cell)) by {
                assert(s[i] == c);
            }
            lemma_internal_locals_nonempty(self.nets@[n as int].pins@, s);
        }
    }

    /// Terminal propagation, one-sided: a net with boundary pins that all
    /// lie strictly before the split coordinate touches SOURCE and never
    /// SINK.
    pub proof fn lemma_propagation_source_only(
        &self,
        s: Seq<usize>,
        n: int,
        horizontal: bool,
        split: int,
    )
        requires
            exists|q: int|
                0 <= q < self.nets@[n].pins@.len() && !s.contains(
                    (#[trigger] self.nets@[n].pins@[q]).parent_cell,
                ),
            forall|q: int|
                0 <= q < self.nets@[n].pins@.len() && !s.contains(
                    (#[trigger] self.nets@[n].pins@[q]).parent_cell,
                ) ==> self.boundary_coord(self.nets@[n].pins@[q], horizontal) < split,
        ensures
            self.net_touches_source(s, n, horizontal, split),
            !self.net_touches_sink(s, n, horizontal, split),
    {
    }

    /// Terminal propagation, straddling: boundary pins on both sides of the
    /// split mark the net as touching both SOURCE and SINK.
    pub proof fn lemma_propagation_straddle(
        &self,
        s: Seq<usize>,
        n: int,
        horizontal: bool,
        split: int,
    )
        requires
            exists|q: int|
                0 <= q < self.nets@[n].pins@.len() && !s.contains(
                    (#[trigger] self.nets@[n].pins@[q]).parent_cell,
                ) && self.boundary_coord(self.nets@[n].pins@[q], horizontal) < split,
            exists|q: int|
                0 <= q < self.nets@[n].pins@.len() && !s.contains(
                    (#[trigger] self.nets@[n].pins@[q]).parent_cell,
                ) && self.boundary_coord(self.nets@[n].pins@[q], horizontal) >= split,
        ensures
            self.net_touches_source(s, n, horizontal, split),
            self.net_touches_sink(s, n, horizontal, split),
    {
    }

    /// Every id in the flat pin array is a valid vertex: internal ids lie
    /// below the subset size, and with propagation on the only other ids are
    /// the two pseudo-vertices just above it.
    pub proof fn lemma_pins_in_range(
        &self,
        s: Seq<usize>,
        netlist: Seq<usize>,
        tp: bool,
        horizontal: bool,
        split: int,
    )
        ensures
            forall|j: int|
                0 <= j < self.edges_flat(s, netlist, tp, horizontal, split).len() ==> 0 <= (
                #[trigger] self.edges_flat(s, netlist, tp, horizontal, split)[j]) < s.len() + if tp {
                    2int
                } else {
                    0int
                },
        decreases netlist.len(),
    {
        if netlist.len() > 0 {
            self.lemma_pins_in_range(s, netlist.drop_last(), tp, horizontal, split);
            let pre = self.edges_flat(s, netlist.drop_last(), tp, horizontal, split);
            let pins = self.edge_pins(s, netlist.last() as int, tp, horizontal, split);
            lemma_internal_locals_range(self.nets@[netlist.last() as int].pins@, s);
            let whole = self.edges_flat(s, netlist, tp, horizontal, split);
            assert forall|j: int| 0 <= j < whole.len() implies 0 <= #[trigger] whole[j] < s.len()
                + if tp {
                2int
            } else {
                0int
            } by {
                if j < pre.len() {
                    assert(whole[j] == pre[j]);
                } else {
                    assert(whole[j] == pins[j - pre.len()]);
                    let base = internal_locals_of(self.nets@[netlist.last() as int].pins@, s);
                    assert(0 <= j - pre.len() < pins.len());
                }
            }
        }
    }
}

/// Every recorded local id lies below the subset size.
proof fn lemma_internal_locals_range(prs: Seq<PinRef>, s: Seq<usize>)
    ensures
        forall|j: int|
            0 <= j < internal_locals_of(prs, s).len() ==> 0 <= (#[trigger] internal_locals_of(
                prs,
                s,
            )[j]) < s.len(),
    decreases prs.len(),
{
    if prs.len() > 0 {
        lemma_internal_locals_range(prs.drop_last(), s);
        let pre = internal_locals_of(prs.drop_last(), s);
        let whole = internal_locals_of(prs, s);
        if s.contains(prs.last().parent_cell) {
            assert(exists|i: int| 0 <= i < s.len() && s[i] == prs.last().parent_cell);
            let io = s.index_of(prs.last().parent_cell);
            assert(0 <= io < s.len());
            assert forall|j: int| 0 <= j < whole.len() implies 0 <= (#[trigger] whole[j])
                < s.len() by {
                if j < pre.len() {
                    assert(whole[j] == pre[j]);
                } else {
                    assert(whole[j] == io);
                }
            }
        } else {
            assert forall|j: int| 0 <= j < whole.len() implies 0 <= (#[trigger] whole[j])
                < s.len() by {
                assert(whole[j] == pre[j]);
            }
        }
    }
}

} // verus!
