//! Table generation: the game graph of a signature is built over the tables
//! of the smaller signatures, solved, and written down as a compressed
//! table.
use vstd::prelude::*;
use crate::decode::index_pos;
use crate::graph::{
    covered, dtm_from_outcome, dtm_of, graph_of, live_index, node_matches, GenError, MAX_NODES,
};
use crate::index::table_size;
use crate::material::{sig_wf, MaterialSignature};
use crate::movegen::{apply, legal, Mv};
use crate::orient::canonical_sig;
use crate::probe::{cell_of_dtm, dtm_cell, probe_spec, CELL_UNKNOWN};
use crate::registry::{table_fits, TableRegistry};
use crate::solver::{depth, Edge, GameGraph, Node, Outcome};
use crate::store::{CompressedTable, DecompressionContext};

verus! {

/// The number of cells in a block of a generated table.
pub const BLOCK_SIZE: usize = 4096;

/// The cells of a table whose game graph has the solution `v`: at an index
/// that stands for a position, the outcome seen from the first color; at
/// any other index, "unknown".
pub open spec fn cells_of(sig: Seq<int>, v: Seq<Outcome>) -> Seq<u16> {
    Seq::new(
        v.len(),
        |i: int|
            if live_index(sig, i) {
                dtm_cell(dtm_of(v[i], i % 2))
            } else {
                CELL_UNKNOWN
            },
    )
}

/// No mate is a thousand plies away or more.
pub open spec fn shallow(v: Seq<Outcome>) -> bool {
    forall|i: int| 0 <= i < v.len() ==> depth(#[trigger] v[i]) < 1000
}

/// In the table of the signature some mate is a thousand plies away or more.
pub open spec fn too_deep(reg: &TableRegistry, sig: Seq<int>) -> bool {
    exists|g: GameGraph, v: Seq<Outcome>| graph_of(&g, reg, sig) && #[trigger] g.solved(v) && !shallow(v)
}

impl TableRegistry {
    /// Builds the game graph of the table of a signature.
    pub fn build_graph(&self, sig: &MaterialSignature) -> (r: Result<GameGraph, GenError>)
        requires
            self.wf(),
        ensures
            r == Err::<GameGraph, GenError>(GenError::Signature) <==> !sig_wf(sig@),
            r == Err::<GameGraph, GenError>(GenError::TooLarge) <==> sig_wf(sig@) && table_size(sig@) >= MAX_NODES,
            r == Err::<GameGraph, GenError>(GenError::MissingTable) <==> sig_wf(sig@) && table_size(sig@) < MAX_NODES && !covered(
                self,
                sig@,
            ),
            r != Err::<GameGraph, GenError>(GenError::TooDeep),
            r matches Ok(g) ==> graph_of(&g, self, sig@) && g.outer_within(999),
    {
        if !sig.well_formed() {
            return Err(GenError::Signature);
        }
        let size = self.indexer.table_size(sig);
        if size >= MAX_NODES {
            return Err(GenError::TooLarge);
        }
        let mut ctx = DecompressionContext::new();
        let mut nodes: Vec<Node> = Vec::new();
        let mut i: u64 = 0;
        while i < size
            invariant
                0 <= i <= size,
                size == table_size(sig@),
                size < MAX_NODES,
                self.wf(),
                sig_wf(sig@),
                self.agrees(&ctx),
                nodes@.len() == i,
                forall|j: int| 0 <= j < i ==> node_matches(self, sig@, j, #[trigger] nodes@[j]),
                forall|j: int, k: int| 0 <= j < i && 0 <= k < nodes@[j].edges@.len() ==> (#[trigger] nodes@[j].edges@[k] matches Edge::Outer(o) ==> depth(o) <= 999),
                forall|j: int, m: Mv| 0 <= j < i && live_index(sig@, j) && #[trigger] legal(index_pos(sig@, j), m) && canonical_sig(apply(index_pos(sig@, j), m)) != sig@
                    ==> !(probe_spec(self, apply(index_pos(sig@, j), m)) is Unknown),
            decreases size - i,
        {
            match self.node_of(sig, i, &mut ctx) {
                None => {
                    return Err(GenError::MissingTable);
                },
                Some(node) => {
                    nodes.push(node);
                },
            }
            i = i + 1;
        }
        let g = GameGraph { nodes };
        Ok(g)
    }

    /// Generates the table of a signature. The tables of the signatures that
    /// a capture or a promotion leads to must be registered.
    pub fn generate(&self, sig: &MaterialSignature) -> (r: Result<CompressedTable, GenError>)
        requires
            self.wf(),
        ensures
            r == Err::<CompressedTable, GenError>(GenError::Signature) <==> !sig_wf(sig@),
            r == Err::<CompressedTable, GenError>(GenError::TooLarge) <==> sig_wf(sig@) && table_size(sig@) >= MAX_NODES,
            r == Err::<CompressedTable, GenError>(GenError::MissingTable) <==> sig_wf(sig@) && table_size(sig@) < MAX_NODES && !covered(
                self,
                sig@,
            ),
            r == Err::<CompressedTable, GenError>(GenError::TooDeep) <==> sig_wf(sig@) && table_size(sig@) < MAX_NODES && covered(
                self,
                sig@,
            ) && too_deep(self, sig@),
            r matches Ok(t) ==> t.sig@ == sig@ && table_fits(&t) && t.block_size == BLOCK_SIZE && t.packed() && exists|
                g: GameGraph,
                v: Seq<Outcome>,
            | graph_of(&g, self, sig@) && #[trigger] g.solved(v) && shallow(v) && t@ == cells_of(sig@, v),
    {
        let g = match self.build_graph(sig) {
            Err(e) => {
                return Err(e);
            },
            Ok(g) => g,
        };
        let omax = g.outer_depth();
        let v = g.solve(omax);
        let n = g.nodes.len();
        let mut cells: Vec<u16> = Vec::new();
        let mut i: usize = 0;
        let ghost want = cells_of(sig@, v@);
        proof {
            assert forall|j: int| 0 <= j < n implies (#[trigger] g.nodes@[j]).live == live_index(sig@, j) by {
                assert(node_matches(self, sig@, j, g.nodes@[j]));
            }
            assert forall|j: int| 0 <= j < n implies #[trigger] want[j] == if g.nodes@[j].live {
                dtm_cell(dtm_of(v@[j], j % 2))
            } else {
                CELL_UNKNOWN
            } by {
                assert(g.nodes@[j].live == live_index(sig@, j));
            }
        }
        while i < n
            invariant
                0 <= i <= n,
                n == g.nodes@.len(),
                n == v@.len(),
                want.len() == n,
                sig_wf(sig@),
                table_size(sig@) < MAX_NODES,
                covered(self, sig@),
                graph_of(&g, self, sig@),
                g.solved(v@),
                forall|j: int| 0 <= j < n ==> #[trigger] want[j] == if g.nodes@[j].live {
                    dtm_cell(dtm_of(v@[j], j % 2))
                } else {
                    CELL_UNKNOWN
                },
                forall|j: int| 0 <= j < n && !(#[trigger] g.nodes@[j]).live ==> v@[j] == Outcome::Draw,
                cells@.len() == i,
                forall|j: int| 0 <= j < i ==> depth(#[trigger] v@[j]) < 1000,
                forall|j: int| 0 <= j < i ==> #[trigger] cells@[j] == want[j],
            ensures
                i == n,
                cells@.len() == n,
                forall|j: int| 0 <= j < n ==> depth(#[trigger] v@[j]) < 1000,
                forall|j: int| 0 <= j < n ==> #[trigger] cells@[j] == want[j],
            decreases n - i,
        {
            let o = v[i];
            let deep = match o {
                Outcome::Draw => false,
                Outcome::Win(k) => k >= 1000,
                Outcome::Loss(k) => k >= 1000,
            };
            if deep {
                proof {
                    assert(!shallow(v@));
                    assert(graph_of(&g, self, sig@) && g.solved(v@) && !shallow(v@));
                }
                return Err(GenError::TooDeep);
            }
            let c: u16 = if g.nodes[i].live {
                cell_of_dtm(dtm_from_outcome(o, (i % 2) as u8))
            } else {
                CELL_UNKNOWN
            };
            proof {
                assert(c == want[i as int]);
            }
            cells.push(c);
            i = i + 1;
        }
        let t = CompressedTable::compress(*sig, &cells, BLOCK_SIZE);
        proof {
            assert(shallow(v@));
            assert(t@ =~= want);
            assert(!too_deep(self, sig@)) by {
                if too_deep(self, sig@) {
                    let (g2, v2) = choose|g2: GameGraph, v2: Seq<Outcome>| graph_of(&g2, self, sig@) && #[trigger] g2.solved(v2) && !shallow(v2);
                    crate::meaning::lemma_generation_deterministic(self, sig@, &g, v@, &g2, v2);
                }
            }
        }
        Ok(t)
    }
}

} // verus!
