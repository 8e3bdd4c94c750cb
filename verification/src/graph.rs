//! The game graph of one table: a node for each index, an edge for each
//! legal move of the position that the index stands for.
use vstd::prelude::*;
use crate::attack::king_code;
use crate::codes::{is_piece_code, is_square, squares_touch, touching};
use crate::decode::index_pos;
use crate::dtm::Dtm;
use crate::index::{canonical_index, table_size};
use crate::material::{sig_wf, MaterialSignature};
use crate::movegen::{apply, legal, listed, pseudo_legal, lemma_apply_valid, Move, Mv};
use crate::orient::{canonical_sig, needs_swap, lemma_king_sq};
use crate::position::{count_pieces, ep_consistent, Pos, Position};
use crate::probe::probe_spec;
use crate::registry::TableRegistry;
use crate::solver::{Edge, GameGraph, Node, Outcome};
use crate::store::DecompressionContext;

verus! {

/// The outcome for the side to move that a probe result stands for.
pub open spec fn outcome_of(d: Dtm, stm: int) -> Outcome {
    match d {
        Dtm::Decisive(n) => if n == 0 {
            Outcome::Loss(0)
        } else if (n > 0) == (stm == 0) {
            Outcome::Win((if n > 0 {
                n as int
            } else {
                -n
            }) as u32)
        } else {
            Outcome::Loss((if n > 0 {
                n as int
            } else {
                -n
            }) as u32)
        },
        _ => Outcome::Draw,
    }
}

/// The probe result that an outcome for the side to move stands for.
pub open spec fn dtm_of(o: Outcome, stm: int) -> Dtm {
    match o {
        Outcome::Draw => Dtm::Draw,
        Outcome::Win(n) => Dtm::Decisive((if stm == 0 {
            n as int
        } else {
            -(n as int)
        }) as i32),
        Outcome::Loss(n) => Dtm::Decisive((if stm == 0 {
            -(n as int)
        } else {
            n as int
        }) as i32),
    }
}

pub fn outcome_from_dtm(d: Dtm, stm: u8) -> (o: Outcome)
    requires
        d.wf(),
    ensures
        o == outcome_of(d, stm as int),
        crate::solver::depth(o) < 1000,
{
    match d {
        Dtm::Decisive(n) => {
            let a: u32 = if n > 0 {
                n as u32
            } else {
                (-n) as u32
            };
            if n == 0 {
                Outcome::Loss(0)
            } else if (n > 0) == (stm == 0) {
                Outcome::Win(a)
            } else {
                Outcome::Loss(a)
            }
        },
        _ => Outcome::Draw,
    }
}

pub fn dtm_from_outcome(o: Outcome, stm: u8) -> (d: Dtm)
    requires
        crate::solver::depth(o) < 1000,
    ensures
        d == dtm_of(o, stm as int),
        d.wf(),
{
    match o {
        Outcome::Draw => Dtm::Draw,
        Outcome::Win(n) => Dtm::Decisive(if stm == 0 {
            n as i32
        } else {
            -(n as i32)
        }),
        Outcome::Loss(n) => Dtm::Decisive(if stm == 0 {
            -(n as i32)
        } else {
            n as i32
        }),
    }
}

/// Reading an outcome back from the probe result it was written as gives the
/// same outcome.
pub proof fn lemma_outcome_round_trip(o: Outcome, stm: int)
    requires
        crate::solver::depth(o) < 1000,
        !(o matches Outcome::Win(n) && n == 0),
    ensures
        outcome_of(dtm_of(o, stm), stm) == o,
{
}

/// Seen from the other side to move, the exchanged result is the same
/// outcome.
pub proof fn lemma_outcome_flipped(d: Dtm, stm: int)
    requires
        d.wf(),
        stm == 0 || stm == 1,
    ensures
        outcome_of(d.flipped(), 1 - stm) == outcome_of(d, stm),
{
}

/// The index stands for a position of the table: decoding it gives a valid
/// position, keyed as it stands, that is found at this very index.
pub open spec fn live_index(sig: Seq<int>, i: int) -> bool {
    let q = index_pos(sig, i);
    &&& q.valid()
    &&& !needs_swap(q)
    &&& canonical_sig(q) == sig
    &&& canonical_index(q) == i
}

/// The edge for a move to the position `s`: to the node of `s` if `s` is of
/// the same table, else out of the graph with the outcome that the tables
/// registered give.
pub open spec fn edge_for(reg: &TableRegistry, sig: Seq<int>, s: Pos) -> Edge {
    if canonical_sig(s) == sig {
        Edge::Inner(canonical_index(s) as usize)
    } else {
        Edge::Outer(outcome_of(probe_spec(reg, s), s.stm as int))
    }
}

/// The edges of a node are the edges for the legal moves, move by move.
pub open spec fn edges_match(reg: &TableRegistry, sig: Seq<int>, q: Pos, moves: Seq<Move>, edges: Seq<Edge>) -> bool {
    &&& forall|m: Mv| #[trigger] listed(moves, m) <==> legal(q, m)
    &&& edges.len() == moves.len()
    &&& forall|k: int| 0 <= k < moves.len() ==> #[trigger] edges[k] == edge_for(reg, sig, apply(q, moves[k]@))
}

/// Node `i` is the node of index `i`: live if the index stands for a
/// position, and then with that position's check and moves.
pub open spec fn node_matches(reg: &TableRegistry, sig: Seq<int>, i: int, node: Node) -> bool {
    let q = index_pos(sig, i);
    &&& node.live == live_index(sig, i)
    &&& node.live ==> node.check == q.in_check(q.stm as int)
    &&& node.live ==> exists|moves: Seq<Move>| edges_match(reg, sig, q, moves, node.edges@)
}

/// The graph is the game graph of the table of the signature, with the
/// tables registered behind the moves that leave it.
pub open spec fn graph_of(g: &GameGraph, reg: &TableRegistry, sig: Seq<int>) -> bool {
    &&& g.nodes@.len() == table_size(sig)
    &&& forall|i: int| 0 <= i < g.nodes@.len() ==> node_matches(reg, sig, i, #[trigger] g.nodes@[i])
}

/// Every move that leaves the table leads to a position that the tables
/// registered know.
pub open spec fn covered(reg: &TableRegistry, sig: Seq<int>) -> bool {
    forall|i: int, m: Mv|
        0 <= i < table_size(sig) && live_index(sig, i) && #[trigger] legal(index_pos(sig, i), m) && canonical_sig(
            apply(index_pos(sig, i), m),
        ) != sig ==> !(probe_spec(reg, apply(index_pos(sig, i), m)) is Unknown)
}

impl Position {
    /// Structural legality of a position held as a board.
    pub fn is_valid(&self) -> (ok: bool)
        requires
            self@.wf(),
        ensures
            ok == self@.valid(),
    {
        if self.ep != 64 {
            let e = self.ep as usize;
            let ok = if self.stm == 0 {
                e / 8 == 5 && self.board[e] == 0 && self.board[e + 8] == 0 && self.board[e - 8] == 9
            } else {
                e / 8 == 2 && self.board[e] == 0 && self.board[e - 8] == 0 && self.board[e + 8] == 1
            };
            if !ok {
                return false;
            }
        }
        let mut wn: u8 = 0;
        let mut bn: u8 = 0;
        let mut wk: u8 = 0;
        let mut bk: u8 = 0;
        let mut cnt: u8 = 0;
        let mut s: u8 = 0;
        let ghost mut w2: int = 0;
        let ghost mut b2: int = 0;
        let ghost board = self@.board;
        while s < 64
            invariant
                0 <= s <= 64,
                board == self@.board,
                board.len() == 64,
                cnt == count_pieces(board, s as int),
                cnt <= s,
                wn <= 2,
                bn <= 2,
                wn == 0 ==> forall|j: int| 0 <= j < s ==> #[trigger] board[j] != 6,
                bn == 0 ==> forall|j: int| 0 <= j < s ==> #[trigger] board[j] != 14,
                wn >= 1 ==> wk < s && board[wk as int] == 6,
                bn >= 1 ==> bk < s && board[bk as int] == 14,
                wn == 1 ==> forall|j: int| 0 <= j < s && #[trigger] board[j] == 6 ==> j == wk,
                bn == 1 ==> forall|j: int| 0 <= j < s && #[trigger] board[j] == 14 ==> j == bk,
                wn == 2 ==> 0 <= w2 < s && w2 != wk && board[w2] == 6,
                bn == 2 ==> 0 <= b2 < s && b2 != bk && board[b2] == 14,
            decreases 64 - s,
        {
            let c = self.board[s as usize];
            if c != 0 {
                cnt = cnt + 1;
            }
            if c == 6 {
                if wn == 0 {
                    wk = s;
                    wn = 1;
                } else {
                    proof {
                        if wn == 1 {
                            w2 = s as int;
                        }
                    }
                    wn = 2;
                }
            }
            if c == 14 {
                if bn == 0 {
                    bk = s;
                    bn = 1;
                } else {
                    proof {
                        if bn == 1 {
                            b2 = s as int;
                        }
                    }
                    bn = 2;
                }
            }
            s = s + 1;
        }
        proof {
            if wn == 1 {
                assert(self@.sole_king(6, wk as int));
                lemma_king_sq(self@, 6, wk as int);
            } else if self@.one_king(6) {
                let x = self@.king_sq(6);
                assert(self@.sole_king(6, x));
                if wn == 2 {
                    assert(board[wk as int] == 6 && board[w2] == 6);
                }
            }
            if bn == 1 {
                assert(self@.sole_king(14, bk as int));
                lemma_king_sq(self@, 14, bk as int);
            } else if self@.one_king(14) {
                let x = self@.king_sq(14);
                assert(self@.sole_king(14, x));
                if bn == 2 {
                    assert(board[bk as int] == 14 && board[b2] == 14);
                }
            }
        }
        if wn != 1 || bn != 1 {
            return false;
        }
        if touching(wk, bk) {
            return false;
        }
        cnt <= 6
    }
}

/// Why a table was not generated.
#[derive(Clone, Copy, Debug, PartialEq, Eq, Structural)]
pub enum GenError {
    /// The signature is not one of the library's.
    Signature,
    /// The table has too many indices for the solver.
    TooLarge,
    /// A move leaves the table for a position that no registered table
    /// knows.
    MissingTable,
    /// A mate is a thousand plies away or more.
    TooDeep,
}

/// The most indices that a table may have to be generated.
pub const MAX_NODES: u64 = 0xffff_0000;

impl TableRegistry {
    /// The edge for the move `m` from the valid position `q`.
    pub fn edge_of(&self, sig: &MaterialSignature, q: &Position, m: Move, ctx: &mut DecompressionContext) -> (r: Option<Edge>)
        requires
            self.wf(),
            q@.valid(),
            legal(q@, m@),
            sig_wf(sig@),
            table_size(sig@) < MAX_NODES,
            self.agrees(old(ctx)),
        ensures
            self.agrees(final(ctx)),
            r is None <==> canonical_sig(apply(q@, m@)) != sig@ && probe_spec(self, apply(q@, m@)) is Unknown,
            r matches Some(e) ==> e == edge_for(self, sig@, apply(q@, m@)) && (e matches Edge::Outer(o) ==> crate::solver::depth(o) < 1000),
    {
        let s = q.play(m);
        proof {
            lemma_apply_valid(q@, m@);
        }
        let loc = self.locate(&s);
        if loc.sig.same(sig) {
            Some(Edge::Inner(loc.index as usize))
        } else {
            let d = self.probe_position(&s, ctx);
            match d {
                Dtm::Unknown => None,
                _ => Some(Edge::Outer(outcome_from_dtm(d, s.stm))),
            }
        }
    }

    /// The node of index `i` of the table of a signature.
    pub fn node_of(&self, sig: &MaterialSignature, i: u64, ctx: &mut DecompressionContext) -> (r: Option<Node>)
        requires
            self.wf(),
            sig_wf(sig@),
            i < table_size(sig@),
            table_size(sig@) < MAX_NODES,
            self.agrees(old(ctx)),
        ensures
            self.agrees(final(ctx)),
            r is None <==> live_index(sig@, i as int) && exists|m: Mv| #[trigger] legal(index_pos(sig@, i as int), m) && canonical_sig(apply(index_pos(sig@, i as int), m)) != sig@
                && probe_spec(self, apply(index_pos(sig@, i as int), m)) is Unknown,
            r matches Some(node) ==> node_matches(self, sig@, i as int, node) && forall|k: int| 0 <= k < node.edges@.len() ==> (#[trigger] node.edges@[k] matches Edge::Outer(o) ==> crate::solver::depth(o) < 1000),
    {
        let q = self.indexer.position_at(sig, i);
        let mut live = q.is_valid();
        if live {
            let loc = self.locate(&q);
            live = !loc.swapped && loc.sig.same(sig) && loc.index == i;
        }
        if !live {
            return Some(Node { live: false, check: false, edges: Vec::new() });
        }
        let (wk, bk) = q.king_squares();
        let own: u8 = if q.stm == 0 {
            wk
        } else {
            bk
        };
        let check = q.checked(q.stm, own);
        let moves = q.legal_moves();
        let mut edges: Vec<Edge> = Vec::new();
        let mut k: usize = 0;
        while k < moves.len()
            invariant
                0 <= k <= moves@.len(),
                self.wf(),
                sig_wf(sig@),
                table_size(sig@) < MAX_NODES,
                q@.valid(),
                q@ == index_pos(sig@, i as int),
                live_index(sig@, i as int),
                forall|m: Mv| #[trigger] listed(moves@, m) <==> legal(q@, m),
                self.agrees(ctx),
                edges@.len() == k,
                forall|j: int| 0 <= j < k ==> #[trigger] edges@[j] == edge_for(self, sig@, apply(q@, moves@[j]@)),
                forall|j: int| 0 <= j < k ==> (#[trigger] edges@[j] matches Edge::Outer(o) ==> crate::solver::depth(o) < 1000),
                forall|j: int| 0 <= j < k ==> !(canonical_sig(apply(q@, (#[trigger] moves@[j])@)) != sig@ && probe_spec(self, apply(q@, moves@[j]@)) is Unknown),
            decreases moves@.len() - k,
        {
            let m = moves[k];
            proof {
                assert(listed(moves@, m@));
            }
            match self.edge_of(sig, &q, m, ctx) {
                None => {
                    proof {
                        assert(legal(q@, m@) && canonical_sig(apply(q@, m@)) != sig@ && probe_spec(self, apply(q@, m@)) is Unknown);
                    }
                    return None;
                },
                Some(e) => {
                    edges.push(e);
                },
            }
            k = k + 1;
        }
        let node = Node { live: true, check, edges };
        proof {
            assert(edges_match(self, sig@, q@, moves@, node.edges@));
            assert forall|m: Mv| #[trigger] legal(q@, m) implies !(canonical_sig(apply(q@, m)) != sig@ && probe_spec(self, apply(q@, m)) is Unknown) by {
                assert(listed(moves@, m));
                let j = choose|j: int| 0 <= j < moves@.len() && (#[trigger] moves@[j])@ == m;
            }
        }
        Some(node)
    }
}

} // verus!
