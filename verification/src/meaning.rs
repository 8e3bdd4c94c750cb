//! What a generated table means: once it is registered, the probe of every
//! position that an index of the table stands for follows from the probes
//! of the positions after its legal moves by the rule of the game.
use vstd::prelude::*;
use crate::decode::{index_pos, lemma_index_round_trip};
use crate::dtm::Dtm;
use crate::generator::{cells_of, shallow};
use crate::graph::{
    dtm_of, edge_for, edges_match, graph_of, live_index, node_matches, outcome_of,
    lemma_outcome_flipped, lemma_outcome_round_trip,
};
use crate::index::{canonical_index, raw_index, reduced_index, table_size};
use crate::locate::lemma_reduced_index;
use crate::movegen::{apply, legal, listed, lemma_apply_valid, Move, Mv};
use crate::orient::{canonical_sig, needs_swap, oriented, lemma_oriented_mirror};
use crate::position::Pos;
use crate::probe::{cell_dtm, dtm_cell, probe_spec};
use crate::registry::{table_fits, TableRegistry};
use crate::solver::{
    all_win_below, depth, edge_value, no_loss_below, node_ok, some_edge_is, val, win_below, Edge,
    GameGraph, Outcome,
};
use crate::store::CompressedTable;

verus! {

/// The outcome of a position for its side to move, as the tables
/// registered give it.
pub open spec fn outcome_at(reg: &TableRegistry, s: Pos) -> Outcome {
    outcome_of(probe_spec(reg, s), s.stm as int)
}

pub open spec fn no_legal_move(q: Pos) -> bool {
    forall|m: Mv| !#[trigger] legal(q, m)
}

/// The rule of the game at `q`: mated without a legal move in check; lost in
/// `n` plies if every legal move leads to a win of the other side, the
/// longest in `n - 1`; won in `n` if some legal move leads to a loss of the
/// other side, the shortest in `n - 1`; else drawn.
pub open spec fn rule_holds(reg: &TableRegistry, q: Pos) -> bool {
    match outcome_at(reg, q) {
        Outcome::Loss(n) => if n == 0 {
            no_legal_move(q) && q.in_check(q.stm as int)
        } else {
            &&& !no_legal_move(q)
            &&& forall|m: Mv| #[trigger] legal(q, m) ==> win_below(outcome_at(reg, apply(q, m)), n as int)
            &&& exists|m: Mv| #[trigger] legal(q, m) && outcome_at(reg, apply(q, m)) == Outcome::Win((n - 1) as u32)
        },
        Outcome::Win(n) => {
            &&& n >= 1
            &&& exists|m: Mv| #[trigger] legal(q, m) && outcome_at(reg, apply(q, m)) == Outcome::Loss((n - 1) as u32)
            &&& forall|m: Mv| #[trigger] legal(q, m) ==> (outcome_at(reg, apply(q, m)) matches Outcome::Loss(k) ==> k >= n - 1)
        },
        Outcome::Draw => {
            &&& !(no_legal_move(q) && q.in_check(q.stm as int))
            &&& forall|m: Mv| #[trigger] legal(q, m) ==> !(outcome_at(reg, apply(q, m)) is Loss)
            &&& (no_legal_move(q) || exists|m: Mv| #[trigger] legal(q, m) && !(outcome_at(reg, apply(q, m)) is Win))
        },
    }
}

/// The last digit of the number of a position is its side to move.
pub proof fn lemma_raw_parity(q: Pos)
    requires
        q.stm <= 1,
    ensures
        raw_index(q) % 2 == q.stm,
{
    let r = raw_index(q);
    let w = (r - q.stm) / 2;
    assert(r == w * 2 + q.stm);
}

/// The last digit of an index is the side to move of the position as its
/// table sees it.
pub proof fn lemma_index_parity(p: Pos)
    requires
        p.valid(),
    ensures
        canonical_index(p) % 2 == oriented(p).stm,
{
    lemma_oriented_mirror(p);
    let o = oriented(p);
    let t = lemma_reduced_index(o);
    let q = crate::symmetry::tf_pos(t, o);
    assert(q.stm == o.stm);
    assert(o.stm <= 1);
    lemma_raw_parity(q);
}

/// The index of a valid position stands for a position.
pub proof fn lemma_live_of_valid(s: Pos)
    requires
        s.valid(),
    ensures
        0 <= canonical_index(s) < table_size(canonical_sig(s)),
        live_index(canonical_sig(s), canonical_index(s)),
{
    lemma_oriented_mirror(s);
    let tt = lemma_reduced_index(oriented(s));
    lemma_index_round_trip(s);
}

/// An outcome written as a cell for the side to move of the table's
/// position is read back for the side to move of the position probed.
pub proof fn lemma_outcome_decode(o: Outcome, stm: int, swap: bool)
    requires
        depth(o) < 1000,
        !(o matches Outcome::Win(n) && n == 0),
        stm == 0 || stm == 1,
    ensures
        ({
            let st = if swap {
                1 - stm
            } else {
                stm
            };
            let d = cell_dtm(dtm_cell(dtm_of(o, st)));
            outcome_of(if swap {
                d.flipped()
            } else {
                d
            }, stm) == o
        }),
{
}

/// A solution gives no node a win in no plies.
pub proof fn lemma_solved_win_positive(g: &GameGraph, v: Seq<Outcome>, j: int)
    requires
        g.solved(v),
        0 <= j < v.len(),
    ensures
        !(v[j] matches Outcome::Win(n) && n == 0),
{
    if g.nodes@[j].live {
        assert(node_ok(g.nodes@[j].edges@, g.nodes@[j].check, v, v[j]));
    }
}

/// A registry with one more table knows what it knew, and the new table.
pub proof fn lemma_registry_extended(reg0: &TableRegistry, reg1: &TableRegistry, t: CompressedTable, sg: Seq<int>)
    requires
        reg1.wf(),
        reg1.tables@ == reg0.tables@.push(t),
    ensures
        reg1.has(t.sig@),
        reg1.cells(t.sig@) == t@,
        sg != t.sig@ ==> reg1.has(sg) == reg0.has(sg),
        sg != t.sig@ && reg0.has(sg) ==> reg1.cells(sg) == reg0.cells(sg),
{
    let n = reg0.tables@.len() as int;
    assert(reg1.tables@[n] == t);
    assert(reg1.is_slot(t.sig@, n));
    let s1 = reg1.slot(t.sig@);
    assert(reg1.is_slot(t.sig@, s1));
    if s1 != n {
        assert(reg1.tables@[s1].sig@ != reg1.tables@[n].sig@);
    }
    if sg != t.sig@ {
        if reg0.has(sg) {
            let a = reg0.slot(sg);
            assert(reg0.is_slot(sg, a));
            assert(reg1.tables@[a] == reg0.tables@[a]);
            assert(reg1.is_slot(sg, a));
            let b = reg1.slot(sg);
            assert(reg1.is_slot(sg, b));
            if a < b {
                assert(reg1.tables@[a].sig@ != reg1.tables@[b].sig@);
            }
            if b < a {
                assert(reg1.tables@[b].sig@ != reg1.tables@[a].sig@);
            }
        }
        if reg1.has(sg) {
            let b = reg1.slot(sg);
            assert(reg1.is_slot(sg, b));
            assert(b != n);
            assert(reg1.tables@[b] == reg0.tables@[b]);
            assert(reg0.is_slot(sg, b));
        }
    }
}

/// The probe of a position of the new table, read for its side to move, is
/// the outcome that the solution gives its node.
pub proof fn lemma_outcome_inside(reg1: &TableRegistry, t: CompressedTable, g: &GameGraph, v: Seq<Outcome>, s: Pos)
    requires
        reg1.has(t.sig@),
        reg1.cells(t.sig@) == t@,
        v.len() == table_size(t.sig@),
        g.solved(v),
        shallow(v),
        t@ == cells_of(t.sig@, v),
        s.valid(),
        canonical_sig(s) == t.sig@,
    ensures
        0 <= canonical_index(s) < v.len(),
        outcome_at(reg1, s) == v[canonical_index(s)],
{
    let sig = t.sig@;
    let j = canonical_index(s);
    lemma_live_of_valid(s);
    lemma_index_parity(s);
    lemma_solved_win_positive(g, v, j);
    assert(depth(v[j]) < 1000);
    let swap = needs_swap(s);
    let stm = s.stm as int;
    assert(stm == 0 || stm == 1);
    let st = if swap {
        1 - stm
    } else {
        stm
    };
    assert(oriented(s).stm == st) by {
        lemma_oriented_mirror(s);
    }
    assert(j % 2 == st);
    assert(t@[j] == dtm_cell(dtm_of(v[j], st)));
    lemma_outcome_decode(v[j], stm, swap);
}

/// The outcome behind each edge of a node is the outcome of the position
/// after the move of the edge, as the registry with the new table gives it.
pub proof fn lemma_edge_outcome(
    reg0: &TableRegistry,
    reg1: &TableRegistry,
    t: CompressedTable,
    g: &GameGraph,
    v: Seq<Outcome>,
    q: Pos,
    m: Mv,
)
    requires
        reg1.wf(),
        reg1.tables@ == reg0.tables@.push(t),
        v.len() == table_size(t.sig@),
        g.solved(v),
        shallow(v),
        t@ == cells_of(t.sig@, v),
        q.valid(),
        legal(q, m),
    ensures
        edge_value(v, edge_for(reg0, t.sig@, apply(q, m))) == outcome_at(reg1, apply(q, m)),
{
    let s = apply(q, m);
    lemma_apply_valid(q, m);
    lemma_registry_extended(reg0, reg1, t, canonical_sig(s));
    if canonical_sig(s) == t.sig@ {
        lemma_outcome_inside(reg1, t, g, v, s);
    }
}

/// The edges of a node stand for the legal moves of `q`, and the outcome
/// behind each is the outcome of the position after its move.
pub open spec fn edges_mean(reg: &TableRegistry, q: Pos, moves: Seq<Move>, e: Seq<Edge>, v: Seq<Outcome>) -> bool {
    &&& e.len() == moves.len()
    &&& forall|m: Mv| #[trigger] listed(moves, m) <==> legal(q, m)
    &&& forall|k: int| 0 <= k < e.len() ==> #[trigger] val(v, e, k) == outcome_at(reg, apply(q, moves[k]@))
}

/// A move that is legal is the move of some edge.
pub proof fn lemma_edge_of_move(reg: &TableRegistry, q: Pos, moves: Seq<Move>, e: Seq<Edge>, v: Seq<Outcome>, m: Mv) -> (k: int)
    requires
        edges_mean(reg, q, moves, e, v),
        legal(q, m),
    ensures
        0 <= k < e.len(),
        moves[k]@ == m,
        val(v, e, k) == outcome_at(reg, apply(q, m)),
{
    assert(listed(moves, m));
    let k = choose|k: int| 0 <= k < moves.len() && (#[trigger] moves[k])@ == m;
    k
}

/// The move of an edge is legal.
pub proof fn lemma_move_of_edge(reg: &TableRegistry, q: Pos, moves: Seq<Move>, e: Seq<Edge>, v: Seq<Outcome>, k: int)
    requires
        edges_mean(reg, q, moves, e, v),
        0 <= k < e.len(),
    ensures
        legal(q, moves[k]@),
        val(v, e, k) == outcome_at(reg, apply(q, moves[k]@)),
{
    assert(listed(moves, moves[k]@));
}

/// What the outcomes behind the edges make of a node, the rule of the game
/// makes of its position.
pub proof fn lemma_rule_from_node(reg: &TableRegistry, q: Pos, moves: Seq<Move>, e: Seq<Edge>, check: bool, v: Seq<Outcome>)
    requires
        edges_mean(reg, q, moves, e, v),
        check == q.in_check(q.stm as int),
        node_ok(e, check, v, outcome_at(reg, q)),
    ensures
        rule_holds(reg, q),
{
    let x = outcome_at(reg, q);
    if e.len() == 0 {
        assert forall|m: Mv| !#[trigger] legal(q, m) by {
            if legal(q, m) {
                let k = lemma_edge_of_move(reg, q, moves, e, v, m);
            }
        }
    } else {
        lemma_move_of_edge(reg, q, moves, e, v, 0);
    }
    match x {
        Outcome::Loss(n) => {
            if n > 0 {
                let k0 = choose|k: int| 0 <= k < e.len() && #[trigger] val(v, e, k) == Outcome::Win((n - 1) as u32);
                lemma_move_of_edge(reg, q, moves, e, v, k0);
                assert forall|m: Mv| #[trigger] legal(q, m) implies win_below(outcome_at(reg, apply(q, m)), n as int) by {
                    let k = lemma_edge_of_move(reg, q, moves, e, v, m);
                    assert(win_below(val(v, e, k), n as int));
                }
            }
        },
        Outcome::Win(n) => {
            let k0 = choose|k: int| 0 <= k < e.len() && #[trigger] val(v, e, k) == Outcome::Loss((n - 1) as u32);
            lemma_move_of_edge(reg, q, moves, e, v, k0);
            assert forall|m: Mv| #[trigger] legal(q, m) implies (outcome_at(reg, apply(q, m)) matches Outcome::Loss(k) ==> k >= n - 1) by {
                let k = lemma_edge_of_move(reg, q, moves, e, v, m);
                assert(val(v, e, k) matches Outcome::Loss(kk) ==> kk >= n - 1);
            }
        },
        Outcome::Draw => {
            assert forall|m: Mv| #[trigger] legal(q, m) implies !(outcome_at(reg, apply(q, m)) is Loss) by {
                let k = lemma_edge_of_move(reg, q, moves, e, v, m);
                assert(val(v, e, k) matches Outcome::Loss(kk) ==> kk >= 0x1_0000_0000);
            }
            if e.len() > 0 {
                assert(!all_win_below(v, e, 0x1_0000_0000));
                let k1 = choose|k: int| 0 <= k < e.len() && !win_below(#[trigger] val(v, e, k), 0x1_0000_0000);
                lemma_move_of_edge(reg, q, moves, e, v, k1);
            }
        },
    }
}

/// The meaning of a generated table: with the table registered behind the
/// tables it was generated over, the rule of the game holds at every
/// position that an index of the table stands for.
pub proof fn lemma_generated_rule(
    reg0: &TableRegistry,
    reg1: &TableRegistry,
    t: CompressedTable,
    g: &GameGraph,
    v: Seq<Outcome>,
    i: int,
)
    requires
        reg1.wf(),
        reg1.tables@ == reg0.tables@.push(t),
        table_fits(&t),
        graph_of(g, reg0, t.sig@),
        g.solved(v),
        shallow(v),
        t@ == cells_of(t.sig@, v),
        0 <= i < table_size(t.sig@),
        live_index(t.sig@, i),
    ensures
        rule_holds(reg1, index_pos(t.sig@, i)),
{
    let sig = t.sig@;
    let q = index_pos(sig, i);
    let node = g.nodes@[i];
    assert(node_matches(reg0, sig, i, node));
    let e = node.edges@;
    let moves = choose|moves: Seq<Move>| edges_match(reg0, sig, q, moves, e);
    assert(edges_match(reg0, sig, q, moves, e));
    lemma_registry_extended(reg0, reg1, t, sig);
    lemma_outcome_inside(reg1, t, g, v, q);
    assert(node_ok(e, node.check, v, v[i]));
    assert forall|k: int| 0 <= k < e.len() implies #[trigger] val(v, e, k) == outcome_at(reg1, apply(q, moves[k]@)) by {
        assert(listed(moves, moves[k]@));
        lemma_edge_outcome(reg0, reg1, t, g, v, q, moves[k]@);
    }
    assert(edges_mean(reg1, q, moves, e, v));
    lemma_rule_from_node(reg1, q, moves, e, node.check, v);
}

/// Two lists of edges for the same legal moves lead to the same outcomes.
pub proof fn lemma_same_edges(
    reg: &TableRegistry,
    sig: Seq<int>,
    q: Pos,
    m1: Seq<Move>,
    e1: Seq<Edge>,
    m2: Seq<Move>,
    e2: Seq<Edge>,
    v: Seq<Outcome>,
    k: int,
) -> (j: int)
    requires
        edges_match(reg, sig, q, m1, e1),
        edges_match(reg, sig, q, m2, e2),
        0 <= k < e1.len(),
    ensures
        0 <= j < e2.len(),
        val(v, e2, j) == val(v, e1, k),
{
    let m = m1[k]@;
    assert(listed(m1, m));
    assert(listed(m2, m));
    let j = choose|j: int| 0 <= j < m2.len() && (#[trigger] m2[j])@ == m;
    assert(e1[k] == edge_for(reg, sig, apply(q, m1[k]@)));
    assert(e2[j] == edge_for(reg, sig, apply(q, m2[j]@)));
    j
}

/// What the outcomes make of a node does not depend on the order of its
/// edges.
pub proof fn lemma_node_ok_same(
    reg: &TableRegistry,
    sig: Seq<int>,
    q: Pos,
    m1: Seq<Move>,
    e1: Seq<Edge>,
    m2: Seq<Move>,
    e2: Seq<Edge>,
    check: bool,
    v: Seq<Outcome>,
    x: Outcome,
)
    requires
        edges_match(reg, sig, q, m1, e1),
        edges_match(reg, sig, q, m2, e2),
        node_ok(e1, check, v, x),
    ensures
        node_ok(e2, check, v, x),
{
    if e1.len() > 0 {
        let j = lemma_same_edges(reg, sig, q, m1, e1, m2, e2, v, 0);
    }
    if e2.len() > 0 {
        let j = lemma_same_edges(reg, sig, q, m2, e2, m1, e1, v, 0);
    }
    match x {
        Outcome::Loss(n) => {
            if n > 0 {
                let k0 = choose|k: int| 0 <= k < e1.len() && #[trigger] val(v, e1, k) == Outcome::Win((n - 1) as u32);
                let j0 = lemma_same_edges(reg, sig, q, m1, e1, m2, e2, v, k0);
                assert forall|k: int| 0 <= k < e2.len() implies win_below(#[trigger] val(v, e2, k), n as int) by {
                    let j = lemma_same_edges(reg, sig, q, m2, e2, m1, e1, v, k);
                    assert(win_below(val(v, e1, j), n as int));
                }
            }
        },
        Outcome::Win(n) => {
            let k0 = choose|k: int| 0 <= k < e1.len() && #[trigger] val(v, e1, k) == Outcome::Loss((n - 1) as u32);
            let j0 = lemma_same_edges(reg, sig, q, m1, e1, m2, e2, v, k0);
            assert forall|k: int| 0 <= k < e2.len() implies (#[trigger] val(v, e2, k) matches Outcome::Loss(kk) ==> kk >= n - 1) by {
                let j = lemma_same_edges(reg, sig, q, m2, e2, m1, e1, v, k);
                assert(val(v, e1, j) matches Outcome::Loss(kk) ==> kk >= n - 1);
            }
        },
        Outcome::Draw => {
            assert forall|k: int| 0 <= k < e2.len() implies (#[trigger] val(v, e2, k) matches Outcome::Loss(kk) ==> kk >= 0x1_0000_0000) by {
                let j = lemma_same_edges(reg, sig, q, m2, e2, m1, e1, v, k);
                assert(val(v, e1, j) matches Outcome::Loss(kk) ==> kk >= 0x1_0000_0000);
            }
            if e2.len() > 0 && all_win_below(v, e2, 0x1_0000_0000) {
                assert forall|k: int| 0 <= k < e1.len() implies win_below(#[trigger] val(v, e1, k), 0x1_0000_0000) by {
                    let j = lemma_same_edges(reg, sig, q, m1, e1, m2, e2, v, k);
                    assert(win_below(val(v, e2, j), 0x1_0000_0000));
                }
                assert(false);
            }
        },
    }
}

/// Determinism: two generations of the table of a signature over the same
/// tables give the same outcomes, and so the same cells.
pub proof fn lemma_generation_deterministic(
    reg: &TableRegistry,
    sig: Seq<int>,
    g1: &GameGraph,
    v1: Seq<Outcome>,
    g2: &GameGraph,
    v2: Seq<Outcome>,
)
    requires
        graph_of(g1, reg, sig),
        graph_of(g2, reg, sig),
        g1.solved(v1),
        g2.solved(v2),
    ensures
        v1 == v2,
        cells_of(sig, v1) == cells_of(sig, v2),
{
    assert forall|i: int| 0 <= i < v1.len() implies if g2.nodes@[i].live {
        node_ok(g2.nodes@[i].edges@, g2.nodes@[i].check, v1, #[trigger] v1[i])
    } else {
        v1[i] == Outcome::Draw
    } by {
        let q = index_pos(sig, i);
        assert(node_matches(reg, sig, i, g1.nodes@[i]));
        assert(node_matches(reg, sig, i, g2.nodes@[i]));
        if g1.nodes@[i].live {
            let e1 = g1.nodes@[i].edges@;
            let e2 = g2.nodes@[i].edges@;
            let m1 = choose|moves: Seq<Move>| edges_match(reg, sig, q, moves, e1);
            let m2 = choose|moves: Seq<Move>| edges_match(reg, sig, q, moves, e2);
            assert(node_ok(e1, g1.nodes@[i].check, v1, v1[i]));
            lemma_node_ok_same(reg, sig, q, m1, e1, m2, e2, g1.nodes@[i].check, v1, v1[i]);
        }
    }
    assert(g2.solved(v1));
    crate::unique::lemma_solution_unique(g2, v1, v2);
}

} // verus!
