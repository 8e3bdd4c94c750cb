//! A game graph has one solution only: generation is deterministic.
use vstd::prelude::*;
use crate::solver::{
    all_win_below, depth, edge_value, no_loss_below, node_ok, some_edge_is, val, win_below, Edge,
    GameGraph, Outcome,
};

verus! {

/// Two solutions agree on every node that either decides in fewer than `d`
/// plies.
pub open spec fn agree_below(v1: Seq<Outcome>, v2: Seq<Outcome>, d: int) -> bool {
    forall|i: int| 0 <= i < v1.len() ==> (#[trigger] v1[i] != Outcome::Draw && depth(v1[i]) < d ==> v2[i] == v1[i])
}

/// What the first solution decides at depth `d` the second decides alike,
/// if the two agree below `d`.
pub proof fn lemma_agree_step(g: &GameGraph, v1: Seq<Outcome>, v2: Seq<Outcome>, d: int, i: int)
    requires
        g.solved(v1),
        g.solved(v2),
        agree_below(v1, v2, d),
        agree_below(v2, v1, d),
        0 <= i < v1.len(),
        v1[i] != Outcome::Draw,
        depth(v1[i]) == d,
    ensures
        v2[i] == v1[i],
{
    let e = g.nodes@[i].edges@;
    let c = g.nodes@[i].check;
    assert(g.nodes@[i].live);
    assert(node_ok(e, c, v1, v1[i]));
    assert(node_ok(e, c, v2, v2[i]));
    assert forall|k: int| 0 <= k < e.len() && #[trigger] val(v1, e, k) != Outcome::Draw && depth(val(v1, e, k)) < d implies val(v2, e, k) == val(v1, e, k) by {
        match e[k] {
            Edge::Inner(j) => {
                if j < v1.len() {
                    assert(v1[j as int] != Outcome::Draw && depth(v1[j as int]) < d ==> v2[j as int] == v1[j as int]);
                }
            },
            Edge::Outer(o) => {},
        }
    }
    assert forall|k: int| 0 <= k < e.len() && #[trigger] val(v2, e, k) != Outcome::Draw && depth(val(v2, e, k)) < d implies val(v1, e, k) == val(v2, e, k) by {
        match e[k] {
            Edge::Inner(j) => {
                if j < v1.len() {
                    assert(v2[j as int] != Outcome::Draw && depth(v2[j as int]) < d ==> v1[j as int] == v2[j as int]);
                }
            },
            Edge::Outer(o) => {},
        }
    }
    match v1[i] {
        Outcome::Draw => {},
        Outcome::Win(n) => {
            let k0 = choose|k: int| 0 <= k < e.len() && #[trigger] val(v1, e, k) == Outcome::Loss((n - 1) as u32);
            assert(val(v2, e, k0) == Outcome::Loss((n - 1) as u32));
            match v2[i] {
                Outcome::Draw => {
                    assert(false);
                },
                Outcome::Loss(m) => {
                    if m > 0 {
                        assert(win_below(val(v2, e, k0), m as int));
                    }
                    assert(false);
                },
                Outcome::Win(n2) => {
                    let k2 = choose|k: int| 0 <= k < e.len() && #[trigger] val(v2, e, k) == Outcome::Loss((n2 - 1) as u32);
                    if n2 < n {
                        assert(val(v1, e, k2) == Outcome::Loss((n2 - 1) as u32));
                        assert(false);
                    }
                    assert(val(v2, e, k0) matches Outcome::Loss(mm) ==> mm >= n2 - 1);
                },
            }
        },
        Outcome::Loss(n) => {
            if n == 0 {
                match v2[i] {
                    Outcome::Win(n2) => {
                        let k2 = choose|k: int| 0 <= k < e.len() && #[trigger] val(v2, e, k) == Outcome::Loss((n2 - 1) as u32);
                        assert(false);
                    },
                    _ => {},
                }
            } else {
                let kmax = choose|k: int| 0 <= k < e.len() && #[trigger] val(v1, e, k) == Outcome::Win((n - 1) as u32);
                assert forall|k: int| 0 <= k < e.len() implies #[trigger] val(v2, e, k) == val(v1, e, k) && win_below(val(v1, e, k), n as int) by {
                    assert(win_below(val(v1, e, k), n as int));
                }
                match v2[i] {
                    Outcome::Draw => {
                        assert forall|k: int| 0 <= k < e.len() implies win_below(#[trigger] val(v2, e, k), 0x1_0000_0000) by {
                            assert(val(v2, e, k) == val(v1, e, k));
                        }
                        assert(false);
                    },
                    Outcome::Win(n2) => {
                        let k2 = choose|k: int| 0 <= k < e.len() && #[trigger] val(v2, e, k) == Outcome::Loss((n2 - 1) as u32);
                        assert(val(v2, e, k2) == val(v1, e, k2));
                        assert(false);
                    },
                    Outcome::Loss(m) => {
                        if m == 0 {
                            assert(false);
                        }
                        assert(win_below(val(v2, e, kmax), m as int));
                        let k3 = choose|k: int| 0 <= k < e.len() && #[trigger] val(v2, e, k) == Outcome::Win((m - 1) as u32);
                        assert(val(v2, e, k3) == val(v1, e, k3));
                        assert(win_below(val(v1, e, k3), n as int));
                    },
                }
            }
        },
    }
}

/// Two solutions agree on every node that either decides in fewer than `d`
/// plies, for every `d`.
pub proof fn lemma_agree(g: &GameGraph, v1: Seq<Outcome>, v2: Seq<Outcome>, d: int)
    requires
        g.solved(v1),
        g.solved(v2),
        d >= 0,
    ensures
        agree_below(v1, v2, d),
        agree_below(v2, v1, d),
    decreases d,
{
    if d > 0 {
        lemma_agree(g, v1, v2, d - 1);
        assert forall|i: int| 0 <= i < v1.len() && #[trigger] v1[i] != Outcome::Draw && depth(v1[i]) < d implies v2[i] == v1[i] by {
            if v1[i] != Outcome::Draw && depth(v1[i]) == d - 1 {
                lemma_agree_step(g, v1, v2, d - 1, i);
            }
        }
        assert forall|i: int| 0 <= i < v2.len() && #[trigger] v2[i] != Outcome::Draw && depth(v2[i]) < d implies v1[i] == v2[i] by {
            if v2[i] != Outcome::Draw && depth(v2[i]) == d - 1 {
                lemma_agree_step(g, v2, v1, d - 1, i);
            }
        }
    }
}

/// Determinism: whatever solves a game graph is the same assignment of
/// outcomes, so two generations of one table give the same cells.
pub proof fn lemma_solution_unique(g: &GameGraph, v1: Seq<Outcome>, v2: Seq<Outcome>)
    requires
        g.solved(v1),
        g.solved(v2),
    ensures
        v1 == v2,
{
    assert forall|i: int| 0 <= i < v1.len() implies v1[i] == v2[i] by {
        if v1[i] != Outcome::Draw {
            lemma_agree(g, v1, v2, depth(v1[i]) + 1);
        } else if v2[i] != Outcome::Draw {
            lemma_agree(g, v1, v2, depth(v2[i]) + 1);
        }
    }
    assert(v1 =~= v2);
}

} // verus!
