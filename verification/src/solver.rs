//! Retrograde analysis on a game graph: from the mates backwards, pass by
//! pass, until nothing changes.
//!
//! A node is a position with the side to move; an edge leads to the position
//! after a legal move, inside the graph or outside it (a position of another
//! table, whose outcome is known). Outcomes are seen from the side to move.
use vstd::prelude::*;

verus! {

/// The outcome for the side to move: a draw, a win in so many plies, or a
/// loss in so many plies (0: mated).
#[derive(Clone, Copy, Debug, PartialEq, Eq, Structural)]
pub enum Outcome {
    Draw,
    Win(u32),
    Loss(u32),
}

/// Where a move leads: to a node of the graph, or out of it to a position
/// with a known outcome for the side to move there.
#[derive(Clone, Copy, Debug)]
pub enum Edge {
    Inner(usize),
    Outer(Outcome),
}

pub struct Node {
    /// Whether the node stands for a position at all.
    pub live: bool,
    /// Whether the side to move is in check.
    pub check: bool,
    pub edges: Vec<Edge>,
}

pub struct GameGraph {
    pub nodes: Vec<Node>,
}

pub open spec fn depth(o: Outcome) -> int {
    match o {
        Outcome::Draw => 0,
        Outcome::Win(n) => n as int,
        Outcome::Loss(n) => n as int,
    }
}

/// The outcome at the end of an edge.
pub open spec fn edge_value(v: Seq<Outcome>, e: Edge) -> Outcome {
    match e {
        Edge::Inner(j) => if j < v.len() {
            v[j as int]
        } else {
            Outcome::Draw
        },
        Edge::Outer(o) => o,
    }
}

/// The outcome after the `k`-th move.
pub open spec fn val(v: Seq<Outcome>, edges: Seq<Edge>, k: int) -> Outcome {
    edge_value(v, edges[k])
}

/// A win for the side to move there in fewer than `d` plies.
pub open spec fn win_below(o: Outcome, d: int) -> bool {
    o matches Outcome::Win(m) && m < d
}

/// Every move leads to a win of the other side in fewer than `d` plies.
pub open spec fn all_win_below(v: Seq<Outcome>, edges: Seq<Edge>, d: int) -> bool {
    forall|k: int| 0 <= k < edges.len() ==> win_below(#[trigger] val(v, edges, k), d)
}

/// Some move leads to the outcome `o`.
pub open spec fn some_edge_is(v: Seq<Outcome>, edges: Seq<Edge>, o: Outcome) -> bool {
    exists|k: int| 0 <= k < edges.len() && #[trigger] val(v, edges, k) == o
}

/// No move leads to a loss of the other side in fewer than `d` plies.
pub open spec fn no_loss_below(v: Seq<Outcome>, edges: Seq<Edge>, d: int) -> bool {
    forall|k: int| 0 <= k < edges.len() ==> (#[trigger] val(v, edges, k) matches Outcome::Loss(m) ==> m >= d)
}

/// The outcome `x` is what the outcomes after the moves make of the node:
/// mated without a move in check; lost in `n` if every move leads to a win
/// of the other side, the longest in `n - 1`; won in `n` if some move leads
/// to a loss of the other side, the shortest in `n - 1`; else drawn.
pub open spec fn node_ok(edges: Seq<Edge>, check: bool, v: Seq<Outcome>, x: Outcome) -> bool {
    match x {
        Outcome::Loss(n) => if n == 0 {
            edges.len() == 0 && check
        } else {
            edges.len() > 0 && all_win_below(v, edges, n as int) && some_edge_is(v, edges, Outcome::Win((n - 1) as u32))
        },
        Outcome::Win(n) => n >= 1 && some_edge_is(v, edges, Outcome::Loss((n - 1) as u32)) && no_loss_below(
            v,
            edges,
            n - 1,
        ),
        Outcome::Draw => !(edges.len() == 0 && check) && no_loss_below(v, edges, 0x1_0000_0000) && !(edges.len() > 0
            && all_win_below(v, edges, 0x1_0000_0000)),
    }
}

/// A node not yet decided after the passes up to `d`: not mated, no move
/// to a loss of the other side in fewer than `d` plies, and not every move
/// to a win of the other side in fewer than `d` plies.
pub open spec fn open_ok(edges: Seq<Edge>, check: bool, v: Seq<Outcome>, d: int) -> bool {
    &&& !(edges.len() == 0 && check)
    &&& no_loss_below(v, edges, d)
    &&& !(edges.len() > 0 && all_win_below(v, edges, d))
}

impl GameGraph {
    /// The outcomes solve the graph: each live node has the outcome that the
    /// outcomes after its moves make of it, each other node is a draw.
    pub open spec fn solved(&self, v: Seq<Outcome>) -> bool {
        &&& v.len() == self.nodes@.len()
        &&& forall|i: int| 0 <= i < v.len() ==> if self.nodes@[i].live {
            node_ok(self.nodes@[i].edges@, self.nodes@[i].check, v, #[trigger] v[i])
        } else {
            v[i] == Outcome::Draw
        }
    }

    /// The state after the passes up to `d`, with the nodes below `done`
    /// already seen by pass `d + 1`.
    pub open spec fn level(&self, v: Seq<Outcome>, d: int, done: int) -> bool {
        &&& v.len() == self.nodes@.len()
        &&& forall|i: int| 0 <= i < v.len() ==> depth(#[trigger] v[i]) <= if done > 0 {
            d + 1
        } else {
            d
        }
        &&& forall|i: int| 0 <= i < v.len() ==> if !self.nodes@[i].live {
            #[trigger] v[i] == Outcome::Draw
        } else if v[i] != Outcome::Draw {
            node_ok(self.nodes@[i].edges@, self.nodes@[i].check, v, v[i])
        } else {
            open_ok(self.nodes@[i].edges@, self.nodes@[i].check, v, if i < done {
                d + 1
            } else {
                d
            })
        }
    }

    /// No edge that leads out carries an outcome deeper than `omax`.
    pub open spec fn outer_within(&self, omax: int) -> bool {
        forall|i: int, k: int| 0 <= i < self.nodes@.len() && 0 <= k < self.nodes@[i].edges@.len() ==> (
        #[trigger] self.nodes@[i].edges@[k] matches Edge::Outer(o) ==> depth(o) <= omax)
    }
}

/// How many of the first `n` outcomes are draws.
pub open spec fn count_draw(v: Seq<Outcome>, n: int) -> int
    decreases n,
{
    if n <= 0 {
        0
    } else {
        count_draw(v, n - 1) + if v[n - 1] == Outcome::Draw {
            1int
        } else {
            0int
        }
    }
}

pub proof fn lemma_count_draw_update(v: Seq<Outcome>, i: int, x: Outcome, n: int)
    requires
        0 <= i < v.len(),
        0 <= n <= v.len(),
        v[i] == Outcome::Draw,
        x != Outcome::Draw,
    ensures
        count_draw(v.update(i, x), n) == count_draw(v, n) - if i < n {
            1int
        } else {
            0int
        },
        0 <= count_draw(v, n) <= n,
        i < n ==> count_draw(v, n) >= 1,
    decreases n,
{
    if n > 0 {
        if i < n - 1 {
            lemma_count_draw_update(v, i, x, n - 1);
        } else {
            lemma_count_draw_range(v, n - 1);
            lemma_count_draw_frame(v, i, x, n - 1);
        }
    }
}

pub proof fn lemma_count_draw_range(v: Seq<Outcome>, n: int)
    ensures
        0 <= count_draw(v, n),
        n >= 0 ==> count_draw(v, n) <= n,
    decreases n,
{
    if n > 0 {
        lemma_count_draw_range(v, n - 1);
    }
}

pub proof fn lemma_count_draw_frame(v: Seq<Outcome>, i: int, x: Outcome, n: int)
    requires
        0 <= n <= i < v.len(),
    ensures
        count_draw(v.update(i, x), n) == count_draw(v, n),
    decreases n,
{
    if n > 0 {
        lemma_count_draw_frame(v, i, x, n - 1);
    }
}

/// Deciding a node changes the outcome after a move only where the move
/// leads to that node.
pub proof fn lemma_val_update(v: Seq<Outcome>, i: int, x: Outcome, edges: Seq<Edge>, k: int)
    requires
        0 <= i < v.len(),
        0 <= k < edges.len(),
    ensures
        val(v.update(i, x), edges, k) == if edges[k] matches Edge::Inner(j) && j == i {
            x
        } else {
            val(v, edges, k)
        },
{
}

/// Deciding one open node, in pass `d`, as that pass decides, leaves every
/// other node as the passes want it.
pub proof fn lemma_decide_keeps(g: &GameGraph, v: Seq<Outcome>, d: int, done: int, i: int, x: Outcome, j: int)
    requires
        g.level(v, d - 1, done),
        d >= 1,
        0 <= i < v.len(),
        0 <= j < v.len(),
        j != i,
        v[i] == Outcome::Draw,
        x == Outcome::Win(d as u32) || x == Outcome::Loss(d as u32),
        d < 0x1_0000_0000,
        g.nodes@[j].live,
    ensures
        v[j] != Outcome::Draw ==> node_ok(g.nodes@[j].edges@, g.nodes@[j].check, v.update(i, x), v[j]),
        v[j] == Outcome::Draw ==> open_ok(
            g.nodes@[j].edges@,
            g.nodes@[j].check,
            v.update(i, x),
            if j < done {
                d
            } else {
                d - 1
            },
        ),
{
    let e = g.nodes@[j].edges@;
    let c = g.nodes@[j].check;
    let w = v.update(i, x);
    assert forall|k: int| 0 <= k < e.len() implies #[trigger] val(w, e, k) == if e[k] matches Edge::Inner(t) && t == i {
        x
    } else {
        val(v, e, k)
    } by {
        lemma_val_update(v, i, x, e, k);
    }
    assert forall|k: int| 0 <= k < e.len() && (e[k] matches Edge::Inner(t) && t == i) implies #[trigger] val(v, e, k) == Outcome::Draw by {
    }
    assert(depth(v[j]) <= d);
    match v[j] {
        Outcome::Draw => {
            let dd = if j < done {
                d
            } else {
                d - 1
            };
            assert(open_ok(e, c, v, dd));
            assert(no_loss_below(w, e, dd)) by {
                assert forall|k: int| 0 <= k < e.len() implies (#[trigger] val(w, e, k) matches Outcome::Loss(m) ==> m >= dd) by {
                    let a = val(v, e, k);
                }
            }
            if e.len() > 0 && all_win_below(w, e, dd) {
                assert forall|k: int| 0 <= k < e.len() implies win_below(#[trigger] val(v, e, k), dd) by {
                    let a = val(w, e, k);
                    assert(win_below(a, dd));
                }
                assert(false);
            }
        },
        Outcome::Win(n) => {
            assert(node_ok(e, c, v, v[j]));
            let k0 = choose|k: int| 0 <= k < e.len() && #[trigger] val(v, e, k) == Outcome::Loss((n - 1) as u32);
            assert(val(w, e, k0) == Outcome::Loss((n - 1) as u32));
            assert forall|k: int| 0 <= k < e.len() implies (#[trigger] val(w, e, k) matches Outcome::Loss(m) ==> m >= n - 1) by {
                let a = val(v, e, k);
            }
        },
        Outcome::Loss(n) => {
            assert(node_ok(e, c, v, v[j]));
            if n > 0 {
                let k0 = choose|k: int| 0 <= k < e.len() && #[trigger] val(v, e, k) == Outcome::Win((n - 1) as u32);
                assert(val(w, e, k0) == Outcome::Win((n - 1) as u32));
                assert forall|k: int| 0 <= k < e.len() implies win_below(#[trigger] val(w, e, k), n as int) by {
                    let a = val(v, e, k);
                    assert(win_below(a, n as int));
                }
            }
        },
    }
}

/// The outcome at the end of an edge.
pub fn value_of_edge(v: &Vec<Outcome>, e: Edge) -> (o: Outcome)
    ensures
        o == edge_value(v@, e),
{
    match e {
        Edge::Inner(j) => if j < v.len() {
            v[j]
        } else {
            Outcome::Draw
        },
        Edge::Outer(o) => o,
    }
}

/// Whether some move leads to a loss of the other side in exactly `d - 1`
/// plies, and whether every move leads to a win of the other side in fewer
/// than `d` plies.
pub fn scan_edges(edges: &Vec<Edge>, v: &Vec<Outcome>, d: u32) -> (r: (bool, bool))
    requires
        d >= 1,
    ensures
        r.0 == some_edge_is(v@, edges@, Outcome::Loss((d - 1) as u32)),
        r.1 == all_win_below(v@, edges@, d as int),
{
    let mut found: bool = false;
    let mut all: bool = true;
    let mut k: usize = 0;
    let ghost mut wit: int = 0;
    let ghost mut bad: int = 0;
    while k < edges.len()
        invariant
            0 <= k <= edges@.len(),
            d >= 1,
            found ==> 0 <= wit < k && val(v@, edges@, wit) == Outcome::Loss((d - 1) as u32),
            !found ==> forall|t: int| 0 <= t < k ==> #[trigger] val(v@, edges@, t) != Outcome::Loss((d - 1) as u32),
            all ==> forall|t: int| 0 <= t < k ==> win_below(#[trigger] val(v@, edges@, t), d as int),
            !all ==> 0 <= bad < k && !win_below(val(v@, edges@, bad), d as int),
        decreases edges@.len() - k,
    {
        let o = value_of_edge(v, edges[k]);
        match o {
            Outcome::Loss(m) => {
                if m == d - 1 {
                    found = true;
                    proof {
                        wit = k as int;
                    }
                }
                if all {
                    proof {
                        bad = k as int;
                    }
                }
                all = false;
            },
            Outcome::Win(m) => {
                if m >= d {
                    if all {
                        proof {
                            bad = k as int;
                        }
                    }
                    all = false;
                }
            },
            Outcome::Draw => {
                if all {
                    proof {
                        bad = k as int;
                    }
                }
                all = false;
            },
        }
        k = k + 1;
    }
    (found, all)
}

/// One pass: every open node with a move to a loss of the other side in
/// `d - 1` plies becomes a win in `d`; every other open node all of whose
/// moves lead to wins of the other side in fewer than `d` plies becomes a
/// loss in `d`.
pub fn pass(g: &GameGraph, v: &mut Vec<Outcome>, d: u32) -> (changed: bool)
    requires
        g.level(old(v)@, d - 1, 0),
        1 <= d < 0xffff_ffff,
    ensures
        g.level(final(v)@, d as int, 0),
        !changed ==> final(v)@ == old(v)@,
        changed ==> count_draw(final(v)@, old(v)@.len() as int) < count_draw(old(v)@, old(v)@.len() as int),
{
    let n = g.nodes.len();
    let mut changed = false;
    let mut i: usize = 0;
    let ghost v0 = v@;
    while i < n
        invariant
            0 <= i <= n,
            n == g.nodes@.len(),
            v@.len() == n,
            v0.len() == n,
            1 <= d < 0xffff_ffff,
            g.level(v@, d - 1, i as int),
            !changed ==> v@ == v0,
            changed ==> count_draw(v@, n as int) < count_draw(v0, n as int),
        decreases n - i,
    {
        let node = &g.nodes[i];
        let ghost e = node.edges@;
        let ghost c = node.check;
        let ghost before = v@;
        let mut decided: Option<Outcome> = None;
        if node.live {
            match v[i] {
                Outcome::Draw => {
                    let (found, all) = scan_edges(&node.edges, v, d);
                    proof {
                        assert(open_ok(e, c, before, d - 1));
                    }
                    if found {
                        decided = Some(Outcome::Win(d));
                    } else if all && node.edges.len() > 0 {
                        decided = Some(Outcome::Loss(d));
                    } else {
                        proof {
                            assert(no_loss_below(before, e, d as int)) by {
                                assert forall|k: int| 0 <= k < e.len() implies (#[trigger] val(before, e, k) matches Outcome::Loss(m) ==> m >= d) by {
                                    let a = val(before, e, k);
                                    assert(a != Outcome::Loss((d - 1) as u32));
                                    assert(a matches Outcome::Loss(m) ==> m >= d - 1);
                                }
                            }
                            assert(open_ok(e, c, before, d as int));
                        }
                    }
                },
                _ => {},
            }
        }
        match decided {
            Some(x) => {
                v[i] = x;
                proof {
                    let w = v@;
                    assert(w == before.update(i as int, x));
                    lemma_count_draw_update(before, i as int, x, n as int);
                    assert forall|k: int| 0 <= k < e.len() implies #[trigger] val(w, e, k) == if e[k] matches Edge::Inner(t) && t == i {
                        x
                    } else {
                        val(before, e, k)
                    } by {
                        lemma_val_update(before, i as int, x, e, k);
                    }
                    assert forall|k: int| 0 <= k < e.len() && (e[k] matches Edge::Inner(t) && t == i) implies #[trigger] val(before, e, k) == Outcome::Draw by {
                    }
                    if x == Outcome::Win(d) {
                        let k0 = choose|k: int| 0 <= k < e.len() && #[trigger] val(before, e, k) == Outcome::Loss((d - 1) as u32);
                        assert(val(w, e, k0) == Outcome::Loss((d - 1) as u32));
                        assert forall|k: int| 0 <= k < e.len() implies (#[trigger] val(w, e, k) matches Outcome::Loss(m) ==> m >= d - 1) by {
                            let a = val(before, e, k);
                        }
                        assert(node_ok(e, c, w, x));
                    } else {
                        assert forall|k: int| 0 <= k < e.len() implies win_below(#[trigger] val(w, e, k), d as int) by {
                            let a = val(before, e, k);
                            assert(win_below(a, d as int));
                        }
                        assert(!all_win_below(before, e, d - 1));
                        let k1 = choose|k: int| 0 <= k < e.len() && !win_below(#[trigger] val(before, e, k), d - 1);
                        assert(win_below(val(before, e, k1), d as int));
                        assert(val(w, e, k1) == Outcome::Win((d - 1) as u32));
                        assert(node_ok(e, c, w, x));
                    }
                    assert forall|j: int| 0 <= j < w.len() implies if !g.nodes@[j].live {
                        #[trigger] w[j] == Outcome::Draw
                    } else if w[j] != Outcome::Draw {
                        node_ok(g.nodes@[j].edges@, g.nodes@[j].check, w, w[j])
                    } else {
                        open_ok(g.nodes@[j].edges@, g.nodes@[j].check, w, if j < i + 1 {
                            d as int
                        } else {
                            d - 1
                        })
                    } by {
                        if j != i {
                            assert(before[j] == w[j]);
                            if g.nodes@[j].live {
                                lemma_decide_keeps(g, before, d as int, i as int, i as int, x, j);
                            }
                        }
                    }
                    assert forall|j: int| 0 <= j < w.len() implies depth(#[trigger] w[j]) <= d by {
                        if j != i {
                            assert(depth(before[j]) <= d);
                        }
                    }
                    lemma_count_draw_range(v0, n as int);
                }
                changed = true;
            },
            None => {
                proof {
                    assert forall|j: int| 0 <= j < before.len() implies depth(#[trigger] before[j]) <= d by {
                    }
                }
            },
        }
        i = i + 1;
    }
    proof {
        let w = v@;
        assert forall|j: int| 0 <= j < w.len() implies depth(#[trigger] w[j]) <= d by {
        }
    }
    changed
}

/// When a pass at a depth beyond every outcome outside the graph changes
/// nothing, the outcomes solve the graph.
pub proof fn lemma_fixpoint(g: &GameGraph, v: Seq<Outcome>, d: int, omax: int)
    requires
        g.level(v, d - 1, 0),
        g.level(v, d, 0),
        g.outer_within(omax),
        omax < d < 0x1_0000_0000,
    ensures
        g.solved(v),
{
    assert forall|i: int| 0 <= i < v.len() && g.nodes@[i].live && v[i] == Outcome::Draw implies node_ok(
        g.nodes@[i].edges@,
        g.nodes@[i].check,
        v,
        #[trigger] v[i],
    ) by {
        let e = g.nodes@[i].edges@;
        let c = g.nodes@[i].check;
        assert(open_ok(e, c, v, d));
        assert forall|k: int| 0 <= k < e.len() implies depth(#[trigger] val(v, e, k)) < d by {
            match e[k] {
                Edge::Inner(j) => {
                    if j < v.len() {
                        assert(depth(v[j as int]) <= d - 1);
                    }
                },
                Edge::Outer(o) => {
                    assert(g.nodes@[i].edges@[k] matches Edge::Outer(o2) ==> depth(o2) <= omax);
                },
            }
        }
        assert(no_loss_below(v, e, 0x1_0000_0000)) by {
            assert forall|k: int| 0 <= k < e.len() implies (#[trigger] val(v, e, k) matches Outcome::Loss(m) ==> m >= 0x1_0000_0000) by {
                let a = val(v, e, k);
                assert(depth(a) < d);
            }
        }
        if e.len() > 0 && all_win_below(v, e, 0x1_0000_0000) {
            assert forall|k: int| 0 <= k < e.len() implies win_below(#[trigger] val(v, e, k), d) by {
                let a = val(v, e, k);
                assert(depth(a) < d);
                assert(win_below(a, 0x1_0000_0000));
            }
            assert(false);
        }
    }
}

impl GameGraph {
    /// The greatest depth of an outcome behind an edge that leads out of the
    /// graph (0 if no edge leads out).
    pub fn outer_depth(&self) -> (m: u32)
        ensures
            self.outer_within(m as int),
            m == 0 || exists|i: int, k: int|
                0 <= i < self.nodes@.len() && 0 <= k < self.nodes@[i].edges@.len() && (#[trigger] self.nodes@[i].edges@[k] matches Edge::Outer(
                    o,
                ) && depth(o) == m),
    {
        let mut m: u32 = 0;
        let mut i: usize = 0;
        while i < self.nodes.len()
            invariant
                0 <= i <= self.nodes@.len(),
                forall|a: int, k: int| 0 <= a < i && 0 <= k < self.nodes@[a].edges@.len() ==> (#[trigger] self.nodes@[a].edges@[k] matches Edge::Outer(o) ==> depth(o) <= m),
                m == 0 || exists|a: int, k: int|
                    0 <= a < self.nodes@.len() && 0 <= k < self.nodes@[a].edges@.len() && (#[trigger] self.nodes@[a].edges@[k] matches Edge::Outer(
                        o,
                    ) && depth(o) == m),
            decreases self.nodes@.len() - i,
        {
            let edges = &self.nodes[i].edges;
            let mut k: usize = 0;
            while k < edges.len()
                invariant
                    0 <= i < self.nodes@.len(),
                    0 <= k <= edges@.len(),
                    edges@ == self.nodes@[i as int].edges@,
                    forall|a: int, j: int| 0 <= a < i && 0 <= j < self.nodes@[a].edges@.len() ==> (#[trigger] self.nodes@[a].edges@[j] matches Edge::Outer(o) ==> depth(o) <= m),
                    forall|j: int| 0 <= j < k ==> (#[trigger] self.nodes@[i as int].edges@[j] matches Edge::Outer(o) ==> depth(o) <= m),
                    m == 0 || exists|a: int, j: int|
                        0 <= a < self.nodes@.len() && 0 <= j < self.nodes@[a].edges@.len() && (#[trigger] self.nodes@[a].edges@[j] matches Edge::Outer(
                            o,
                        ) && depth(o) == m),
                decreases edges@.len() - k,
            {
                match edges[k] {
                    Edge::Outer(o) => {
                        let d: u32 = match o {
                            Outcome::Draw => 0,
                            Outcome::Win(n) => n,
                            Outcome::Loss(n) => n,
                        };
                        if d > m {
                            m = d;
                            proof {
                                assert(self.nodes@[i as int].edges@[k as int] matches Edge::Outer(o2) && depth(o2) == m);
                            }
                        }
                    },
                    Edge::Inner(_) => {},
                }
                k = k + 1;
            }
            i = i + 1;
        }
        m
    }

    /// Solves the graph. `omax` bounds the depth of the outcomes outside it.
    pub fn solve(&self, omax: u32) -> (v: Vec<Outcome>)
        requires
            self.outer_within(omax as int),
            self.nodes@.len() + omax + 2 < 0xffff_ffff,
        ensures
            self.solved(v@),
    {
        let n = self.nodes.len();
        let mut v: Vec<Outcome> = Vec::new();
        let mut i: usize = 0;
        while i < n
            invariant
                0 <= i <= n,
                n == self.nodes@.len(),
                v@.len() == i,
                forall|j: int| 0 <= j < i ==> #[trigger] v@[j] == if self.nodes@[j].live && self.nodes@[j].edges@.len() == 0 && self.nodes@[j].check {
                    Outcome::Loss(0)
                } else {
                    Outcome::Draw
                },
            decreases n - i,
        {
            let node = &self.nodes[i];
            let o = if node.live && node.edges.len() == 0 && node.check {
                Outcome::Loss(0)
            } else {
                Outcome::Draw
            };
            v.push(o);
            i = i + 1;
        }
        proof {
            let w = v@;
            assert forall|j: int| 0 <= j < w.len() && self.nodes@[j].live && #[trigger] w[j] == Outcome::Draw implies open_ok(
                self.nodes@[j].edges@,
                self.nodes@[j].check,
                w,
                0,
            ) by {
                let e = self.nodes@[j].edges@;
                if e.len() > 0 && all_win_below(w, e, 0) {
                    assert(win_below(val(w, e, 0), 0));
                }
            }
            assert(self.level(w, 0, 0));
            lemma_count_draw_range(w, n as int);
        }
        let mut d: u32 = 1;
        loop
            invariant
                n == self.nodes@.len(),
                v@.len() == n,
                self.outer_within(omax as int),
                n + omax + 2 < 0xffff_ffff,
                1 <= d,
                self.level(v@, d - 1, 0),
                0 <= count_draw(v@, n as int),
                d + count_draw(v@, n as int) + (if d <= omax {
                    omax + 1 - d
                } else {
                    0
                }) <= n + omax + 2,
            ensures
                self.solved(v@),
            decreases
                    count_draw(v@, n as int) + (if d <= omax {
                        omax + 1 - d
                    } else {
                        0
                    }),
        {
            let ghost before = v@;
            let changed = pass(self, &mut v, d);
            proof {
                lemma_count_draw_range(v@, n as int);
            }
            if !changed && d > omax {
                proof {
                    lemma_fixpoint(self, v@, d as int, omax as int);
                }
                break ;
            }
            d = d + 1;
        }
        v
    }
}

} // verus!
