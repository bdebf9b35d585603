//! The precedence graph over the 26-letter alphabet: which letters are
//! present, which constraint edges were discovered, which letters currently
//! have no unconsumed incoming constraint, and the proof that a graph in
//! which every remaining letter still has a remaining predecessor contains a
//! cycle.
use vstd::prelude::*;

use crate::lemmas::lemma_pigeonhole;

verus! {

/// Directed precedence graph over alphabet indices `0..26`. `alive[l]`
/// holds while letter `l` is present and not yet emitted; `edges[a][b]`
/// records the constraint that letter `a` comes before letter `b`. Storing
/// each edge as one flag de-duplicates repeated discoveries of the same
/// constraint.
pub struct LetterGraph {
    pub alive: Vec<bool>,
    pub edges: Vec<Vec<bool>>,
}

impl LetterGraph {
    /// The fixed 26-by-26 shape every graph of this library has.
    pub open spec fn wf(self) -> bool {
        &&& self.alive@.len() == 26
        &&& self.edges@.len() == 26
        &&& forall|i: int| 0 <= i < 26 ==> #[trigger] self.edges@[i]@.len() == 26
    }

    /// Letter `j` is present and has in-degree zero: no unconsumed
    /// constraint demands that some other present letter come first.
    pub open spec fn ready(self, j: int) -> bool {
        &&& 0 <= j < 26
        &&& self.alive@[j]
        &&& forall|i: int| 0 <= i < 26 && #[trigger] self.alive@[i] ==> !self.edges@[i]@[j]
    }

    /// Every edge connects two present letters.
    pub open spec fn edges_within_alive(self) -> bool {
        forall|a: int, b: int|
            0 <= a < 26 && 0 <= b < 26 && #[trigger] self.edges@[a]@[b] ==> self.alive@[a]
                && self.alive@[b]
    }

    /// An empty graph: no letters present, no edges discovered.
    pub fn new() -> (g: LetterGraph)
        ensures
            g.wf(),
            forall|l: int| 0 <= l < 26 ==> !(#[trigger] g.alive@[l]),
            forall|a: int, b: int| 0 <= a < 26 && 0 <= b < 26 ==> !(#[trigger] g.edges@[a]@[b]),
    {
        let mut alive: Vec<bool> = Vec::new();
        let mut edges: Vec<Vec<bool>> = Vec::new();
        let mut l: usize = 0;
        while l < 26
            invariant
                alive@.len() == l,
                edges@.len() == l,
                l <= 26,
                forall|i: int| 0 <= i < l ==> !(#[trigger] alive@[i]),
                forall|i: int| 0 <= i < l ==> #[trigger] edges@[i]@.len() == 26,
                forall|i: int, j: int| 0 <= i < l && 0 <= j < 26 ==> !(#[trigger] edges@[i]@[j]),
            decreases 26 - l,
        {
            alive.push(false);
            let mut row: Vec<bool> = Vec::new();
            let mut m: usize = 0;
            while m < 26
                invariant
                    row@.len() == m,
                    m <= 26,
                    forall|j: int| 0 <= j < m ==> !(#[trigger] row@[j]),
                decreases 26 - m,
            {
                row.push(false);
                m = m + 1;
            }
            edges.push(row);
            l = l + 1;
        }
        LetterGraph { alive, edges }
    }
}

/// `out` is a topological order of the graph: each present letter exactly
/// once, no absent letter, and every edge's source strictly before its
/// destination.
pub open spec fn is_topo_of(out: Seq<u8>, g: LetterGraph) -> bool {
    &&& out.no_duplicates()
    &&& forall|k: int| 0 <= k < out.len() ==> #[trigger] out[k] < 26
    &&& forall|l: int| 0 <= l < 26 ==> (g.alive@[l] <==> out.contains(l as u8))
    &&& forall|a: int, b: int|
        0 <= a < 26 && 0 <= b < 26 && #[trigger] g.edges@[a]@[b] ==> out.index_of(a as u8)
            < out.index_of(b as u8)
}

/// `p` is a cycle of edges over alphabet indices.
pub open spec fn is_index_cycle(g: LetterGraph, p: Seq<int>) -> bool {
    &&& p.len() > 0
    &&& forall|k: int| 0 <= k < p.len() ==> 0 <= #[trigger] p[k] < 26
    &&& forall|k: int| 0 <= k < p.len() - 1 ==> g.edges@[#[trigger] p[k]]@[p[k + 1]]
    &&& g.edges@[p.last()]@[p[0]]
}

/// The graph's edges contain a cycle over alphabet indices.
pub open spec fn has_index_cycle(g: LetterGraph) -> bool {
    exists|p: Seq<int>| is_index_cycle(g, p)
}

/// The graph's edge matrix as a plain sequence of rows.
pub open spec fn edges_view(g: LetterGraph) -> Seq<Seq<bool>> {
    g.edges@.map_values(|row: Vec<bool>| row@)
}

/// The set of alphabet indices of the graph's present letters.
pub open spec fn alive_set(g: LetterGraph) -> Set<int> {
    Set::new(|l: int| 0 <= l < 26 && g.alive@[l])
}

/// Among the letters of `alive`, index `j` has in-degree zero under the
/// edge matrix `ev`.
pub open spec fn mat_ready(ev: Seq<Seq<bool>>, alive: Set<int>, j: int) -> bool {
    &&& 0 <= j < 26
    &&& alive.contains(j)
    &&& forall|i: int| 0 <= i < 26 && #[trigger] alive.contains(i) ==> !ev[i][j]
}

/// The in-degree-zero letters at index `j` and above, ascending.
pub open spec fn mat_batch(ev: Seq<Seq<bool>>, alive: Set<int>, j: int) -> Seq<int>
    decreases 26 - j when j <= 26
{
    if j < 0 || j >= 26 {
        Seq::empty()
    } else if mat_ready(ev, alive, j) {
        seq![j] + mat_batch(ev, alive, j + 1)
    } else {
        mat_batch(ev, alive, j + 1)
    }
}

/// The removal order under the edge matrix `ev`: whole ascending rounds
/// of in-degree-zero letters until no letter is removable.
pub open spec fn mat_kahn(ev: Seq<Seq<bool>>, alive: Set<int>, fuel: nat) -> Seq<int>
    decreases fuel,
{
    if fuel == 0 {
        Seq::empty()
    } else {
        let b = mat_batch(ev, alive, 0);
        if b.len() == 0 {
            Seq::empty()
        } else {
            b + mat_kahn(ev, alive.difference(b.to_set()), (fuel - 1) as nat)
        }
    }
}

/// With no letter left, a removal round is empty.
pub proof fn lemma_mat_batch_no_alive(ev: Seq<Seq<bool>>, alive: Set<int>, j: int)
    requires
        forall|l: int| !(#[trigger] alive.contains(l)),
        j <= 26,
    ensures
        mat_batch(ev, alive, j) == Seq::<int>::empty(),
    decreases 26 - j,
{
    if 0 <= j < 26 {
        lemma_mat_batch_no_alive(ev, alive, j + 1);
    }
}

/// Where the edge matrix agrees pointwise with the word list's constraint
/// relation, the removal rounds agree too.
pub proof fn lemma_mat_batch_matches_model(
    ev: Seq<Seq<bool>>,
    ws: Seq<Seq<char>>,
    alive: Set<int>,
    j: int,
)
    requires
        forall|a: int, b: int|
            0 <= a < 26 && 0 <= b < 26 ==> (#[trigger] ev[a][b] <==> crate::model::edge_at(
                ws,
                a,
                b,
            )),
        j <= 26,
    ensures
        mat_batch(ev, alive, j) == crate::model::m_batch(ws, alive, j),
    decreases 26 - j,
{
    if 0 <= j < 26 {
        assert(mat_ready(ev, alive, j) <==> crate::model::m_ready(ws, alive, j)) by {
            if mat_ready(ev, alive, j) {
                assert forall|i: int|
                    0 <= i < 26 && #[trigger] alive.contains(i) implies !crate::model::edge_at(
                    ws,
                    i,
                    j,
                ) by {
                    assert(!ev[i][j]);
                }
            }
            if crate::model::m_ready(ws, alive, j) {
                assert forall|i: int|
                    0 <= i < 26 && #[trigger] alive.contains(i) implies !ev[i][j] by {
                    assert(!crate::model::edge_at(ws, i, j));
                }
            }
        }
        lemma_mat_batch_matches_model(ev, ws, alive, j + 1);
    }
}

/// And so do the whole removal orders.
pub proof fn lemma_mat_kahn_matches_model(
    ev: Seq<Seq<bool>>,
    ws: Seq<Seq<char>>,
    alive: Set<int>,
    fuel: nat,
)
    requires
        forall|a: int, b: int|
            0 <= a < 26 && 0 <= b < 26 ==> (#[trigger] ev[a][b] <==> crate::model::edge_at(
                ws,
                a,
                b,
            )),
    ensures
        mat_kahn(ev, alive, fuel) == crate::model::m_kahn(ws, alive, fuel),
    decreases fuel,
{
    if fuel > 0 {
        lemma_mat_batch_matches_model(ev, ws, alive, 0);
        let b = mat_batch(ev, alive, 0);
        if b.len() > 0 {
            lemma_mat_kahn_matches_model(ev, ws, alive.difference(b.to_set()), (fuel - 1) as nat);
        }
    }
}

/// Walks backwards from `j0` through present predecessors, producing a
/// chain of `n + 1` present letters in which each element's successor in
/// the chain is one of its predecessors in the graph.
proof fn build_pred_chain(g: LetterGraph, j0: int, n: nat) -> (p: Seq<int>)
    requires
        g.wf(),
        0 <= j0 < 26,
        g.alive@[j0],
        forall|j: int|
            0 <= j < 26 && #[trigger] g.alive@[j] ==> exists|i: int|
                0 <= i < 26 && #[trigger] g.alive@[i] && g.edges@[i]@[j],
    ensures
        p.len() == n + 1,
        p[0] == j0,
        forall|k: int| 0 <= k < p.len() ==> 0 <= #[trigger] p[k] < 26 && g.alive@[p[k]],
        forall|k: int| 0 <= k < p.len() - 1 ==> g.edges@[#[trigger] p[k + 1]]@[p[k]],
    decreases n,
{
    if n == 0 {
        seq![j0]
    } else {
        let q = build_pred_chain(g, j0, (n - 1) as nat);
        let last = q[q.len() - 1];
        let i = choose|i: int| 0 <= i < 26 && #[trigger] g.alive@[i] && g.edges@[i]@[last];
        let p = q.push(i);
        assert forall|k: int| 0 <= k < p.len() - 1 implies g.edges@[#[trigger] p[k + 1]]@[p[k]] by {
            if k < p.len() - 2 {
                assert(p[k] == q[k] && p[k + 1] == q[k + 1]);
            } else {
                assert(p[k] == last && p[k + 1] == i);
            }
        }
        p
    }
}

/// A well-formed graph in which some letter is present but every present
/// letter still has a present predecessor contains a cycle: following
/// predecessors for 27 steps must revisit a letter.
pub proof fn lemma_stuck_graph_has_cycle(g: LetterGraph, j0: int)
    requires
        g.wf(),
        0 <= j0 < 26,
        g.alive@[j0],
        forall|j: int|
            0 <= j < 26 && #[trigger] g.alive@[j] ==> exists|i: int|
                0 <= i < 26 && #[trigger] g.alive@[i] && g.edges@[i]@[j],
    ensures
        has_index_cycle(g),
{
    let p = build_pred_chain(g, j0, 26);
    lemma_pigeonhole(p, 26);
    let (s, t) = choose|s: int, t: int| 0 <= s < t < p.len() && p[s] == p[t];
    let c = Seq::new((t - s) as nat, |m: int| p[t - m]);
    assert(c.len() > 0);
    assert forall|k: int| 0 <= k < c.len() - 1 implies g.edges@[#[trigger] c[k]]@[c[k + 1]] by {
        assert(c[k] == p[t - k] && c[k + 1] == p[t - k - 1]);
        assert(g.edges@[p[(t - k - 1) + 1]]@[p[t - k - 1]]);
    }
    assert(g.edges@[c.last()]@[c[0]]) by {
        assert(c.last() == p[s + 1] && c[0] == p[t]);
        assert(g.edges@[p[s + 1]]@[p[s]]);
        assert(p[s] == p[t]);
    }
    assert(is_index_cycle(g, c));
}

} // verus!
