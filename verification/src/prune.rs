//! The relevance pruner: keep only the nodes that retain at least a
//! given fraction of the root's retained bytes, drop every edge
//! touching a removed node, remove self-loops, collapse duplicate
//! parallel edges, and relabel each surviving node with its retained
//! totals.
use vstd::prelude::*;

use crate::dominator::{lemma_wsum_count_le, one_w, wsum};
use crate::graph::HeapGraph;
use crate::object::{display_of, Object};
use crate::stats::Stats;
use crate::text::{dec_of, usize_to_string};
use vstd::string::{StrSliceExecFns, StringExecFns};

verus! {

/// The byte threshold for a relevance fraction `num / den` of the
/// root's retained bytes, rounded down.
pub open spec fn threshold_of(root_bytes: nat, num: nat, den: nat) -> nat
    recommends
        den > 0,
{
    (root_bytes * num) / den
}

/// Whether node `a` survives pruning: its retained bytes meet the
/// threshold.
pub open spec fn sel_kept(sizes: Seq<Stats>, t: nat) -> spec_fn(int) -> bool {
    |x: int| 0 <= x < sizes.len() && sizes[x].bytes >= t
}

/// The index a kept node moves to: the number of kept nodes before it.
pub open spec fn new_index(sizes: Seq<Stats>, t: nat, a: int) -> nat {
    wsum(one_w(), sel_kept(sizes, t), a)
}

/// The display label of a pruned node: its display text followed by
/// its self size, the bytes retained through its references, and its
/// retained object count.
pub open spec fn pruned_label(o: Object, s: Stats) -> Seq<char>
    recommends
        s.bytes >= o.bytes,
{
    display_of(o) + ": "@ + dec_of(o.bytes as nat) + "b self, "@ + dec_of((s.bytes - o.bytes) as nat)
        + "b refs, "@ + dec_of(s.count as nat) + " objects"@
}

/// Prefixes of a sum never shrink.
proof fn lemma_wsum_prefix_mono(w: spec_fn(int) -> nat, sel: spec_fn(int) -> bool, m1: int, m2: int)
    requires
        m1 <= m2,
    ensures
        wsum(w, sel, m1) <= wsum(w, sel, m2),
    decreases m2 - m1,
{
    if m1 < m2 {
        lemma_wsum_prefix_mono(w, sel, m1, m2 - 1);
    }
}

/// Kept nodes keep their relative order: the remapping is strictly
/// monotone on kept indices.
proof fn lemma_new_index_mono(sizes: Seq<Stats>, t: nat, a: int, b: int)
    requires
        0 <= a < b,
        sel_kept(sizes, t)(a),
    ensures
        new_index(sizes, t, a) < new_index(sizes, t, b),
{
    assert(wsum(one_w(), sel_kept(sizes, t), a + 1) == wsum(one_w(), sel_kept(sizes, t), a) + 1);
    lemma_wsum_prefix_mono(one_w(), sel_kept(sizes, t), a + 1, b);
}

/// Renders the label of one surviving node.
fn relabel(o: &Object, s: Stats) -> (r: Object)
    requires
        s.bytes >= o.bytes,
    ensures
        r.address == o.address,
        r.bytes == o.bytes,
        r.kind@ == o.kind@,
        r.label matches Some(l) && l@ == pruned_label(*o, s),
{
    let mut l = o.display();
    l.append(": ");
    let d1 = usize_to_string(o.bytes);
    l.append(d1.as_str());
    l.append("b self, ");
    let d2 = usize_to_string(s.bytes - o.bytes);
    l.append(d2.as_str());
    l.append("b refs, ");
    let d3 = usize_to_string(s.count);
    l.append(d3.as_str());
    l.append(" objects");
    Object { address: o.address, bytes: o.bytes, kind: o.kind.clone(), label: Some(l) }
}

/// Keeps the nodes whose retained bytes reach the fraction `num / den`
/// of the root's retained bytes; drops every edge touching a removed
/// node, every self-loop, and every duplicate parallel edge; relabels
/// each survivor with its retained totals. With fraction 0 every node
/// is kept; with a fraction of at least 1 only nodes retaining at
/// least as much as the root survive.
#[verifier::rlimit(100)]
pub fn relevant_subgraph(
    root: usize,
    g: &HeapGraph,
    sizes: &Vec<Stats>,
    num: usize,
    den: usize,
) -> (out: HeapGraph)
    requires
        g.wf(),
        root < g.nodes@.len(),
        sizes@.len() == g.nodes@.len(),
        den > 0,
        forall|a: int| 0 <= a < sizes@.len() ==> (#[trigger] sizes@[a]).bytes >= g.nodes@[a].bytes,
    ensures
        out.wf(),
        ({
            let t = threshold_of(sizes@[root as int].bytes as nat, num as nat, den as nat);
            &&& out.nodes@.len() == wsum(one_w(), sel_kept(sizes@, t), g.nodes@.len() as int)
            &&& forall|a: int|
                #![trigger sel_kept(sizes@, t)(a)]
                0 <= a < g.nodes@.len() && sel_kept(sizes@, t)(a) ==> {
                    let w = new_index(sizes@, t, a) as int;
                    &&& 0 <= w < out.nodes@.len()
                    &&& out.nodes@[w].address == g.nodes@[a].address
                    &&& out.nodes@[w].bytes == g.nodes@[a].bytes
                    &&& out.nodes@[w].kind@ == g.nodes@[a].kind@
                    &&& out.nodes@[w].label matches Some(l) && l@ == pruned_label(
                        g.nodes@[a],
                        sizes@[a],
                    )
                }
            &&& num == 0 ==> out.nodes@.len() == g.nodes@.len()
        }),
        // No self-loops and no duplicate parallel edges survive.
        forall|k: int| 0 <= k < out.edges@.len() ==> (#[trigger] out.edges@[k]).0 != out.edges@[k].1,
        forall|k1: int, k2: int|
            0 <= k1 < k2 < out.edges@.len() ==> !((#[trigger] out.edges@[k1]).0
                == (#[trigger] out.edges@[k2]).0 && out.edges@[k1].1 == out.edges@[k2].1),
{
    let n = g.nodes.len();
    let ghost tg = threshold_of(sizes@[root as int].bytes as nat, num as nat, den as nat);
    proof {
        assert((sizes@[root as int].bytes as int) * (num as int) < 0x100000000000000000000000000000000)
            by (nonlinear_arith)
            requires
                sizes@[root as int].bytes <= 0xffffffffffffffffu64,
                num <= 0xffffffffffffffffu64,
        ;
    }
    let tb: u128 = (sizes[root].bytes as u128) * (num as u128) / (den as u128);

    // Pass 1: keep and relabel the relevant nodes.
    let mut nodes: Vec<Object> = Vec::new();
    let mut i: usize = 0;
    while i < n
        invariant
            0 <= i <= n,
            n == g.nodes@.len(),
            sizes@.len() == n,
            den > 0,
            tb as int == ((sizes@[root as int].bytes as int) * (num as int)) / (den as int),
            root < n,
            tg == threshold_of(sizes@[root as int].bytes as nat, num as nat, den as nat),
            forall|a: int| 0 <= a < n ==> (#[trigger] sizes@[a]).bytes >= g.nodes@[a].bytes,
            nodes@.len() == wsum(one_w(), sel_kept(sizes@, tg), i as int),
            forall|a: int|
                #![trigger sel_kept(sizes@, tg)(a)]
                0 <= a < i && sel_kept(sizes@, tg)(a) ==> {
                    let w = new_index(sizes@, tg, a) as int;
                    &&& 0 <= w < nodes@.len()
                    &&& nodes@[w].address == g.nodes@[a].address
                    &&& nodes@[w].bytes == g.nodes@[a].bytes
                    &&& nodes@[w].kind@ == g.nodes@[a].kind@
                    &&& nodes@[w].label matches Some(l) && l@ == pruned_label(
                        g.nodes@[a],
                        sizes@[a],
                    )
                },
        decreases n - i,
    {
        proof {
            lemma_wsum_count_le(sel_kept(sizes@, tg), i as int);
        }
        let kept = (sizes[i].bytes as u128) >= tb;
        proof {
            assert(kept == sel_kept(sizes@, tg)(i as int));
        }
        if kept {
            nodes.push(relabel(&g.nodes[i], sizes[i]));
        }
        i = i + 1;
    }

    let edges = keep_edges(g, sizes, tb, Ghost(tg), nodes.len());
    proof {
        if num == 0 {
            assert(tg == 0) by {
                assert((sizes@[root as int].bytes as nat * 0) / (den as nat) == 0nat);
            }
            assert forall|y: int| #![trigger sel_kept(sizes@, tg)(y)] 0 <= y < n implies sel_kept(
                sizes@,
                tg,
            )(y) by {}
            lemma_wsum_all_ones(sizes@, tg, n as int);
        }
    }
    HeapGraph { nodes, edges }
}


/// Resolves the surviving edges: keeps an edge when both endpoints
/// survive, it is not a self-loop, and no earlier edge joined the same
/// ordered pair; endpoints are remapped to the surviving nodes'
/// indices.
fn keep_edges(
    g: &HeapGraph,
    sizes: &Vec<Stats>,
    tb: u128,
    tg: Ghost<nat>,
    nkept: usize,
) -> (edges: Vec<(usize, usize)>)
    requires
        g.wf(),
        sizes@.len() == g.nodes@.len(),
        forall|x: int|
            0 <= x < sizes@.len() ==> (((#[trigger] sizes@[x]).bytes as u128 >= tb) <==> sel_kept(
                sizes@,
                tg@,
            )(x)),
        nkept == wsum(one_w(), sel_kept(sizes@, tg@), g.nodes@.len() as int),
    ensures
        forall|k: int|
            0 <= k < edges@.len() ==> (#[trigger] edges@[k]).0 < nkept && edges@[k].1 < nkept
                && edges@[k].0 != edges@[k].1,
        forall|k1: int, k2: int|
            0 <= k1 < k2 < edges@.len() ==> !((#[trigger] edges@[k1]).0 == (#[trigger] edges@[k2]).0
                && edges@[k1].1 == edges@[k2].1),
{
    let n = g.nodes.len();
    let mut orig: Vec<(usize, usize)> = Vec::new();
    let mut edges: Vec<(usize, usize)> = Vec::new();
    let ne = g.edges.len();
    let mut k: usize = 0;
    while k < ne
        invariant
            0 <= k <= ne,
            ne == g.edges@.len(),
            n == g.nodes@.len(),
            sizes@.len() == n,
            g.wf(),
            forall|x: int|
                0 <= x < n ==> (((#[trigger] sizes@[x]).bytes as u128 >= tb) <==> sel_kept(
                    sizes@,
                    tg@,
                )(x)),
            orig@.len() == edges@.len(),
            forall|j: int|
                0 <= j < orig@.len() ==> {
                    let e = #[trigger] orig@[j];
                    &&& 0 <= e.0 < n && 0 <= e.1 < n && e.0 != e.1
                    &&& sel_kept(sizes@, tg@)(e.0 as int) && sel_kept(sizes@, tg@)(e.1 as int)
                    &&& edges@[j] == (
                        new_index(sizes@, tg@, e.0 as int) as usize,
                        new_index(sizes@, tg@, e.1 as int) as usize,
                    )
                },
            forall|j1: int, j2: int|
                0 <= j1 < j2 < orig@.len() ==> !((#[trigger] orig@[j1]).0 == (#[trigger] orig@[j2]).0
                    && orig@[j1].1 == orig@[j2].1),
        decreases ne - k,
    {
        let (a, b) = (g.edges[k].0, g.edges[k].1);
        let keep_a = (sizes[a].bytes as u128) >= tb;
        let keep_b = (sizes[b].bytes as u128) >= tb;
        if keep_a && keep_b && a != b {
            // Collapse duplicate parallel edges: keep the first
            // occurrence of each ordered pair only.
            let mut seen = false;
            let mut j: usize = 0;
            let m = orig.len();
            while j < m
                invariant
                    0 <= j <= m,
                    m == orig@.len(),
                    seen == exists|jj: int|
                        0 <= jj < j && (#[trigger] orig@[jj]).0 == a && orig@[jj].1 == b,
                decreases m - j,
            {
                if orig[j].0 == a && orig[j].1 == b {
                    seen = true;
                }
                j = j + 1;
            }
            if !seen {
                let na = index_among_kept(sizes, tb, a, Ghost(tg@));
                let nb = index_among_kept(sizes, tb, b, Ghost(tg@));
                orig.push((a, b));
                edges.push((na, nb));
            }
        }
        k = k + 1;
    }
    proof {
        // The remapping is strictly monotone, hence injective, on the
        // kept nodes: distinct pairs stay distinct and self-loops stay
        // absent.
        assert forall|a: int, b: int|
            0 <= a < n && 0 <= b < n && a != b && sel_kept(sizes@, tg@)(a) && sel_kept(
                sizes@,
                tg@,
            )(b) implies new_index(sizes@, tg@, a) != new_index(sizes@, tg@, b) by {
            if a < b {
                lemma_new_index_mono(sizes@, tg@, a, b);
            } else {
                lemma_new_index_mono(sizes@, tg@, b, a);
            }
        }
        assert forall|a: int|
            0 <= a < n && sel_kept(sizes@, tg@)(a) implies new_index(sizes@, tg@, a) < nkept by {
            lemma_new_index_mono(sizes@, tg@, a, n as int);
            lemma_wsum_count_le(sel_kept(sizes@, tg@), a);
        }
        assert forall|k: int|
            0 <= k < edges@.len() implies (#[trigger] edges@[k]).0 < nkept && edges@[k].1 < nkept
            && edges@[k].0 != edges@[k].1 by {
            let e = orig@[k];
            lemma_wsum_count_le(sel_kept(sizes@, tg@), e.0 as int);
            lemma_wsum_count_le(sel_kept(sizes@, tg@), e.1 as int);
            assert(new_index(sizes@, tg@, e.0 as int) < nkept);
            assert(new_index(sizes@, tg@, e.1 as int) < nkept);
            assert(new_index(sizes@, tg@, e.0 as int) != new_index(sizes@, tg@, e.1 as int));
        }
        assert forall|k1: int, k2: int|
            0 <= k1 < k2 < edges@.len() implies !((#[trigger] edges@[k1]).0
            == (#[trigger] edges@[k2]).0 && edges@[k1].1 == edges@[k2].1) by {
            let e1 = orig@[k1];
            let e2 = orig@[k2];
            if edges@[k1].0 == edges@[k2].0 && edges@[k1].1 == edges@[k2].1 {
                assert(new_index(sizes@, tg@, e1.0 as int) == new_index(sizes@, tg@, e2.0 as int));
                assert(e1.0 == e2.0);
                assert(e1.1 == e2.1);
            }
        }
    }
    edges
}

/// When every node is selected, the count is the length.
proof fn lemma_wsum_all_ones(sizes: Seq<Stats>, t: nat, m: int)
    requires
        0 <= m <= sizes.len(),
        forall|y: int| 0 <= y < m ==> #[trigger] sel_kept(sizes, t)(y),
    ensures
        wsum(one_w(), sel_kept(sizes, t), m) == m,
    decreases m,
{
    if m > 0 {
        lemma_wsum_all_ones(sizes, t, m - 1);
    }
}

/// Counts the kept nodes before `a`: the index `a` moves to.
fn index_among_kept(sizes: &Vec<Stats>, tb: u128, a: usize, tg: Ghost<nat>) -> (r: usize)
    requires
        a < sizes@.len(),
        forall|x: int|
            0 <= x < sizes@.len() ==> (((#[trigger] sizes@[x]).bytes as u128 >= tb) <==> sel_kept(
                sizes@,
                tg@,
            )(x)),
    ensures
        r == new_index(sizes@, tg@, a as int),
{
    let mut c: usize = 0;
    let mut x: usize = 0;
    while x < a
        invariant
            0 <= x <= a,
            a < sizes@.len(),
            forall|y: int|
                0 <= y < sizes@.len() ==> (((#[trigger] sizes@[y]).bytes as u128 >= tb)
                    <==> sel_kept(sizes@, tg@)(y)),
            c == wsum(one_w(), sel_kept(sizes@, tg@), x as int),
            c <= x,
        decreases a - x,
    {
        proof {
            lemma_wsum_count_le(sel_kept(sizes@, tg@), x as int);
        }
        if (sizes[x].bytes as u128) >= tb {
            c = c + 1;
        }
        x = x + 1;
    }
    c
}

/// Law: with a relevance fraction of at least one, a surviving node
/// retains at least as many bytes as the root itself.
pub proof fn lemma_full_threshold(sizes: Seq<Stats>, root: int, num: nat, den: nat, a: int)
    requires
        0 <= root < sizes.len(),
        0 < den <= num,
        0 <= a < sizes.len(),
        sel_kept(sizes, threshold_of(sizes[root].bytes as nat, num, den))(a),
    ensures
        sizes[a].bytes >= sizes[root].bytes,
{
    let rb = sizes[root].bytes as nat;
    assert((rb * num) / den >= rb) by (nonlinear_arith)
        requires
            0 < den <= num,
            rb >= 0,
    ;
}

} // verus!
