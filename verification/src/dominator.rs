//! Immediate dominators and retained sizes. Every node reachable from
//! the root has an immediate dominator chain leading to the root; a
//! node's retained stats are its own plus those of every node whose
//! every path from the root passes through it, i.e. the sum over its
//! dominator subtree.
use vstd::prelude::*;

use crate::graph::HeapGraph;
use crate::object::Object;
use crate::stats::Stats;

verus! {

/// There is an edge from `a` to `b`.
pub open spec fn edge_to(edges: Seq<(usize, usize)>, a: int, b: int) -> bool {
    exists|j: int| 0 <= j < edges.len() && (#[trigger] edges[j]).0 == a && edges[j].1 == b
}

/// `t` can be reached from `root` in at most `k` steps.
pub open spec fn reachable_in(edges: Seq<(usize, usize)>, root: int, t: int, k: nat) -> bool
    decreases k,
{
    t == root || (k > 0 && exists|p: int|
        edge_to(edges, p, t) && reachable_in(edges, root, p, (k - 1) as nat))
}

/// `t` can be reached from `root`.
pub open spec fn reachable(edges: Seq<(usize, usize)>, root: int, t: int) -> bool {
    exists|k: nat| reachable_in(edges, root, t, k)
}

/// `t` can be reached from `root` within `k` steps by a path that
/// never visits `avoid`.
pub open spec fn reachable_avoiding_in(
    edges: Seq<(usize, usize)>,
    root: int,
    t: int,
    avoid: int,
    k: nat,
) -> bool
    decreases k,
{
    t != avoid && (t == root || (k > 0 && exists|p: int|
        edge_to(edges, p, t) && reachable_avoiding_in(edges, root, p, avoid, (k - 1) as nat)))
}

/// `t` can be reached from `root` without passing through `avoid`.
pub open spec fn reachable_avoiding(
    edges: Seq<(usize, usize)>,
    root: int,
    t: int,
    avoid: int,
) -> bool {
    exists|k: nat| reachable_avoiding_in(edges, root, t, avoid, k)
}

/// `d` dominates `t`: every path from the root to `t` passes through
/// `d` — removing `d` would make `t` unreachable.
pub open spec fn dominates(edges: Seq<(usize, usize)>, root: int, d: int, t: int) -> bool {
    !reachable_avoiding(edges, root, t, d)
}

/// `d` is the immediate dominator of `t`: a strict dominator of `t`
/// that every other strict dominator of `t` dominates in turn (so `d`
/// is the closest).
pub open spec fn is_idom(edges: Seq<(usize, usize)>, root: int, t: int, d: int) -> bool {
    &&& d != t
    &&& dominates(edges, root, d, t)
    &&& forall|a: int|
        a != t && a != d && #[trigger] dominates(edges, root, a, t) ==> dominates(
            edges,
            root,
            a,
            d,
        )
}

/// Following immediate dominators from `i` for exactly `k` steps ends
/// at `root`.
pub open spec fn chain_reaches(iv: Seq<Option<usize>>, root: int, i: int, k: nat) -> bool
    decreases k,
{
    if k == 0 {
        i == root
    } else {
        0 <= i < iv.len() && iv[i] is Some && chain_reaches(
            iv,
            root,
            iv[i].unwrap() as int,
            (k - 1) as nat,
        )
    }
}

/// `a` appears within the first `k` immediate dominators of `i`: `a`
/// strictly dominates `i`.
pub open spec fn anc(iv: Seq<Option<usize>>, i: int, a: int, k: nat) -> bool
    decreases k,
{
    k > 0 && 0 <= i < iv.len() && iv[i] is Some && (iv[i].unwrap() == a || anc(
        iv,
        iv[i].unwrap() as int,
        a,
        (k - 1) as nat,
    ))
}

/// `a` lies on `i`'s immediate dominator chain.
pub open spec fn in_chain(iv: Seq<Option<usize>>, i: int, a: int) -> bool {
    exists|k: nat| anc(iv, i, a, k)
}

/// The shape of an immediate dominator assignment for the graph with
/// nodes `0..n`, the given edges, and the given root: exactly the
/// reachable non-root nodes have one; each is another reachable node
/// (or the root) distinct from its node; and every chain reaches the
/// root within `n` steps.
pub open spec fn idoms_wf(
    n: nat,
    edges: Seq<(usize, usize)>,
    root: int,
    iv: Seq<Option<usize>>,
) -> bool {
    &&& iv.len() == n
    &&& 0 <= root < n
    &&& iv[root] is None
    &&& forall|i: int|
        0 <= i < n ==> ((#[trigger] iv[i]) is Some <==> (i != root && reachable(edges, root, i)))
    &&& forall|i: int|
        0 <= i < n ==> ((#[trigger] iv[i]) matches Some(d) ==> d < n && d as int != i && (
        d as int == root || iv[d as int] is Some))
    &&& forall|i: int|
        0 <= i < n && (#[trigger] iv[i]) is Some ==> exists|k: nat|
            k <= n && chain_reaches(iv, root, i, k)
    &&& forall|i: int|
        0 <= i < n ==> ((#[trigger] iv[i]) matches Some(d) ==> is_idom(edges, root, i, d as int))
}

/// Relies on `petgraph::algo::dominators::simple_fast` on the directed
/// graph with nodes `0..n` and the given edges, rooted at `root`. Its
/// `immediate_dominator` returns `None` exactly for the root and for
/// nodes unreachable from the root, and otherwise the immediate
/// dominator: a distinct node that dominates its node (every path
/// from the root passes through it) and is dominated by every other
/// strict dominator of that node; it is itself the root or reachable,
/// so that dominator chains ascend the finite dominator tree to the
/// root.
#[verifier::external_body]
fn compute_idoms(n: usize, edges: &Vec<(usize, usize)>, root: usize) -> (r: Vec<Option<usize>>)
    requires
        root < n,
        forall|j: int| 0 <= j < edges@.len() ==> (#[trigger] edges@[j]).0 < n && edges@[j].1 < n,
    ensures
        idoms_wf(n as nat, edges@, root as int, r@),
{
    let mut g = petgraph::graph::Graph::<(), (), petgraph::Directed, usize>::with_capacity(
        n,
        edges.len(),
    );
    for _ in 0..n {
        g.add_node(());
    }
    for e in edges.iter() {
        g.add_edge(e.0.into(), e.1.into(), ());
    }
    let dom = petgraph::algo::dominators::simple_fast(&g, petgraph::graph::NodeIndex::new(root));
    (0..n)
        .map(|i| dom.immediate_dominator(petgraph::graph::NodeIndex::new(i)).map(|d| d.index()))
        .collect()
}

/// The sum of `w` over the selected indices below `m`.
pub open spec fn wsum(w: spec_fn(int) -> nat, sel: spec_fn(int) -> bool, m: int) -> nat
    decreases m,
{
    if m <= 0 {
        0
    } else {
        wsum(w, sel, m - 1) + (if sel(m - 1) {
            w(m - 1)
        } else {
            0nat
        })
    }
}

/// The weight of one object as a count: one.
pub open spec fn one_w() -> spec_fn(int) -> nat {
    |x: int| 1nat
}

/// The weight of one object as bytes: its self size.
pub open spec fn bytes_w(nodes: Seq<Object>) -> spec_fn(int) -> nat {
    |x: int| nodes[x].bytes as nat
}

/// The nodes strictly dominated by `a`, cut off at index `i`.
spec fn sel_anc(iv: Seq<Option<usize>>, a: int, i: int) -> spec_fn(int) -> bool {
    |x: int| in_chain(iv, x, a) && x < i
}

/// The nodes strictly dominated by `a`.
pub open spec fn sel_anc_full(iv: Seq<Option<usize>>, a: int) -> spec_fn(int) -> bool {
    |x: int| in_chain(iv, x, a)
}

/// The given selection plus one more index.
pub open spec fn sel_plus(sel: spec_fn(int) -> bool, p: int) -> spec_fn(int) -> bool {
    |x: int| sel(x) || x == p
}

/// The nodes reachable from the root.
pub open spec fn sel_reach(edges: Seq<(usize, usize)>, root: int) -> spec_fn(int) -> bool {
    |x: int| reachable(edges, root, x)
}

/// Every node.
pub open spec fn sel_all() -> spec_fn(int) -> bool {
    |x: int| true
}

/// The retained object count of node `a`: itself plus every node it
/// strictly dominates.
pub open spec fn retained_count(iv: Seq<Option<usize>>, a: int) -> nat {
    1 + wsum(one_w(), sel_anc_full(iv, a), iv.len() as int)
}

/// The retained bytes of node `a`: its own self size plus that of
/// every node it strictly dominates.
pub open spec fn retained_bytes(nodes: Seq<Object>, iv: Seq<Option<usize>>, a: int) -> nat {
    (nodes[a].bytes + wsum(bytes_w(nodes), sel_anc_full(iv, a), iv.len() as int)) as nat
}

/// How many nodes are reachable from the root.
pub open spec fn reach_count(edges: Seq<(usize, usize)>, root: int, m: int) -> nat {
    wsum(one_w(), sel_reach(edges, root), m)
}

/// The total self size of the nodes reachable from the root.
pub open spec fn reach_bytes(
    nodes: Seq<Object>,
    edges: Seq<(usize, usize)>,
    root: int,
    m: int,
) -> nat {
    wsum(bytes_w(nodes), sel_reach(edges, root), m)
}

/// The total self size of all nodes.
pub open spec fn total_bytes(nodes: Seq<Object>, m: int) -> nat {
    wsum(bytes_w(nodes), sel_all(), m)
}

/// Sums agree wherever the selectors agree.
pub proof fn lemma_wsum_congruent(
    w: spec_fn(int) -> nat,
    sel1: spec_fn(int) -> bool,
    sel2: spec_fn(int) -> bool,
    m: int,
)
    requires
        forall|y: int| #![trigger sel1(y)] 0 <= y < m ==> sel1(y) == sel2(y),
    ensures
        wsum(w, sel1, m) == wsum(w, sel2, m),
    decreases m,
{
    if m > 0 {
        lemma_wsum_congruent(w, sel1, sel2, m - 1);
    }
}

/// A sum cut off at `i` is a sum up to `i`.
proof fn lemma_wsum_cutoff(w: spec_fn(int) -> nat, iv: Seq<Option<usize>>, a: int, n: int)
    requires
        0 <= n,
    ensures
        wsum(w, sel_anc(iv, a, n), n) == wsum(w, sel_anc_full(iv, a), n),
{
    lemma_wsum_congruent(w, sel_anc(iv, a, n), sel_anc_full(iv, a), n);
}

/// Selecting one more index adds its weight.
pub proof fn lemma_wsum_add_point(w: spec_fn(int) -> nat, sel: spec_fn(int) -> bool, x: int, n: int)
    requires
        0 <= x < n,
        !sel(x),
    ensures
        wsum(w, sel_plus(sel, x), n) == wsum(w, sel, n) + w(x),
    decreases n,
{
    if x == n - 1 {
        lemma_wsum_congruent(w, sel, sel_plus(sel, x), n - 1);
    } else {
        lemma_wsum_add_point(w, sel, x, n - 1);
    }
}

/// A larger selection weighs at least as much.
pub proof fn lemma_wsum_mono(
    w: spec_fn(int) -> nat,
    sel1: spec_fn(int) -> bool,
    sel2: spec_fn(int) -> bool,
    m: int,
)
    requires
        forall|y: int| #![trigger sel1(y)] 0 <= y < m ==> (sel1(y) ==> sel2(y)),
    ensures
        wsum(w, sel1, m) <= wsum(w, sel2, m),
    decreases m,
{
    if m > 0 {
        lemma_wsum_mono(w, sel1, sel2, m - 1);
    }
}

/// A count of selected indices below `m` is at most `m`.
pub proof fn lemma_wsum_count_le(sel: spec_fn(int) -> bool, m: int)
    requires
        m >= 0,
    ensures
        wsum(one_w(), sel, m) <= m,
    decreases m,
{
    if m > 0 {
        lemma_wsum_count_le(sel, m - 1);
    }
}

/// A chain's length to the root is unique.
proof fn lemma_chain_unique(iv: Seq<Option<usize>>, root: int, i: int, k1: nat, k2: nat)
    requires
        0 <= root < iv.len(),
        iv[root] is None,
        chain_reaches(iv, root, i, k1),
        chain_reaches(iv, root, i, k2),
    ensures
        k1 == k2,
    decreases k1,
{
    if i == root {
        assert(k1 == 0 && k2 == 0);
    } else {
        assert(k1 > 0 && k2 > 0);
        lemma_chain_unique(iv, root, iv[i].unwrap() as int, (k1 - 1) as nat, (k2 - 1) as nat);
    }
}

/// A strict dominator of `i` sits strictly closer to the root.
proof fn lemma_anc_depth(iv: Seq<Option<usize>>, root: int, i: int, a: int, k: nat, ki: nat)
    requires
        0 <= root < iv.len(),
        iv[root] is None,
        anc(iv, i, a, k),
        chain_reaches(iv, root, i, ki),
    ensures
        exists|ka: nat| ka < ki && chain_reaches(iv, root, a, ka),
    decreases k,
{
    assert(i != root);
    assert(ki > 0);
    let d = iv[i].unwrap() as int;
    if d == a {
        assert(chain_reaches(iv, root, a, (ki - 1) as nat));
    } else {
        lemma_anc_depth(iv, root, d, a, (k - 1) as nat, (ki - 1) as nat);
    }
}

/// No node strictly dominates itself.
proof fn lemma_no_self(iv: Seq<Option<usize>>, root: int, i: int, k: nat, ki: nat)
    requires
        0 <= root < iv.len(),
        iv[root] is None,
        chain_reaches(iv, root, i, ki),
    ensures
        !anc(iv, i, i, k),
{
    if anc(iv, i, i, k) {
        lemma_anc_depth(iv, root, i, i, k, ki);
        let ka = choose|ka: nat| ka < ki && chain_reaches(iv, root, i, ka);
        lemma_chain_unique(iv, root, i, ka, ki);
    }
}

/// A dominator chain extends by one step.
proof fn lemma_anc_extend(iv: Seq<Option<usize>>, i: int, cur: int, d: usize, k: nat)
    requires
        anc(iv, i, cur, k),
        0 <= cur < iv.len(),
        iv[cur] == Some(d),
    ensures
        anc(iv, i, d as int, (k + 1) as nat),
    decreases k,
{
    let m = iv[i].unwrap() as int;
    if m == cur {
        assert(k > 0);
        assert(anc(iv, cur, d as int, k));
    } else {
        lemma_anc_extend(iv, m, cur, d, (k - 1) as nat);
    }
}

/// A node whose chain reaches the root is strictly dominated by it.
proof fn lemma_chain_to_anc(iv: Seq<Option<usize>>, root: int, x: int, k: nat)
    requires
        chain_reaches(iv, root, x, k),
        x != root,
    ensures
        anc(iv, x, root, k),
    decreases k,
{
    let d = iv[x].unwrap() as int;
    if d != root {
        lemma_chain_to_anc(iv, root, d, (k - 1) as nat);
    }
}

/// A strict dominator is the root or has a dominator itself.
proof fn lemma_anc_target(n: nat, iv: Seq<Option<usize>>, root: int, i: int, a: int, k: nat)
    requires
        iv.len() == n,
        forall|j: int|
            0 <= j < n ==> ((#[trigger] iv[j]) matches Some(d) ==> d < n && d as int != j && (
            d as int == root || iv[d as int] is Some)),
        anc(iv, i, a, k),
    ensures
        0 <= a < n,
        a == root || iv[a] is Some,
    decreases k,
{
    let d = iv[i].unwrap() as int;
    if d != a {
        lemma_anc_target(n, iv, root, d, a, (k - 1) as nat);
    }
}

/// Two strict dominators of `i` equally far from the root are the same
/// node.
proof fn lemma_same_depth(
    iv: Seq<Option<usize>>,
    root: int,
    i: int,
    a: int,
    b: int,
    k1: nat,
    k2: nat,
    ka: nat,
    ki: nat,
)
    requires
        0 <= root < iv.len(),
        iv[root] is None,
        anc(iv, i, a, k1),
        anc(iv, i, b, k2),
        chain_reaches(iv, root, a, ka),
        chain_reaches(iv, root, b, ka),
        chain_reaches(iv, root, i, ki),
    ensures
        a == b,
    decreases k1,
{
    assert(i != root);
    assert(ki > 0);
    let d = iv[i].unwrap() as int;
    let kd = (ki - 1) as nat;
    assert(chain_reaches(iv, root, d, kd));
    if d == a && d == b {
    } else if d == a {
        lemma_anc_depth(iv, root, d, b, (k2 - 1) as nat, kd);
        let kb = choose|kb: nat| kb < kd && chain_reaches(iv, root, b, kb);
        lemma_chain_unique(iv, root, b, kb, ka);
        lemma_chain_unique(iv, root, a, kd, ka);
    } else if d == b {
        lemma_anc_depth(iv, root, d, a, (k1 - 1) as nat, kd);
        let kaa = choose|kaa: nat| kaa < kd && chain_reaches(iv, root, a, kaa);
        lemma_chain_unique(iv, root, a, kaa, ka);
        lemma_chain_unique(iv, root, b, kd, ka);
    } else {
        lemma_same_depth(iv, root, d, a, b, (k1 - 1) as nat, (k2 - 1) as nat, ka, kd);
    }
}

/// Whether `a`'s chain to the root is at least `kc` long.
spec fn depth_ge(iv: Seq<Option<usize>>, root: int, a: int, kc: nat) -> bool {
    exists|ka: nat| ka >= kc && chain_reaches(iv, root, a, ka)
}

/// The nodes the root strictly dominates are exactly the other
/// reachable nodes.
proof fn lemma_chain_root_iff(
    n: nat,
    edges: Seq<(usize, usize)>,
    root: int,
    iv: Seq<Option<usize>>,
    x: int,
)
    requires
        idoms_wf(n, edges, root, iv),
        0 <= x < n,
    ensures
        in_chain(iv, x, root) <==> (reachable(edges, root, x) && x != root),
{
    if in_chain(iv, x, root) {
        let k = choose|k: nat| anc(iv, x, root, k);
        assert(anc(iv, x, root, k));
        assert(iv[x] is Some);
    }
    if reachable(edges, root, x) && x != root {
        assert(iv[x] is Some);
        let k = choose|k: nat| k <= n && chain_reaches(iv, root, x, k);
        lemma_chain_to_anc(iv, root, x, k);
    }
}

/// What one table entry holds while the records up to `i` have been
/// propagated and, within the walk for record `i`, every strict
/// dominator at depth at least `kc` has been visited.
spec fn entry_mid(
    nodes: Seq<Object>,
    iv: Seq<Option<usize>>,
    root: int,
    a: int,
    i: int,
    kc: nat,
    e: Stats,
) -> bool {
    &&& e.count == 1 + wsum(one_w(), sel_anc(iv, a, i), nodes.len() as int) + (if in_chain(
        iv,
        i,
        a,
    ) && depth_ge(iv, root, a, kc) {
        1nat
    } else {
        0nat
    })
    &&& e.bytes == nodes[a].bytes + wsum(bytes_w(nodes), sel_anc(iv, a, i), nodes.len() as int) + (
    if in_chain(iv, i, a) && depth_ge(iv, root, a, kc) {
        nodes[i].bytes as nat
    } else {
        0nat
    })
}

/// What one table entry holds once the walks for all records up to `i`
/// are complete.
spec fn entry_at(
    nodes: Seq<Object>,
    iv: Seq<Option<usize>>,
    a: int,
    i: int,
    e: Stats,
) -> bool {
    &&& e.count == 1 + wsum(one_w(), sel_anc(iv, a, i), nodes.len() as int)
    &&& e.bytes == nodes[a].bytes + wsum(bytes_w(nodes), sel_anc(iv, a, i), nodes.len() as int)
}

/// Computes each node's retained stats: its own stats plus those of
/// every node it strictly dominates in the reachability graph rooted
/// at `root`. The root's entry sums the stats of every reachable node,
/// each counted exactly once; unreachable nodes keep their own stats.
pub fn dominator_subtree_sizes(g: &HeapGraph, root: usize) -> (r: Vec<Stats>)
    requires
        g.wf(),
        root < g.nodes@.len(),
        g.nodes@.len() < usize::MAX,
        total_bytes(g.nodes@, g.nodes@.len() as int) <= usize::MAX,
    ensures
        r@.len() == g.nodes@.len(),
        exists|iv: Seq<Option<usize>>|
            {
                &&& #[trigger] idoms_wf(g.nodes@.len() as nat, g.edges@, root as int, iv)
                &&& forall|a: int|
                    0 <= a < r@.len() ==> (#[trigger] r@[a]).count == retained_count(iv, a)
                        && r@[a].bytes == retained_bytes(g.nodes@, iv, a)
            },
        forall|a: int|
            0 <= a < r@.len() ==> (#[trigger] r@[a]).bytes >= g.nodes@[a].bytes && r@[a].count >= 1,
        r@[root as int].count == reach_count(g.edges@, root as int, g.nodes@.len() as int),
        r@[root as int].bytes == reach_bytes(
            g.nodes@,
            g.edges@,
            root as int,
            g.nodes@.len() as int,
        ),
{
    let n = g.nodes.len();
    let idoms = compute_idoms(n, &g.edges, root);
    let ghost iv = idoms@;
    let ghost nodes = g.nodes@;
    let ghost rt = root as int;

    let mut table: Vec<Stats> = Vec::new();
    let mut i: usize = 0;
    while i < n
        invariant
            0 <= i <= n,
            n == nodes.len(),
            g.nodes@ == nodes,
            table@.len() == i,
            forall|a: int|
                0 <= a < i ==> (#[trigger] table@[a]).count == 1 && table@[a].bytes
                    == nodes[a].bytes,
        decreases n - i,
    {
        table.push(g.nodes[i].stats());
        i = i + 1;
    }
    proof {
        assert forall|a: int| 0 <= a < n implies entry_at(nodes, iv, a, 0, #[trigger] table@[a]) by {
            assert(wsum(one_w(), sel_anc(iv, a, 0), n as int) == 0) by {
                lemma_wsum_count_le(sel_anc(iv, a, 0), n as int);
                lemma_wsum_mono(one_w(), sel_anc(iv, a, 0), sel_anc(iv, a, 0), n as int);
                lemma_wsum_zero(one_w(), sel_anc(iv, a, 0), n as int);
            }
            assert(wsum(bytes_w(nodes), sel_anc(iv, a, 0), n as int) == 0) by {
                lemma_wsum_zero(bytes_w(nodes), sel_anc(iv, a, 0), n as int);
            }
        }
    }

    let mut i: usize = 0;
    while i < n
        invariant
            0 <= i <= n,
            n == nodes.len(),
            n < usize::MAX,
            g.nodes@ == nodes,
            g.wf(),
            idoms@ == iv,
            idoms_wf(n as nat, g.edges@, rt, iv),
            total_bytes(nodes, n as int) <= usize::MAX,
            table@.len() == n,
            forall|a: int| 0 <= a < n ==> entry_at(nodes, iv, a, i as int, #[trigger] table@[a]),
        decreases n - i,
    {
        let own = g.nodes[i].stats();
        let ghost ki0: nat = if iv[i as int] is Some {
            choose|k: nat| k <= n && chain_reaches(iv, rt, i as int, k)
        } else {
            0nat
        };
        let mut cur: usize = i;
        let ghost mut kc: nat = ki0;
        proof {
            assert forall|a: int| 0 <= a < n implies entry_mid(
                nodes,
                iv,
                rt,
                a,
                i as int,
                kc,
                #[trigger] table@[a],
            ) by {
                assert(!(in_chain(iv, i as int, a) && depth_ge(iv, rt, a, kc))) by {
                    if in_chain(iv, i as int, a) && depth_ge(iv, rt, a, kc) {
                        let k = choose|k: nat| anc(iv, i as int, a, k);
                        lemma_anc_depth(iv, rt, i as int, a, k, ki0);
                        let kl = choose|kl: nat| kl < ki0 && chain_reaches(iv, rt, a, kl);
                        let kg = choose|kg: nat| kg >= kc && chain_reaches(iv, rt, a, kg);
                        lemma_chain_unique(iv, rt, a, kl, kg);
                    }
                }
            }
        }
        #[verifier::loop_isolation(true)]
        loop
            invariant
                0 <= i < n,
                n == nodes.len(),
                n < usize::MAX,
                g.nodes@ == nodes,
                idoms@ == iv,
                idoms_wf(n as nat, g.edges@, rt, iv),
                total_bytes(nodes, n as int) <= usize::MAX,
                table@.len() == n,
                0 <= cur < n,
                own.count == 1 && own.bytes == nodes[i as int].bytes,
                iv[i as int] is Some ==> chain_reaches(iv, rt, i as int, ki0),
                iv[i as int] is Some ==> chain_reaches(iv, rt, cur as int, kc),
                iv[i as int] is None ==> cur == i,
                cur == i as usize || in_chain(iv, i as int, cur as int),
                forall|a: int|
                    0 <= a < n ==> entry_mid(nodes, iv, rt, a, i as int, kc, #[trigger] table@[a]),
            ensures
                table@.len() == n,
                forall|a: int|
                    0 <= a < n ==> entry_at(nodes, iv, a, i + 1, #[trigger] table@[a]),
            decreases kc,
        {
            match idoms[cur] {
                Some(d) => {
                    proof {
                        assert(iv[cur as int] == Some(d));
                        assert(iv[i as int] is Some) by {
                            if cur != i {
                                let k = choose|k: nat| anc(iv, i as int, cur as int, k);
                                assert(anc(iv, i as int, cur as int, k));
                            }
                        }
                        assert(cur as int != rt);
                        assert(kc > 0) by {
                            if kc == 0 {
                                assert(chain_reaches(iv, rt, cur as int, 0nat));
                            }
                        }
                        assert(chain_reaches(iv, rt, d as int, (kc - 1) as nat));
                        if cur == i {
                            assert(anc(iv, i as int, d as int, 1nat));
                        } else {
                            let k = choose|k: nat| anc(iv, i as int, cur as int, k);
                            lemma_anc_extend(iv, i as int, cur as int, d, k);
                        }
                        assert(in_chain(iv, i as int, d as int));
                        assert(!depth_ge(iv, rt, d as int, kc)) by {
                            if depth_ge(iv, rt, d as int, kc) {
                                let ka = choose|ka: nat|
                                    ka >= kc && chain_reaches(iv, rt, d as int, ka);
                                lemma_chain_unique(iv, rt, d as int, ka, (kc - 1) as nat);
                            }
                        }
                        assert(d as int != i as int) by {
                            if d as int == i as int {
                                let k = choose|k: nat| anc(iv, i as int, i as int, k);
                                lemma_no_self(iv, rt, i as int, k, ki0);
                            }
                        }
                    }
                    let s = table[d];
                    proof {
                        let seld = sel_anc(iv, d as int, i as int);
                        let seld1 = sel_plus(seld, d as int);
                        let seld2 = sel_plus(seld1, i as int);
                        assert(!seld(d as int)) by {
                            if in_chain(iv, d as int, d as int) {
                                let k = choose|k: nat| anc(iv, d as int, d as int, k);
                                lemma_no_self(iv, rt, d as int, k, (kc - 1) as nat);
                            }
                        }
                        lemma_wsum_add_point(bytes_w(nodes), seld, d as int, n as int);
                        lemma_wsum_add_point(one_w(), seld, d as int, n as int);
                        lemma_wsum_add_point(bytes_w(nodes), seld1, i as int, n as int);
                        lemma_wsum_add_point(one_w(), seld1, i as int, n as int);
                        lemma_wsum_mono(bytes_w(nodes), seld2, sel_all(), n as int);
                        lemma_wsum_count_le(seld2, n as int);
                        assert(s.bytes + own.bytes <= usize::MAX);
                        assert(s.count + own.count <= usize::MAX);
                    }
                    table[d] = s.add(own);
                    proof {
                        let oldkc = kc;
                        kc = (kc - 1) as nat;
                        assert(depth_ge(iv, rt, d as int, kc)) by {
                            assert(chain_reaches(iv, rt, d as int, kc));
                        }
                        assert forall|a: int|
                            0 <= a < n && a != d as int implies ((in_chain(iv, i as int, a)
                            && depth_ge(iv, rt, a, kc)) == (in_chain(iv, i as int, a) && depth_ge(
                            iv,
                            rt,
                            a,
                            oldkc,
                        ))) by {
                            if in_chain(iv, i as int, a) && depth_ge(iv, rt, a, kc) && !depth_ge(
                                iv,
                                rt,
                                a,
                                oldkc,
                            ) {
                                let ka = choose|ka: nat| ka >= kc && chain_reaches(iv, rt, a, ka);
                                assert(ka == kc) by {
                                    if ka > kc {
                                        assert(ka >= oldkc);
                                    }
                                }
                                let k1 = choose|k1: nat| anc(iv, i as int, a, k1);
                                let k2 = choose|k2: nat| anc(iv, i as int, d as int, k2);
                                lemma_same_depth(
                                    iv,
                                    rt,
                                    i as int,
                                    a,
                                    d as int,
                                    k1,
                                    k2,
                                    ka,
                                    ki0,
                                );
                            }
                        }
                    }
                    cur = d;
                },
                None => {
                    proof {
                        if iv[i as int] is Some {
                            assert(cur as int == rt);
                            assert(kc == 0) by {
                                if kc != 0 {
                                    assert(iv[rt] is Some);
                                }
                            }
                        }
                        assert forall|a: int| 0 <= a < n implies ((in_chain(iv, i as int, a)
                            && depth_ge(iv, rt, a, kc)) == in_chain(iv, i as int, a)) by {
                            if in_chain(iv, i as int, a) {
                                let k = choose|k: nat| anc(iv, i as int, a, k);
                                assert(anc(iv, i as int, a, k));
                                assert(iv[i as int] is Some);
                                lemma_anc_target(n as nat, iv, rt, i as int, a, k);
                                assert(depth_ge(iv, rt, a, 0nat)) by {
                                    if a == rt {
                                        assert(chain_reaches(iv, rt, a, 0nat));
                                    } else {
                                        assert(iv[a] is Some);
                                        let ka = choose|ka: nat|
                                            ka <= n && chain_reaches(iv, rt, a, ka);
                                        assert(chain_reaches(iv, rt, a, ka));
                                    }
                                }
                            }
                        }
                        assert forall|a: int| 0 <= a < n implies entry_at(
                            nodes,
                            iv,
                            a,
                            i + 1,
                            #[trigger] table@[a],
                        ) by {
                            if in_chain(iv, i as int, a) {
                                lemma_wsum_add_point(
                                    one_w(),
                                    sel_anc(iv, a, i as int),
                                    i as int,
                                    n as int,
                                );
                                lemma_wsum_add_point(
                                    bytes_w(nodes),
                                    sel_anc(iv, a, i as int),
                                    i as int,
                                    n as int,
                                );
                                lemma_wsum_congruent(
                                    one_w(),
                                    sel_plus(sel_anc(iv, a, i as int), i as int),
                                    sel_anc(iv, a, i + 1),
                                    n as int,
                                );
                                lemma_wsum_congruent(
                                    bytes_w(nodes),
                                    sel_plus(sel_anc(iv, a, i as int), i as int),
                                    sel_anc(iv, a, i + 1),
                                    n as int,
                                );
                            } else {
                                lemma_wsum_congruent(
                                    one_w(),
                                    sel_anc(iv, a, i as int),
                                    sel_anc(iv, a, i + 1),
                                    n as int,
                                );
                                lemma_wsum_congruent(
                                    bytes_w(nodes),
                                    sel_anc(iv, a, i as int),
                                    sel_anc(iv, a, i + 1),
                                    n as int,
                                );
                            }
                        }
                    }
                    break ;
                },
            }
        }
        i = i + 1;
    }
    proof {
        assert forall|a: int| 0 <= a < n implies (#[trigger] table@[a]).count == retained_count(
            iv,
            a,
        ) && table@[a].bytes == retained_bytes(nodes, iv, a) by {
            lemma_wsum_cutoff(one_w(), iv, a, n as int);
            lemma_wsum_cutoff(bytes_w(nodes), iv, a, n as int);
        }
        assert forall|a: int| 0 <= a < n implies (#[trigger] table@[a]).bytes >= nodes[a].bytes
            && table@[a].count >= 1 by {}
        // The root's totals range over exactly the reachable nodes.
        assert(!sel_anc_full(iv, rt)(rt)) by {
            if in_chain(iv, rt, rt) {
                let k = choose|k: nat| anc(iv, rt, rt, k);
                assert(anc(iv, rt, rt, k));
                assert(iv[rt] is Some);
            }
        }
        lemma_wsum_add_point(one_w(), sel_anc_full(iv, rt), rt, n as int);
        lemma_wsum_add_point(bytes_w(nodes), sel_anc_full(iv, rt), rt, n as int);
        assert forall|x: int| #![trigger sel_reach(g.edges@, rt)(x)] 0 <= x < n implies (sel_plus(
            sel_anc_full(iv, rt),
            rt,
        )(x) == sel_reach(g.edges@, rt)(x)) by {
            lemma_chain_root_iff(n as nat, g.edges@, rt, iv, x);
            if x == rt {
                assert(reachable_in(g.edges@, rt, x, 0nat));
            }
        }
        lemma_wsum_congruent(
            one_w(),
            sel_plus(sel_anc_full(iv, rt), rt),
            sel_reach(g.edges@, rt),
            n as int,
        );
        lemma_wsum_congruent(
            bytes_w(nodes),
            sel_plus(sel_anc_full(iv, rt), rt),
            sel_reach(g.edges@, rt),
            n as int,
        );
    }
    table
}

/// Law: dominance monotonicity. A node's retained stats are at least
/// those of any node whose immediate dominator it is: everything the
/// child retains, the parent retains too, plus the child itself.
pub proof fn lemma_dominance_monotonic(
    nodes: Seq<Object>,
    edges: Seq<(usize, usize)>,
    root: int,
    iv: Seq<Option<usize>>,
    c: int,
    p: usize,
)
    requires
        idoms_wf(nodes.len() as nat, edges, root, iv),
        0 <= c < nodes.len(),
        iv[c] == Some(p),
    ensures
        retained_bytes(nodes, iv, p as int) >= retained_bytes(nodes, iv, c),
        retained_count(iv, p as int) >= retained_count(iv, c),
        retained_bytes(nodes, iv, c) >= nodes[c].bytes,
{
    let n = nodes.len() as int;
    let kc = choose|k: nat| k <= nodes.len() && chain_reaches(iv, root, c, k);
    assert(chain_reaches(iv, root, c, kc));
    let selc = sel_anc_full(iv, c);
    let selc1 = sel_plus(selc, c);
    let selp = sel_anc_full(iv, p as int);
    assert(!selc(c)) by {
        if in_chain(iv, c, c) {
            let k = choose|k: nat| anc(iv, c, c, k);
            lemma_no_self(iv, root, c, k, kc);
        }
    }
    lemma_wsum_add_point(one_w(), selc, c, n);
    lemma_wsum_add_point(bytes_w(nodes), selc, c, n);
    assert forall|y: int| #![trigger selc1(y)] 0 <= y < n && selc1(y) implies selp(y) by {
        {
            if y == c {
                assert(anc(iv, c, p as int, 1nat));
            } else {
                let k = choose|k: nat| anc(iv, y, c, k);
                lemma_anc_extend(iv, y, c, p, k);
            }
        }
    }
    lemma_wsum_mono(one_w(), selc1, selp, n);
    lemma_wsum_mono(bytes_w(nodes), selc1, selp, n);
}

/// An empty selection weighs nothing.
pub proof fn lemma_wsum_zero(w: spec_fn(int) -> nat, sel: spec_fn(int) -> bool, m: int)
    requires
        forall|y: int| #![trigger sel(y)] 0 <= y < m ==> !sel(y),
    ensures
        wsum(w, sel, m) == 0,
    decreases m,
{
    if m > 0 {
        lemma_wsum_zero(w, sel, m - 1);
    }
}

} // verus!
