//! The reference graph: one node per surviving record plus the
//! synthetic root at index 0, and one directed edge per resolvable
//! declared reference. Dangling references are dropped, and a final
//! rewrite pass replaces each instance's kind by its class's declared
//! name.
use vstd::prelude::*;

use crate::line::ParsedLine;
use crate::object::Object;
use std::collections::HashMap;

verus! {

broadcast use vstd::std_specs::hash::group_hash_axioms;

/// An index-based directed graph: nodes in insertion order (root
/// first), edges as ordered pairs of node indices.
#[derive(Debug)]
pub struct HeapGraph {
    pub nodes: Vec<Object>,
    pub edges: Vec<(usize, usize)>,
}

impl HeapGraph {
    /// Every edge joins two existing nodes.
    pub open spec fn wf(self) -> bool {
        forall|k: int|
            0 <= k < self.edges@.len() ==> (#[trigger] self.edges@[k]).0 < self.nodes@.len()
                && self.edges@[k].1 < self.nodes@.len()
    }

    pub fn node_count(&self) -> (n: usize)
        ensures
            n == self.nodes@.len(),
    {
        self.nodes.len()
    }

    pub fn edge_count(&self) -> (n: usize)
        ensures
            n == self.edges@.len(),
    {
        self.edges.len()
    }
}

/// A record merged into the synthetic root rather than stored as a
/// node of its own.
pub open spec fn is_root_rec(r: ParsedLine) -> bool {
    r.object.address == 0
}

/// The non-root objects of a record sequence, in order.
pub open spec fn node_objs(rs: Seq<ParsedLine>) -> Seq<Object>
    decreases rs.len(),
{
    if rs.len() == 0 {
        Seq::empty()
    } else {
        node_objs(rs.drop_last()) + (if is_root_rec(rs.last()) {
            Seq::<Object>::empty()
        } else {
            seq![rs.last().object]
        })
    }
}

/// The node index an address resolves to: 0 for the root address, and
/// for any other address the node of the last record that declared it;
/// `None` for an address never declared.
pub open spec fn addr_index(rs: Seq<ParsedLine>, addr: usize) -> Option<int>
    decreases rs.len(),
{
    if addr == 0 {
        Some(0int)
    } else if rs.len() == 0 {
        None
    } else if !is_root_rec(rs.last()) && rs.last().object.address == addr {
        Some(node_objs(rs.drop_last()).len() + 1int)
    } else {
        addr_index(rs.drop_last(), addr)
    }
}

/// The synthetic root's reference list: the concatenation of every
/// root-kind record's references, in order.
pub open spec fn root_refs(rs: Seq<ParsedLine>) -> Seq<usize>
    decreases rs.len(),
{
    if rs.len() == 0 {
        Seq::empty()
    } else {
        root_refs(rs.drop_last()) + (if is_root_rec(rs.last()) {
            rs.last().references@
        } else {
            Seq::<usize>::empty()
        })
    }
}

/// The recorded reference lists of non-root records, keyed by address,
/// in declaration order. A later record with the same address
/// supersedes an earlier entry (see `is_live`); a record with no
/// references records nothing.
pub open spec fn ref_entries(rs: Seq<ParsedLine>) -> Seq<(usize, Seq<usize>)>
    decreases rs.len(),
{
    if rs.len() == 0 {
        Seq::empty()
    } else {
        ref_entries(rs.drop_last()) + (if !is_root_rec(rs.last()) && rs.last().references@.len()
            > 0 {
            seq![(rs.last().object.address, rs.last().references@)]
        } else {
            Seq::<(usize, Seq<usize>)>::empty()
        })
    }
}

/// An entry not superseded by a later entry for the same address.
pub open spec fn is_live(l: Seq<(usize, Seq<usize>)>, j: int) -> bool {
    forall|k: int| j < k < l.len() ==> (#[trigger] l[k]).0 != l[j].0
}

/// Each object's declared class/module address: the last record for
/// that address that declared one.
pub open spec fn module_map(rs: Seq<ParsedLine>) -> Map<usize, usize>
    decreases rs.len(),
{
    if rs.len() == 0 {
        Map::empty()
    } else {
        let m = module_map(rs.drop_last());
        if !is_root_rec(rs.last()) && rs.last().module is Some {
            m.insert(rs.last().object.address, rs.last().module.unwrap())
        } else {
            m
        }
    }
}

/// Each address's declared name: the last record for that address that
/// declared one.
pub open spec fn name_map(rs: Seq<ParsedLine>) -> Map<usize, String>
    decreases rs.len(),
{
    if rs.len() == 0 {
        Map::empty()
    } else {
        let m = name_map(rs.drop_last());
        if !is_root_rec(rs.last()) && rs.last().name is Some {
            m.insert(rs.last().object.address, rs.last().name.unwrap())
        } else {
            m
        }
    }
}

/// The kind an object displays after the rewrite pass: the declared
/// name of its class when both the class address and that class's name
/// were declared, its own kind tag otherwise.
pub open spec fn resolved_kind(rs: Seq<ParsedLine>, o: Object) -> String {
    if module_map(rs).contains_key(o.address) && name_map(rs).contains_key(
        module_map(rs)[o.address],
    ) {
        name_map(rs)[module_map(rs)[o.address]]
    } else {
        o.kind
    }
}

/// The node index an address resolves to, as a machine index.
pub open spec fn idx_of(rs: Seq<ParsedLine>, addr: usize) -> usize {
    match addr_index(rs, addr) {
        Some(i) => i as usize,
        None => 0usize,
    }
}

/// The edges one reference list contributes: one per target address
/// that resolves to a node, in order; dangling targets contribute
/// nothing.
pub open spec fn entry_edges(rs: Seq<ParsedLine>, src: usize, refs: Seq<usize>) -> Seq<
    (usize, usize),
>
    decreases refs.len(),
{
    if refs.len() == 0 {
        Seq::empty()
    } else {
        entry_edges(rs, src, refs.drop_last()) + (match addr_index(rs, refs.last()) {
            Some(j) => seq![(src, j as usize)],
            None => Seq::<(usize, usize)>::empty(),
        })
    }
}

/// The edges of the first `m` recorded entries that are live.
pub open spec fn live_entry_edges(rs: Seq<ParsedLine>, m: int) -> Seq<(usize, usize)>
    decreases m,
{
    if m <= 0 {
        Seq::empty()
    } else {
        live_entry_edges(rs, m - 1) + (if is_live(ref_entries(rs), m - 1) {
            entry_edges(rs, idx_of(rs, ref_entries(rs)[m - 1].0), ref_entries(rs)[m - 1].1)
        } else {
            Seq::<(usize, usize)>::empty()
        })
    }
}

/// All edges of the graph: the root's references first, then each live
/// entry's, in order.
pub open spec fn graph_edges(rs: Seq<ParsedLine>) -> Seq<(usize, usize)> {
    entry_edges(rs, 0, root_refs(rs)) + live_entry_edges(rs, ref_entries(rs).len() as int)
}

/// Law: dangling-reference tolerance. A reference to an address that
/// no record declares resolves to no node, so it contributes no edge
/// to the graph; it is silently dropped rather than an error.
pub proof fn lemma_dangling_tolerance(rs: Seq<ParsedLine>, src: usize, refs: Seq<usize>, t: usize)
    requires
        addr_index(rs, t) is None,
    ensures
        entry_edges(rs, src, refs.push(t)) == entry_edges(rs, src, refs),
{
    assert(refs.push(t).drop_last() =~= refs);
    assert(entry_edges(rs, src, refs.push(t)) =~= entry_edges(rs, src, refs));
}

/// What the root node looks like.
pub open spec fn root_props(o: Object) -> bool {
    o.address == 0 && o.bytes == 0 && o.kind@ == "ROOT"@ && (o.label matches Some(l) && l@
        == "root"@)
}

/// A resolvable address resolves within the node range.
proof fn lemma_addr_index_bound(rs: Seq<ParsedLine>, addr: usize)
    ensures
        addr_index(rs, addr) matches Some(i) ==> 0 <= i <= node_objs(rs).len(),
    decreases rs.len(),
{
    if rs.len() > 0 {
        lemma_addr_index_bound(rs.drop_last(), addr);
        assert(node_objs(rs).len() >= node_objs(rs.drop_last()).len());
    }
}

/// Once an address resolves, later records never unresolve it.
proof fn lemma_addr_index_mono(rs: Seq<ParsedLine>, i: int, addr: usize)
    requires
        0 <= i <= rs.len(),
        addr_index(rs.take(i), addr) is Some,
    ensures
        addr_index(rs, addr) is Some,
    decreases rs.len() - i,
{
    if i < rs.len() {
        assert(rs.take(i + 1).drop_last() =~= rs.take(i));
        lemma_addr_index_mono(rs, i + 1, addr);
    } else {
        assert(rs.take(i) =~= rs);
    }
}

/// Every recorded entry's address resolves to a node.
proof fn lemma_entry_indexed(rs: Seq<ParsedLine>, j: int)
    requires
        0 <= j < ref_entries(rs).len(),
    ensures
        addr_index(rs, ref_entries(rs)[j].0) is Some,
    decreases rs.len(),
{
    if rs.len() > 0 {
        if j < ref_entries(rs.drop_last()).len() {
            lemma_entry_indexed(rs.drop_last(), j);
            assert(rs.drop_last() =~= rs.take(rs.len() - 1));
            lemma_addr_index_mono(rs, rs.len() - 1, ref_entries(rs.drop_last())[j].0);
        }
    }
}

/// The root address is never rewritten: no record gives it a class.
proof fn lemma_module_map_no_root(rs: Seq<ParsedLine>)
    ensures
        !module_map(rs).contains_key(0usize),
    decreases rs.len(),
{
    if rs.len() > 0 {
        lemma_module_map_no_root(rs.drop_last());
    }
}

/// There are no more nodes than records.
proof fn lemma_node_objs_len(rs: Seq<ParsedLine>)
    ensures
        node_objs(rs).len() <= rs.len(),
    decreases rs.len(),
{
    if rs.len() > 0 {
        lemma_node_objs_len(rs.drop_last());
    }
}

/// Every edge of the model joins two existing nodes.
proof fn lemma_entry_edges_wf(rs: Seq<ParsedLine>, src: usize, refs: Seq<usize>)
    requires
        src < node_objs(rs).len() + 1,
        node_objs(rs).len() <= usize::MAX,
    ensures
        forall|k: int|
            0 <= k < entry_edges(rs, src, refs).len() ==> (#[trigger] entry_edges(rs, src, refs)[k]).0
                < node_objs(rs).len() + 1 && entry_edges(rs, src, refs)[k].1 < node_objs(rs).len()
                + 1,
    decreases refs.len(),
{
    if refs.len() > 0 {
        lemma_entry_edges_wf(rs, src, refs.drop_last());
        lemma_addr_index_bound(rs, refs.last());
        let e = entry_edges(rs, src, refs);
        let p = entry_edges(rs, src, refs.drop_last());
        assert forall|k: int| 0 <= k < e.len() implies (#[trigger] e[k]).0 < node_objs(rs).len()
            + 1 && e[k].1 < node_objs(rs).len() + 1 by {
            if k < p.len() {
                assert(e[k] == p[k]);
            } else {
                match addr_index(rs, refs.last()) {
                    Some(i) => {
                        assert(e[k] == (src, i as usize));
                    },
                    None => {},
                }
            }
        }
    }
}

/// Builds the graph from the parsed records: the synthetic root first,
/// then one node per non-root record in order; edges resolve each
/// recorded reference list against the declared addresses, silently
/// dropping dangling targets; finally each node's kind is rewritten to
/// its class's declared name where one exists. Returns the root's node
/// index (always 0) and the graph.
#[verifier::rlimit(60)]
pub fn build_graph(records: Vec<ParsedLine>) -> (r: (usize, HeapGraph))
    ensures
        r.0 == 0,
        r.1.nodes@.len() == node_objs(records@).len() + 1,
        root_props(r.1.nodes@[0]),
        forall|j: int|
            1 <= j < r.1.nodes@.len() ==> #[trigger] r.1.nodes@[j] == (Object {
                kind: resolved_kind(records@, node_objs(records@)[j - 1]),
                ..node_objs(records@)[j - 1]
            }),
        r.1.edges@ == graph_edges(records@),
        r.1.wf(),
{
    let n = records.len();
    let ghost rs = records@;
    let mut nodes: Vec<Object> = Vec::new();
    nodes.push(Object::root());
    let mut indices: HashMap<usize, usize> = HashMap::new();
    indices.insert(0, 0);
    let mut root_rf: Vec<usize> = Vec::new();
    let mut entries: Vec<(usize, Vec<usize>)> = Vec::new();
    let mut slot: HashMap<usize, usize> = HashMap::new();
    let mut modules: HashMap<usize, usize> = HashMap::new();
    let mut names: HashMap<usize, String> = HashMap::new();

    let mut i: usize = 0;
    while i < n
        invariant
            0 <= i <= n,
            n == rs.len(),
            records@ == rs,
            nodes@.len() == node_objs(rs.take(i as int)).len() + 1,
            root_props(nodes@[0]),
            forall|j: int|
                1 <= j < nodes@.len() ==> nodes@[j] == node_objs(rs.take(i as int))[j - 1],
            forall|a: usize|
                indices@.contains_key(a) <==> addr_index(rs.take(i as int), a) is Some,
            forall|a: usize|
                indices@.contains_key(a) ==> Some(#[trigger] indices@[a] as int) == addr_index(
                    rs.take(i as int),
                    a,
                ),
            root_rf@ == root_refs(rs.take(i as int)),
            entries@.len() == ref_entries(rs.take(i as int)).len(),
            forall|j: int|
                0 <= j < entries@.len() ==> (#[trigger] entries@[j]).0 == ref_entries(
                    rs.take(i as int),
                )[j].0 && entries@[j].1@ == ref_entries(rs.take(i as int))[j].1,
            forall|a: usize|
                slot@.contains_key(a) <==> exists|j: int|
                    0 <= j < ref_entries(rs.take(i as int)).len() && (#[trigger] ref_entries(
                        rs.take(i as int),
                    )[j]).0 == a,
            forall|a: usize|
                #[trigger] slot@.contains_key(a) ==> 0 <= slot@[a] < ref_entries(
                    rs.take(i as int),
                ).len() && ref_entries(rs.take(i as int))[slot@[a] as int].0 == a && is_live(
                    ref_entries(rs.take(i as int)),
                    slot@[a] as int,
                ),
            modules@ == module_map(rs.take(i as int)),
            names@ == name_map(rs.take(i as int)),
        decreases n - i,
    {
        proof {
            assert(rs.take(i + 1).drop_last() =~= rs.take(i as int));
            assert(rs.take(i + 1).last() == rs[i as int]);
        }
        let rec = &records[i];
        if rec.object.address == 0 {
            let m = rec.references.len();
            let mut k: usize = 0;
            while k < m
                invariant
                    0 <= k <= m,
                    m == rec.references@.len(),
                    root_rf@ == root_refs(rs.take(i as int)) + rec.references@.take(k as int),
                decreases m - k,
            {
                root_rf.push(rec.references[k]);
                proof {
                    assert(rec.references@.take(k + 1) =~= rec.references@.take(k as int).push(
                        rec.references@[k as int],
                    ));
                }
                k = k + 1;
            }
            proof {
                assert(rec.references@.take(m as int) =~= rec.references@);
                assert(ref_entries(rs.take(i + 1)) =~= ref_entries(rs.take(i as int)));
                assert(module_map(rs.take(i + 1)) =~= module_map(rs.take(i as int)));
                assert(name_map(rs.take(i + 1)) =~= name_map(rs.take(i as int)));
            }
        } else {
            let addr = rec.object.address;
            nodes.push(rec.object.clone());
            indices.insert(addr, nodes.len() - 1);
            if rec.references.len() > 0 {
                let mut rf: Vec<usize> = Vec::new();
                let m = rec.references.len();
                let mut k: usize = 0;
                while k < m
                    invariant
                        0 <= k <= m,
                        m == rec.references@.len(),
                        rf@ == rec.references@.take(k as int),
                    decreases m - k,
                {
                    rf.push(rec.references[k]);
                    proof {
                        assert(rec.references@.take(k + 1) =~= rec.references@.take(k as int).push(
                            rec.references@[k as int],
                        ));
                    }
                    k = k + 1;
                }
                proof {
                    assert(rf@ =~= rec.references@);
                }
                entries.push((addr, rf));
                slot.insert(addr, entries.len() - 1);
                proof {
                    let l0 = ref_entries(rs.take(i as int));
                    let le = ref_entries(rs.take(i + 1));
                    assert(le =~= l0.push((addr, rec.references@)));
                    assert(le[l0.len() as int].0 == addr);
                    assert forall|a: usize| #[trigger] slot@.contains_key(a) implies exists|jj: int|
                        0 <= jj < le.len() && (#[trigger] le[jj]).0 == a by {
                        if a == addr {
                            assert(le[l0.len() as int].0 == a);
                        } else {
                            let jj = choose|jj: int|
                                0 <= jj < l0.len() && (#[trigger] l0[jj]).0 == a;
                            assert(le[jj].0 == a);
                        }
                    }
                    assert forall|a: usize|
                        (exists|jj: int| 0 <= jj < le.len() && (#[trigger] le[jj]).0 == a)
                            implies slot@.contains_key(a) by {
                        let jj = choose|jj: int| 0 <= jj < le.len() && (#[trigger] le[jj]).0 == a;
                        if jj == l0.len() as int {
                            assert(a == addr);
                        } else {
                            assert(l0[jj].0 == a);
                        }
                    }
                }
            }
            match rec.module {
                Some(mo) => {
                    modules.insert(addr, mo);
                },
                None => {},
            }
            match &rec.name {
                Some(nm) => {
                    names.insert(addr, nm.clone());
                },
                None => {},
            }
            proof {
                if rec.references@.len() == 0 {
                    assert(ref_entries(rs.take(i + 1)) =~= ref_entries(rs.take(i as int)));
                }
                if rec.module is Some {
                    assert(modules@ =~= module_map(rs.take(i + 1)));
                } else {
                    assert(modules@ =~= module_map(rs.take(i + 1)));
                }
                assert(names@ =~= name_map(rs.take(i + 1)));
            }
        }
        i = i + 1;
    }
    proof {
        assert(rs.take(n as int) =~= rs);
    }

    // Pass 2: resolve references into edges; dangling targets are
    // silently dropped.
    let mut edges: Vec<(usize, usize)> = Vec::new();
    let nroot = root_rf.len();
    let mut k: usize = 0;
    while k < nroot
        invariant
            0 <= k <= nroot,
            nroot == root_refs(rs).len(),
            root_rf@ == root_refs(rs),
            forall|a: usize| indices@.contains_key(a) <==> addr_index(rs, a) is Some,
            forall|a: usize|
                indices@.contains_key(a) ==> Some(#[trigger] indices@[a] as int) == addr_index(
                    rs,
                    a,
                ),
            edges@ == entry_edges(rs, 0, root_refs(rs).take(k as int)),
        decreases nroot - k,
    {
        proof {
            assert(root_refs(rs).take(k + 1).drop_last() =~= root_refs(rs).take(k as int));
        }
        match indices.get(&root_rf[k]) {
            Some(j) => edges.push((0, *j)),
            None => {},
        }
        k = k + 1;
    }
    proof {
        assert(root_refs(rs).take(nroot as int) =~= root_refs(rs));
    }
    let nent = entries.len();
    let mut j: usize = 0;
    while j < nent
        invariant
            0 <= j <= nent,
            nent == ref_entries(rs).len(),
            entries@.len() == nent,
            forall|jj: int|
                0 <= jj < entries@.len() ==> (#[trigger] entries@[jj]).0 == ref_entries(rs)[jj].0
                    && entries@[jj].1@ == ref_entries(rs)[jj].1,
            forall|a: usize|
                slot@.contains_key(a) <==> exists|jj: int|
                    0 <= jj < ref_entries(rs).len() && (#[trigger] ref_entries(rs)[jj]).0 == a,
            forall|a: usize|
                #[trigger] slot@.contains_key(a) ==> 0 <= slot@[a] < ref_entries(rs).len()
                    && ref_entries(rs)[slot@[a] as int].0 == a && is_live(
                    ref_entries(rs),
                    slot@[a] as int,
                ),
            forall|a: usize| indices@.contains_key(a) <==> addr_index(rs, a) is Some,
            forall|a: usize|
                indices@.contains_key(a) ==> Some(#[trigger] indices@[a] as int) == addr_index(
                    rs,
                    a,
                ),
            edges@ == entry_edges(rs, 0, root_refs(rs)) + live_entry_edges(rs, j as int),
        decreases nent - j,
    {
        let addr = entries[j].0;
        let live = match slot.get(&addr) {
            Some(s) => *s == j,
            None => false,
        };
        if live {
            proof {
                lemma_entry_indexed(rs, j as int);
            }
            let src = match indices.get(&addr) {
                Some(s) => *s,
                None => 0,
            };
            let m = entries[j].1.len();
            let mut t: usize = 0;
            while t < m
                invariant
                    0 <= t <= m,
                    0 <= j < nent,
                    nent == ref_entries(rs).len(),
                    entries@.len() == nent,
                    m == ref_entries(rs)[j as int].1.len(),
                    entries@[j as int].0 == ref_entries(rs)[j as int].0,
                    entries@[j as int].1@ == ref_entries(rs)[j as int].1,
                    addr == ref_entries(rs)[j as int].0,
                    src == idx_of(rs, addr),
                    forall|a: usize| indices@.contains_key(a) <==> addr_index(rs, a) is Some,
                    forall|a: usize|
                        indices@.contains_key(a) ==> Some(#[trigger] indices@[a] as int)
                            == addr_index(rs, a),
                    edges@ == entry_edges(rs, 0, root_refs(rs)) + live_entry_edges(rs, j as int)
                        + entry_edges(rs, src, ref_entries(rs)[j as int].1.take(t as int)),
                decreases m - t,
            {
                proof {
                    assert(ref_entries(rs)[j as int].1.take(t + 1).drop_last() =~= ref_entries(
                        rs,
                    )[j as int].1.take(t as int));
                }
                match indices.get(&entries[j].1[t]) {
                    Some(tt) => edges.push((src, *tt)),
                    None => {},
                }
                t = t + 1;
            }
            proof {
                assert(ref_entries(rs)[j as int].1.take(m as int) =~= ref_entries(
                    rs,
                )[j as int].1);
            }
        } else {
            proof {
                // A non-live entry is skipped: a later entry with the
                // same address supersedes it.
                assert(slot@.contains_key(addr));
                assert(!is_live(ref_entries(rs), j as int) || slot@[addr] == j) by {
                    if is_live(ref_entries(rs), j as int) && slot@[addr] != j {
                        let sj = slot@[addr] as int;
                        if sj < j {
                            assert(ref_entries(rs)[j as int].0 == ref_entries(rs)[sj].0);
                            assert(!is_live(ref_entries(rs), sj));
                        } else {
                            assert(!is_live(ref_entries(rs), j as int));
                        }
                    }
                };
            }
        }
        j = j + 1;
    }

    // Pass 3: rewrite each instance's kind to its class's declared
    // name, where both are known.
    let nn = nodes.len();
    let mut out: Vec<Object> = Vec::new();
    let mut v: usize = 0;
    while v < nn
        invariant
            0 <= v <= nn,
            nn == nodes@.len(),
            nodes@.len() == node_objs(rs).len() + 1,
            root_props(nodes@[0]),
            forall|w: int| 1 <= w < nodes@.len() ==> nodes@[w] == node_objs(rs)[w - 1],
            modules@ == module_map(rs),
            names@ == name_map(rs),
            out@.len() == v,
            v >= 1 ==> root_props(out@[0]),
            forall|w: int|
                1 <= w < v ==> #[trigger] out@[w] == (Object {
                    kind: resolved_kind(rs, node_objs(rs)[w - 1]),
                    ..node_objs(rs)[w - 1]
                }),
        decreases nn - v,
    {
        let o = &nodes[v];
        let rewritten: Option<String> = match modules.get(&o.address) {
            Some(mo) => match names.get(mo) {
                Some(nm) => Some(nm.clone()),
                None => None,
            },
            None => None,
        };
        proof {
            if v == 0 {
                lemma_module_map_no_root(rs);
            }
        }
        match rewritten {
            Some(nm) => {
                out.push(
                    Object {
                        address: o.address,
                        bytes: o.bytes,
                        kind: nm,
                        label: match &o.label {
                            Some(l) => Some(l.clone()),
                            None => None,
                        },
                    },
                );
            },
            None => {
                out.push(o.clone());
            },
        }
        v = v + 1;
    }
    proof {
        lemma_node_objs_len(rs);
        lemma_entry_edges_wf(rs, 0, root_refs(rs));
        lemma_live_edges_wf(rs, ref_entries(rs).len() as int);
    }
    (0, HeapGraph { nodes: out, edges })
}

/// Every live-entry edge of the model joins two existing nodes.
proof fn lemma_live_edges_wf(rs: Seq<ParsedLine>, m: int)
    requires
        m <= ref_entries(rs).len(),
        node_objs(rs).len() <= usize::MAX,
    ensures
        forall|k: int|
            0 <= k < live_entry_edges(rs, m).len() ==> (#[trigger] live_entry_edges(rs, m)[k]).0
                < node_objs(rs).len() + 1 && live_entry_edges(rs, m)[k].1 < node_objs(rs).len() + 1,
    decreases m,
{
    if m > 0 {
        lemma_live_edges_wf(rs, m - 1);
        let e = live_entry_edges(rs, m);
        let p = live_entry_edges(rs, m - 1);
        if is_live(ref_entries(rs), m - 1) {
            lemma_entry_indexed(rs, m - 1);
            lemma_addr_index_bound(rs, ref_entries(rs)[m - 1].0);
            lemma_entry_edges_wf(rs, idx_of(rs, ref_entries(rs)[m - 1].0), ref_entries(rs)[m - 1].1);
        }
        assert forall|k: int| 0 <= k < e.len() implies (#[trigger] e[k]).0 < node_objs(rs).len()
            + 1 && e[k].1 < node_objs(rs).len() + 1 by {
            if k < p.len() {
                assert(e[k] == p[k]);
            } else {
                let q = entry_edges(
                    rs,
                    idx_of(rs, ref_entries(rs)[m - 1].0),
                    ref_entries(rs)[m - 1].1,
                );
                assert(e[k] == q[k - p.len()]);
            }
        }
    }
}

} // verus!
