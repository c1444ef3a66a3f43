//! Raw per-kind aggregation and top-N selection: group every node's
//! stats by its kind string, regardless of reachability, and rank
//! entries by byte count.
use vstd::prelude::*;

use crate::dominator::{
    bytes_w, lemma_wsum_add_point, lemma_wsum_congruent, lemma_wsum_count_le, lemma_wsum_mono,
    lemma_wsum_zero, one_w, sel_all, sel_plus, total_bytes, wsum,
};
use crate::graph::HeapGraph;
use crate::object::Object;
use crate::stats::Stats;

verus! {

/// The nodes of one kind, cut off at index `i`.
pub open spec fn sel_kind(nodes: Seq<Object>, key: Seq<char>, i: int) -> spec_fn(int) -> bool {
    |x: int| 0 <= x < nodes.len() && nodes[x].kind@ == key && x < i
}

/// Groups every node's stats by its kind string: one entry per
/// distinct kind, holding the exact count and byte total of the nodes
/// of that kind, in order of first appearance.
#[verifier::rlimit(60)]
pub fn stats_by_kind(g: &HeapGraph) -> (r: Vec<(String, Stats)>)
    requires
        g.nodes@.len() < usize::MAX,
        total_bytes(g.nodes@, g.nodes@.len() as int) <= usize::MAX,
    ensures
        forall|j1: int, j2: int| 0 <= j1 < j2 < r@.len() ==> (#[trigger] r@[j1]).0@ != (
        #[trigger] r@[j2]).0@,
        forall|j: int|
            0 <= j < r@.len() ==> (#[trigger] r@[j]).1.count == wsum(
                one_w(),
                sel_kind(g.nodes@, r@[j].0@, g.nodes@.len() as int),
                g.nodes@.len() as int,
            ) && r@[j].1.bytes == wsum(
                bytes_w(g.nodes@),
                sel_kind(g.nodes@, r@[j].0@, g.nodes@.len() as int),
                g.nodes@.len() as int,
            ),
        forall|x: int|
            #![trigger g.nodes@[x].kind]
            0 <= x < g.nodes@.len() ==> exists|j: int|
                0 <= j < r@.len() && (#[trigger] r@[j]).0@ == g.nodes@[x].kind@,
        forall|j: int|
            0 <= j < r@.len() ==> exists|x: int|
                0 <= x < g.nodes@.len() && (#[trigger] g.nodes@[x].kind)@ == (#[trigger] r@[j]).0@,
{
    let n = g.nodes.len();
    let ghost nodes = g.nodes@;
    let mut keys: Vec<String> = Vec::new();
    let mut vals: Vec<Stats> = Vec::new();
    let ghost mut wit: Seq<int> = Seq::empty();
    let mut i: usize = 0;
    while i < n
        invariant
            0 <= i <= n,
            n == nodes.len(),
            n < usize::MAX,
            g.nodes@ == nodes,
            total_bytes(nodes, n as int) <= usize::MAX,
            keys@.len() == vals@.len(),
            forall|j1: int, j2: int| 0 <= j1 < j2 < keys@.len() ==> (#[trigger] keys@[j1])@ != (
            #[trigger] keys@[j2])@,
            forall|j: int|
                0 <= j < keys@.len() ==> (#[trigger] vals@[j]).count == wsum(
                    one_w(),
                    sel_kind(nodes, keys@[j]@, i as int),
                    n as int,
                ) && vals@[j].bytes == wsum(
                    bytes_w(nodes),
                    sel_kind(nodes, keys@[j]@, i as int),
                    n as int,
                ),
            forall|x: int|
                #![trigger nodes[x].kind]
                0 <= x < i ==> exists|j: int|
                    0 <= j < keys@.len() && (#[trigger] keys@[j])@ == nodes[x].kind@,
            wit.len() == keys@.len(),
            forall|j: int|
                0 <= j < keys@.len() ==> 0 <= #[trigger] wit[j] < i && nodes[wit[j]].kind@
                    == keys@[j]@,
        decreases n - i,
    {
        let ghost keys0 = keys@;
        let own = g.nodes[i].stats();
        let mut found: bool = false;
        let mut at: usize = 0;
        let m = keys.len();
        let mut j: usize = 0;
        while j < m
            invariant
                0 <= j <= m,
                m == keys@.len(),
                0 <= i < n,
                n == nodes.len(),
                g.nodes@ == nodes,
                !found ==> forall|jj: int| 0 <= jj < j ==> (#[trigger] keys@[jj])@ != nodes[i as int].kind@,
                found ==> at < m && keys@[at as int]@ == nodes[i as int].kind@,
            decreases m - j,
        {
            if keys[j] == g.nodes[i].kind {
                found = true;
                at = j;
            }
            j = j + 1;
        }
        if found {
            let s = vals[at];
            proof {
                let key = keys@[at as int]@;
                let sel = sel_kind(nodes, key, i as int);
                lemma_wsum_add_point(one_w(), sel, i as int, n as int);
                lemma_wsum_add_point(bytes_w(nodes), sel, i as int, n as int);
                lemma_wsum_count_le(sel_plus(sel, i as int), n as int);
                lemma_wsum_mono(bytes_w(nodes), sel_plus(sel, i as int), sel_all(), n as int);
            }
            vals[at] = s.add(own);
            proof {
                assert forall|j2: int| 0 <= j2 < keys@.len() implies (#[trigger] vals@[j2]).count
                    == wsum(one_w(), sel_kind(nodes, keys@[j2]@, i + 1), n as int)
                    && vals@[j2].bytes == wsum(
                    bytes_w(nodes),
                    sel_kind(nodes, keys@[j2]@, i + 1),
                    n as int,
                ) by {
                    let key = keys@[j2]@;
                    if key == nodes[i as int].kind@ {
                        lemma_wsum_add_point(one_w(), sel_kind(nodes, key, i as int), i as int, n as int);
                        lemma_wsum_add_point(
                            bytes_w(nodes),
                            sel_kind(nodes, key, i as int),
                            i as int,
                            n as int,
                        );
                        lemma_wsum_congruent(
                            one_w(),
                            sel_plus(sel_kind(nodes, key, i as int), i as int),
                            sel_kind(nodes, key, i + 1),
                            n as int,
                        );
                        lemma_wsum_congruent(
                            bytes_w(nodes),
                            sel_plus(sel_kind(nodes, key, i as int), i as int),
                            sel_kind(nodes, key, i + 1),
                            n as int,
                        );
                        assert(j2 == at) by {
                            if j2 != at {
                                assert(keys@[j2]@ != keys@[at as int]@);
                            }
                        }
                    } else {
                        lemma_wsum_congruent(
                            one_w(),
                            sel_kind(nodes, key, i as int),
                            sel_kind(nodes, key, i + 1),
                            n as int,
                        );
                        lemma_wsum_congruent(
                            bytes_w(nodes),
                            sel_kind(nodes, key, i as int),
                            sel_kind(nodes, key, i + 1),
                            n as int,
                        );
                    }
                }
            }
        } else {
            keys.push(g.nodes[i].kind.clone());
            vals.push(own);
            proof {
                wit = wit.push(i as int);
                let key = nodes[i as int].kind@;
                lemma_wsum_zero(one_w(), sel_kind(nodes, key, i as int), n as int);
                lemma_wsum_zero(bytes_w(nodes), sel_kind(nodes, key, i as int), n as int);
                lemma_wsum_add_point(one_w(), sel_kind(nodes, key, i as int), i as int, n as int);
                lemma_wsum_add_point(
                    bytes_w(nodes),
                    sel_kind(nodes, key, i as int),
                    i as int,
                    n as int,
                );
                lemma_wsum_congruent(
                    one_w(),
                    sel_plus(sel_kind(nodes, key, i as int), i as int),
                    sel_kind(nodes, key, i + 1),
                    n as int,
                );
                lemma_wsum_congruent(
                    bytes_w(nodes),
                    sel_plus(sel_kind(nodes, key, i as int), i as int),
                    sel_kind(nodes, key, i + 1),
                    n as int,
                );
                assert forall|j2: int| 0 <= j2 < keys@.len() - 1 implies (#[trigger] vals@[j2]).count
                    == wsum(one_w(), sel_kind(nodes, keys@[j2]@, i + 1), n as int)
                    && vals@[j2].bytes == wsum(
                    bytes_w(nodes),
                    sel_kind(nodes, keys@[j2]@, i + 1),
                    n as int,
                ) by {
                    let k2 = keys@[j2]@;
                    lemma_wsum_congruent(
                        one_w(),
                        sel_kind(nodes, k2, i as int),
                        sel_kind(nodes, k2, i + 1),
                        n as int,
                    );
                    lemma_wsum_congruent(
                        bytes_w(nodes),
                        sel_kind(nodes, k2, i as int),
                        sel_kind(nodes, k2, i + 1),
                        n as int,
                    );
                }
            }
        }
        proof {
            assert forall|x: int| #![trigger nodes[x].kind] 0 <= x < i + 1 implies exists|j2: int|
                0 <= j2 < keys@.len() && (#[trigger] keys@[j2])@ == nodes[x].kind@ by {
                if x < i {
                    let j2 = choose|j2: int|
                        0 <= j2 < keys0.len() && (#[trigger] keys0[j2])@ == nodes[x].kind@;
                    assert(keys@[j2]@ == nodes[x].kind@);
                } else {
                    if found {
                        assert(keys@[at as int]@ == nodes[i as int].kind@);
                    } else {
                        assert(keys@[keys@.len() - 1]@ == nodes[i as int].kind@);
                    }
                }
            }
        }
        i = i + 1;
    }
    let mut r: Vec<(String, Stats)> = Vec::new();
    let mut j: usize = 0;
    let m = keys.len();
    while j < m
        invariant
            0 <= j <= m,
            m == keys@.len(),
            keys@.len() == vals@.len(),
            r@.len() == j,
            forall|jj: int|
                0 <= jj < j ==> (#[trigger] r@[jj]).0@ == keys@[jj]@ && r@[jj].1 == vals@[jj],
        decreases m - j,
    {
        r.push((keys[j].clone(), vals[j]));
        j = j + 1;
    }
    proof {
        assert forall|x: int| #![trigger nodes[x].kind] 0 <= x < n implies exists|jj: int|
            0 <= jj < r@.len() && (#[trigger] r@[jj]).0@ == nodes[x].kind@ by {
            let jj = choose|jj: int|
                0 <= jj < keys@.len() && (#[trigger] keys@[jj])@ == nodes[x].kind@;
            assert(r@[jj].0@ == nodes[x].kind@);
        }
        assert forall|jj: int| 0 <= jj < r@.len() implies exists|x: int|
            0 <= x < n && (#[trigger] nodes[x].kind)@ == (#[trigger] r@[jj]).0@ by {
            assert(nodes[wit[jj]].kind@ == r@[jj].0@);
        }
    }
    r
}

/// The entries not picked, among the first `n`.
pub open spec fn sel_unpicked(picks: Seq<usize>, n: int) -> spec_fn(int) -> bool {
    |x: int| 0 <= x < n && !picks.contains(x as usize)
}

/// The entries picked, among the first `n`.
spec fn sel_picked(picks: Seq<usize>, n: int) -> spec_fn(int) -> bool {
    |x: int| 0 <= x < n && picks.contains(x as usize)
}

/// The entry counts, as weights.
pub open spec fn count_w(entries: Seq<(String, Stats)>) -> spec_fn(int) -> nat {
    |x: int| entries[x].1.count as nat
}

/// The entry byte totals, as weights.
pub open spec fn entry_bytes_w(entries: Seq<(String, Stats)>) -> spec_fn(int) -> nat {
    |x: int| entries[x].1.bytes as nat
}

/// A distinct in-range selection of `m` indices among `n` leaves an
/// unpicked index whenever `m < n`.
proof fn lemma_count_picked(picks: Seq<usize>, n: int)
    requires
        forall|j: int| 0 <= j < picks.len() ==> (#[trigger] picks[j]) < n,
        forall|j1: int, j2: int|
            0 <= j1 < j2 < picks.len() ==> (#[trigger] picks[j1]) != (#[trigger] picks[j2]),
        0 <= n <= usize::MAX,
    ensures
        wsum(one_w(), sel_picked(picks, n), n) == picks.len(),
    decreases picks.len(),
{
    if picks.len() == 0 {
        lemma_wsum_zero(one_w(), sel_picked(picks, n), n);
    } else {
        let rest = picks.drop_last();
        let last = picks.last();
        lemma_count_picked(rest, n);
        assert(!rest.contains(last)) by {
            if rest.contains(last) {
                let j = choose|j: int| 0 <= j < rest.len() && rest[j] == last;
                assert(picks[j] == picks[picks.len() - 1]);
            }
        }
        assert(!sel_picked(rest, n)(last as int));
        lemma_wsum_add_point(one_w(), sel_picked(rest, n), last as int, n);
        assert forall|y: int| #![trigger sel_picked(picks, n)(y)] 0 <= y < n implies (sel_plus(
            sel_picked(rest, n),
            last as int,
        )(y) == sel_picked(picks, n)(y)) by {
            if picks.contains(y as usize) {
                let j = choose|j: int| 0 <= j < picks.len() && picks[j] == y as usize;
                if j < picks.len() - 1 {
                    assert(rest[j] == y as usize);
                }
            }
            if rest.contains(y as usize) {
                let j = choose|j: int| 0 <= j < rest.len() && rest[j] == y as usize;
                assert(picks[j] == y as usize);
            }
            if y == last as int {
                assert(picks[picks.len() - 1] == y as usize);
            }
        }
        lemma_wsum_congruent(
            one_w(),
            sel_plus(sel_picked(rest, n), last as int),
            sel_picked(picks, n),
            n,
        );
    }
}

/// The entries not picked, among the first `i`.
spec fn sel_unpicked_upto(picks: Seq<usize>, n: int, i: int) -> spec_fn(int) -> bool {
    |x: int| 0 <= x < n && !picks.contains(x as usize) && x < i
}

/// Whether the sequence holds the value.
fn contains_idx(v: &Vec<usize>, x: usize) -> (b: bool)
    ensures
        b == v@.contains(x),
{
    let mut j: usize = 0;
    let n = v.len();
    let mut b = false;
    while j < n
        invariant
            0 <= j <= n,
            n == v@.len(),
            b == exists|jj: int| 0 <= jj < j && v@[jj] == x,
        decreases n - j,
    {
        if v[j] == x {
            b = true;
        }
        j = j + 1;
    }
    b
}

/// A selection covering every index counts them all.
proof fn lemma_wsum_count_full(sel: spec_fn(int) -> bool, n: int)
    requires
        forall|y: int| 0 <= y < n ==> #[trigger] sel(y),
        0 <= n,
    ensures
        wsum(one_w(), sel, n) == n,
    decreases n,
{
    if n > 0 {
        lemma_wsum_count_full(sel, n - 1);
    }
}

/// Picks the indices of the `count` entries with the largest byte
/// totals, in descending byte order (ties in an arbitrary fixed
/// order), together with the summed stats of every remaining entry.
/// With `count` at least the number of entries, every entry is picked
/// and the remainder is zero.
pub fn largest(entries: &Vec<(String, Stats)>, count: usize) -> (r: (Vec<usize>, Stats))
    requires
        wsum(count_w(entries@), sel_all(), entries@.len() as int) <= usize::MAX,
        wsum(entry_bytes_w(entries@), sel_all(), entries@.len() as int) <= usize::MAX,
    ensures
        r.0@.len() == (if count <= entries@.len() {
            count as int
        } else {
            entries@.len() as int
        }),
        forall|j: int| 0 <= j < r.0@.len() ==> (#[trigger] r.0@[j]) < entries@.len(),
        forall|j1: int, j2: int|
            0 <= j1 < j2 < r.0@.len() ==> (#[trigger] r.0@[j1]) != (#[trigger] r.0@[j2]),
        forall|j1: int, j2: int|
            0 <= j1 <= j2 < r.0@.len() ==> (#[trigger] entries@[r.0@[j1] as int]).1.bytes >= (
            #[trigger] entries@[r.0@[j2] as int]).1.bytes,
        forall|x: int, j: int|
            #![trigger entries@[x], entries@[r.0@[j] as int]]
            0 <= x < entries@.len() && !r.0@.contains(x as usize) && 0 <= j < r.0@.len()
                ==> entries@[x].1.bytes <= entries@[r.0@[j] as int].1.bytes,
        r.1.count == wsum(
            count_w(entries@),
            sel_unpicked(r.0@, entries@.len() as int),
            entries@.len() as int,
        ),
        r.1.bytes == wsum(
            entry_bytes_w(entries@),
            sel_unpicked(r.0@, entries@.len() as int),
            entries@.len() as int,
        ),
{
    let n = entries.len();
    let take: usize = if count < n {
        count
    } else {
        n
    };
    let mut picks: Vec<usize> = Vec::new();
    while picks.len() < take
        invariant
            n == entries@.len(),
            take == (if count < n {
                count as int
            } else {
                n as int
            }),
            picks@.len() <= take,
            forall|j: int| 0 <= j < picks@.len() ==> (#[trigger] picks@[j]) < n,
            forall|j1: int, j2: int|
                0 <= j1 < j2 < picks@.len() ==> (#[trigger] picks@[j1]) != (#[trigger] picks@[j2]),
            forall|j1: int, j2: int|
                0 <= j1 <= j2 < picks@.len() ==> (#[trigger] entries@[picks@[j1] as int]).1.bytes
                    >= (#[trigger] entries@[picks@[j2] as int]).1.bytes,
            forall|x: int, j: int|
                #![trigger entries@[x], entries@[picks@[j] as int]]
                0 <= x < n && !picks@.contains(x as usize) && 0 <= j < picks@.len()
                    ==> entries@[x].1.bytes <= entries@[picks@[j] as int].1.bytes,
        decreases take - picks@.len(),
    {
        let mut best: usize = 0;
        let mut have = false;
        let mut x: usize = 0;
        while x < n
            invariant
                0 <= x <= n,
                n == entries@.len(),
                have ==> best < n && !picks@.contains(best),
                have ==> forall|y: int|
                    #![trigger entries@[y]]
                    0 <= y < x && !picks@.contains(y as usize) ==> entries@[y].1.bytes
                        <= entries@[best as int].1.bytes,
                !have ==> forall|y: int| 0 <= y < x ==> picks@.contains(#[trigger] (y as usize)),
            decreases n - x,
        {
            if !contains_idx(&picks, x) {
                if !have || entries[x].1.bytes > entries[best].1.bytes {
                    best = x;
                    have = true;
                }
            }
            x = x + 1;
        }
        proof {
            if !have {
                assert forall|y: int| 0 <= y < n implies #[trigger] sel_picked(picks@, n as int)(
                    y,
                ) by {
                    assert(picks@.contains(y as usize));
                }
                lemma_count_picked(picks@, n as int);
                lemma_wsum_count_full(sel_picked(picks@, n as int), n as int);
            }
            assert(have);
        }
        let ghost picks0 = picks@;
        picks.push(best);
        proof {
            assert forall|x2: int|
                0 <= x2 < n && !picks@.contains(x2 as usize) implies !picks0.contains(
                #[trigger] (x2 as usize),
            ) && x2 != best as int by {
                if picks0.contains(x2 as usize) {
                    let j = choose|j: int| 0 <= j < picks0.len() && picks0[j] == x2 as usize;
                    assert(picks@[j] == x2 as usize);
                }
                if x2 == best as int {
                    assert(picks@[picks@.len() - 1] == x2 as usize);
                }
            }
            assert forall|j: int|
                0 <= j < picks0.len() implies !(picks0[j] == best) by {
                if picks0[j] == best {
                    assert(picks0.contains(best));
                }
            }
        }
    }
    let ghost pk = picks@;
    let mut rest = Stats { count: 0, bytes: 0 };
    proof {
        lemma_wsum_zero(count_w(entries@), sel_unpicked_upto(pk, n as int, 0int), n as int);
        lemma_wsum_zero(entry_bytes_w(entries@), sel_unpicked_upto(pk, n as int, 0int), n as int);
    }
    let mut x: usize = 0;
    while x < n
        invariant
            0 <= x <= n,
            n == entries@.len(),
            picks@ == pk,
            wsum(count_w(entries@), sel_all(), n as int) <= usize::MAX,
            wsum(entry_bytes_w(entries@), sel_all(), n as int) <= usize::MAX,
            rest.count == wsum(count_w(entries@), sel_unpicked_upto(pk, n as int, x as int), n as int),
            rest.bytes == wsum(
                entry_bytes_w(entries@),
                sel_unpicked_upto(pk, n as int, x as int),
                n as int,
            ),
        decreases n - x,
    {
        let sel = Ghost(sel_unpicked_upto(pk, n as int, x as int));
        if !contains_idx(&picks, x) {
            proof {
                lemma_wsum_add_point(count_w(entries@), sel@, x as int, n as int);
                lemma_wsum_add_point(entry_bytes_w(entries@), sel@, x as int, n as int);
                lemma_wsum_mono(count_w(entries@), sel_plus(sel@, x as int), sel_all(), n as int);
                lemma_wsum_mono(
                    entry_bytes_w(entries@),
                    sel_plus(sel@, x as int),
                    sel_all(),
                    n as int,
                );
                lemma_wsum_congruent(
                    count_w(entries@),
                    sel_plus(sel@, x as int),
                    sel_unpicked_upto(pk, n as int, x + 1),
                    n as int,
                );
                lemma_wsum_congruent(
                    entry_bytes_w(entries@),
                    sel_plus(sel@, x as int),
                    sel_unpicked_upto(pk, n as int, x + 1),
                    n as int,
                );
            }
            rest = rest.add(entries[x].1);
        } else {
            proof {
                lemma_wsum_congruent(
                    count_w(entries@),
                    sel@,
                    sel_unpicked_upto(pk, n as int, x + 1),
                    n as int,
                );
                lemma_wsum_congruent(
                    entry_bytes_w(entries@),
                    sel@,
                    sel_unpicked_upto(pk, n as int, x + 1),
                    n as int,
                );
            }
        }
        x = x + 1;
    }
    proof {
        lemma_wsum_congruent(
            count_w(entries@),
            sel_unpicked_upto(pk, n as int, n as int),
            sel_unpicked(pk, n as int),
            n as int,
        );
        lemma_wsum_congruent(
            entry_bytes_w(entries@),
            sel_unpicked_upto(pk, n as int, n as int),
            sel_unpicked(pk, n as int),
            n as int,
        );
    }
    (picks, rest)
}

} // verus!
