//! The dependency graph at package granularity: an edge A -> B exists when
//! some version record of A declares a normal dependency on B. Reverse
//! queries walk the edges backwards; the transitive walk keeps a visited
//! set, so it terminates on cyclic graphs and never reports the target
//! itself.
use vstd::prelude::*;

verus! {

use crate::bytes::{
    bytes_eq,
    bytes_copy,
    has_name,
    insert_name_sorted,
    seq_has_name,
    sorted_names,
    distinct_names,
    lemma_sorted_names_equal,
    lemma_distinct_names_bounded,
};
use crate::record::{CrateVersion, dep_is_normal, dep_is_normal_exec};
use crate::index::Index;

pub struct Graph {
    pub edges: Vec<(Vec<u8>, Vec<u8>)>,
}

/// The edge list holds an edge from `a` to `b`.
pub open spec fn edge_in(edges: Seq<(Vec<u8>, Vec<u8>)>, a: Seq<u8>, b: Seq<u8>) -> bool {
    exists|i: int| 0 <= i < edges.len() && (#[trigger] edges[i]).0@ == a && edges[i].1@ == b
}

pub open spec fn edges_no_dup(edges: Seq<(Vec<u8>, Vec<u8>)>) -> bool {
    forall|i: int, j: int|
        0 <= i < j < edges.len() ==> !((#[trigger] edges[i]).0@ == (#[trigger] edges[j]).0@
            && edges[i].1@ == edges[j].1@)
}

impl Graph {
    pub open spec fn wf(&self) -> bool {
        edges_no_dup(self.edges@)
    }

    pub open spec fn has_edge(&self, a: Seq<u8>, b: Seq<u8>) -> bool {
        edge_in(self.edges@, a, b)
    }
}

/// The record declares a normal dependency on `b`.
pub open spec fn record_declares(rec: CrateVersion, b: Seq<u8>) -> bool {
    exists|k: int|
        0 <= k < rec.deps@.len() && dep_is_normal(#[trigger] rec.deps@[k]) && rec.deps@[k].name@
            == b
}

pub open spec fn records_declare(recs: Seq<CrateVersion>, b: Seq<u8>) -> bool {
    exists|j: int| 0 <= j < recs.len() && record_declares(#[trigger] recs[j], b)
}

/// Some version record of package `a` declares a normal dependency on `b`.
pub open spec fn index_declares(
    entries: Seq<(Vec<u8>, Vec<CrateVersion>)>,
    a: Seq<u8>,
    b: Seq<u8>,
) -> bool {
    exists|i: int|
        0 <= i < entries.len() && (#[trigger] entries[i]).0@ == a && records_declare(
            entries[i].1@,
            b,
        )
}

/// All normal-dependency targets in one record list, duplicates allowed.
fn package_dep_targets(recs: &Vec<CrateVersion>) -> (r: Vec<Vec<u8>>)
    ensures
        forall|b: Seq<u8>| seq_has_name(r@, b) <==> records_declare(recs@, b),
{
    let mut out: Vec<Vec<u8>> = Vec::new();
    let mut j: usize = 0;
    while j < recs.len()
        invariant
            0 <= j <= recs.len(),
            forall|b: Seq<u8>|
                seq_has_name(out@, b) <==> exists|j2: int|
                    0 <= j2 < j && record_declares(#[trigger] recs@[j2], b),
        decreases recs.len() - j,
    {
        let deps = &recs[j].deps;
        let mut k: usize = 0;
        while k < deps.len()
            invariant
                0 <= k <= deps.len(),
                0 <= j < recs.len(),
                deps == &recs[j as int].deps,
                forall|b: Seq<u8>|
                    seq_has_name(out@, b) <==> (exists|j2: int|
                        0 <= j2 < j && record_declares(#[trigger] recs@[j2], b)) || (exists|k2: int|
                        0 <= k2 < k && dep_is_normal(#[trigger] recs@[j as int].deps@[k2])
                            && recs@[j as int].deps@[k2].name@ == b),
            decreases deps.len() - k,
        {
            if dep_is_normal_exec(&deps[k]) {
                let ghost old_out = out@;
                out.push(bytes_copy(&deps[k].name));
                proof {
                    assert forall|b: Seq<u8>|
                        seq_has_name(out@, b) <==> (exists|j2: int|
                            0 <= j2 < j && record_declares(#[trigger] recs@[j2], b)) || (exists|
                            k2: int,
                        |
                            0 <= k2 < k + 1 && dep_is_normal(#[trigger] recs@[j as int].deps@[k2])
                                && recs@[j as int].deps@[k2].name@ == b) by {
                        assert(out@[out@.len() - 1]@ == recs@[j as int].deps@[k as int].name@);
                        if seq_has_name(out@, b) {
                            let w = choose|w: int| 0 <= w < out@.len() && out@[w]@ == b;
                            if w < out@.len() - 1 {
                                assert(seq_has_name(old_out, b));
                            }
                        }
                        if seq_has_name(old_out, b) {
                            let w = choose|w: int| 0 <= w < old_out.len() && old_out[w]@ == b;
                            assert(out@[w]@ == b);
                        }
                    }
                }
            }
            k = k + 1;
        }
        proof {
            assert forall|b: Seq<u8>|
                seq_has_name(out@, b) <==> exists|j2: int|
                    0 <= j2 < j + 1 && record_declares(#[trigger] recs@[j2], b) by {
                if exists|k2: int|
                    0 <= k2 < recs@[j as int].deps@.len() && dep_is_normal(
                        #[trigger] recs@[j as int].deps@[k2],
                    ) && recs@[j as int].deps@[k2].name@ == b {
                    assert(record_declares(recs@[j as int], b));
                }
            }
        }
        j = j + 1;
    }
    out
}

fn edge_contains(edges: &Vec<(Vec<u8>, Vec<u8>)>, a: &Vec<u8>, b: &Vec<u8>) -> (r: bool)
    ensures
        r == edge_in(edges@, a@, b@),
{
    let mut i: usize = 0;
    while i < edges.len()
        invariant
            0 <= i <= edges.len(),
            forall|k: int|
                0 <= k < i ==> !((#[trigger] edges@[k]).0@ == a@ && edges@[k].1@ == b@),
        decreases edges.len() - i,
    {
        if bytes_eq(&edges[i].0, a) && bytes_eq(&edges[i].1, b) {
            return true;
        }
        i = i + 1;
    }
    false
}

/// Build the dependency graph of the index: one edge per declaring package
/// and target, without duplicates.
pub fn build_graph(ix: &Index) -> (g: Graph)
    ensures
        g.wf(),
        forall|a: Seq<u8>, b: Seq<u8>| g.has_edge(a, b) <==> index_declares(ix.entries@, a, b),
{
    let entries = &ix.entries;
    let mut edges: Vec<(Vec<u8>, Vec<u8>)> = Vec::new();
    let mut i: usize = 0;
    while i < entries.len()
        invariant
            0 <= i <= entries.len(),
            entries == &ix.entries,
            edges_no_dup(edges@),
            forall|a: Seq<u8>, b: Seq<u8>|
                edge_in(edges@, a, b) <==> exists|i2: int|
                    0 <= i2 < i && (#[trigger] entries@[i2]).0@ == a && records_declare(
                        entries@[i2].1@,
                        b,
                    ),
        decreases entries.len() - i,
    {
        let targets = package_dep_targets(&entries[i].1);
        let mut t: usize = 0;
        while t < targets.len()
            invariant
                0 <= t <= targets.len(),
                0 <= i < entries.len(),
                entries == &ix.entries,
                edges_no_dup(edges@),
                forall|b: Seq<u8>|
                    seq_has_name(targets@, b) <==> records_declare(entries@[i as int].1@, b),
                forall|a: Seq<u8>, b: Seq<u8>|
                    edge_in(edges@, a, b) <==> (exists|i2: int|
                        0 <= i2 < i && (#[trigger] entries@[i2]).0@ == a && records_declare(
                            entries@[i2].1@,
                            b,
                        )) || (a == entries@[i as int].0@ && exists|t2: int|
                        0 <= t2 < t && (#[trigger] targets@[t2])@ == b),
            decreases targets.len() - t,
        {
            let ghost pre_edges = edges@;
            let ghost key = entries@[i as int].0@;
            if !edge_contains(&edges, &entries[i].0, &targets[t]) {
                let ghost old_edges = edges@;
                edges.push((bytes_copy(&entries[i].0), bytes_copy(&targets[t])));
                proof {
                    assert(edges@[edges@.len() - 1].0@ == key);
                    assert(edges@[edges@.len() - 1].1@ == targets@[t as int]@);
                    assert forall|a: Seq<u8>, b: Seq<u8>|
                        edge_in(edges@, a, b) <==> (edge_in(old_edges, a, b) || (a == key && b
                            == targets@[t as int]@)) by {
                        if edge_in(edges@, a, b) {
                            let w = choose|w: int|
                                0 <= w < edges@.len() && (#[trigger] edges@[w]).0@ == a
                                    && edges@[w].1@ == b;
                            if w < edges@.len() - 1 {
                                assert(old_edges[w] == edges@[w]);
                                assert(edge_in(old_edges, a, b));
                            }
                        }
                        if edge_in(old_edges, a, b) {
                            let w = choose|w: int|
                                0 <= w < old_edges.len() && (#[trigger] old_edges[w]).0@ == a
                                    && old_edges[w].1@ == b;
                            assert(edges@[w].0@ == a && edges@[w].1@ == b);
                        }
                    }
                }
            } else {
                proof {
                    assert(edge_in(edges@, key, targets@[t as int]@));
                }
            }
            proof {
                assert forall|a: Seq<u8>, b: Seq<u8>|
                    edge_in(edges@, a, b) <==> (exists|i2: int|
                        0 <= i2 < i && (#[trigger] entries@[i2]).0@ == a && records_declare(
                            entries@[i2].1@,
                            b,
                        )) || (a == key && exists|t2: int|
                        0 <= t2 < t + 1 && (#[trigger] targets@[t2])@ == b) by {
                    if edge_in(edges@, a, b) {
                        assert(edge_in(pre_edges, a, b) || (a == key && b == targets@[t as int]@));
                        if edge_in(pre_edges, a, b) {
                            if a == key && (exists|t2: int|
                                0 <= t2 < t && (#[trigger] targets@[t2])@ == b) {
                                let t2 = choose|t2: int|
                                    0 <= t2 < t && (#[trigger] targets@[t2])@ == b;
                                assert(0 <= t2 < t + 1 && targets@[t2]@ == b);
                            }
                        } else {
                            assert(0 <= t < t + 1 && targets@[t as int]@ == b);
                        }
                    }
                    if a == key && (exists|t2: int| 0 <= t2 < t + 1 && (#[trigger] targets@[t2])@
                        == b) {
                        let t2 = choose|t2: int| 0 <= t2 < t + 1 && (#[trigger] targets@[t2])@ == b;
                        if t2 < t {
                            assert(edge_in(pre_edges, a, b));
                        } else {
                            assert(b == targets@[t as int]@);
                        }
                        assert(edge_in(edges@, a, b));
                    }
                    if exists|i2: int|
                        0 <= i2 < i && (#[trigger] entries@[i2]).0@ == a && records_declare(
                            entries@[i2].1@,
                            b,
                        ) {
                        assert(edge_in(pre_edges, a, b));
                        assert(edge_in(edges@, a, b));
                    }
                }
            }
            t = t + 1;
        }
        proof {
            assert forall|a: Seq<u8>, b: Seq<u8>|
                edge_in(edges@, a, b) <==> exists|i2: int|
                    0 <= i2 < i + 1 && (#[trigger] entries@[i2]).0@ == a && records_declare(
                        entries@[i2].1@,
                        b,
                    ) by {
                if edge_in(edges@, a, b) {
                    if a == entries@[i as int].0@ && seq_has_name(targets@, b) {
                        assert(records_declare(entries@[i as int].1@, b));
                    }
                }
                if exists|i2: int|
                    0 <= i2 < i + 1 && (#[trigger] entries@[i2]).0@ == a && records_declare(
                        entries@[i2].1@,
                        b,
                    ) {
                    let i2 = choose|i2: int|
                        0 <= i2 < i + 1 && (#[trigger] entries@[i2]).0@ == a && records_declare(
                            entries@[i2].1@,
                            b,
                        );
                    if i2 == i {
                        assert(seq_has_name(targets@, b));
                    }
                }
            }
        }
        i = i + 1;
    }
    Graph { edges }
}

/// The set of packages holding an edge into `target`, in lexicographic
/// order. A name nothing depends on, known or not, yields the empty list.
pub fn direct_reverse_deps(g: &Graph, target: &Vec<u8>) -> (r: Vec<Vec<u8>>)
    ensures
        sorted_names(r@),
        forall|b: Seq<u8>| seq_has_name(r@, b) <==> edge_in(g.edges@, b, target@),
{
    let mut out: Vec<Vec<u8>> = Vec::new();
    let mut i: usize = 0;
    while i < g.edges.len()
        invariant
            0 <= i <= g.edges.len(),
            sorted_names(out@),
            forall|b: Seq<u8>|
                seq_has_name(out@, b) <==> exists|k: int|
                    0 <= k < i && (#[trigger] g.edges@[k]).1@ == target@ && g.edges@[k].0@ == b,
        decreases g.edges.len() - i,
    {
        if bytes_eq(&g.edges[i].1, target) {
            insert_name_sorted(&mut out, bytes_copy(&g.edges[i].0));
        }
        i = i + 1;
    }
    proof {
        assert forall|b: Seq<u8>| seq_has_name(out@, b) <==> edge_in(g.edges@, b, target@) by {
            if edge_in(g.edges@, b, target@) {
                let w = choose|w: int|
                    0 <= w < g.edges@.len() && (#[trigger] g.edges@[w]).0@ == b && g.edges@[w].1@
                        == target@;
                assert(g.edges@[w].1@ == target@ && g.edges@[w].0@ == b);
            }
        }
    }
    out
}

/// One reverse step: `y` depends on `x`.
pub open spec fn rev_step(edges: Seq<(Vec<u8>, Vec<u8>)>, x: Seq<u8>, y: Seq<u8>) -> bool {
    edge_in(edges, y, x)
}

/// `y` is reached from `t` in exactly `n` reverse steps.
pub open spec fn reach_n(edges: Seq<(Vec<u8>, Vec<u8>)>, t: Seq<u8>, y: Seq<u8>, n: nat) -> bool
    decreases n,
{
    if n == 0 {
        y == t
    } else {
        exists|x: Seq<u8>| reach_n(edges, t, x, (n - 1) as nat) && rev_step(edges, x, y)
    }
}

/// `y` is reachable from `t` by following reverse edges.
pub open spec fn rev_reachable(edges: Seq<(Vec<u8>, Vec<u8>)>, t: Seq<u8>, y: Seq<u8>) -> bool {
    exists|n: nat| reach_n(edges, t, y, n)
}

/// Every node the traversal can ever see: the target and the edge sources.
pub open spec fn node_universe(edges: Seq<(Vec<u8>, Vec<u8>)>, t: Seq<u8>) -> Set<Seq<u8>> {
    edges.map_values(|e: (Vec<u8>, Vec<u8>)| e.0@).to_set().insert(t)
}

proof fn lemma_universe_finite(edges: Seq<(Vec<u8>, Vec<u8>)>, t: Seq<u8>)
    ensures
        node_universe(edges, t).finite(),
        node_universe(edges, t).contains(t),
        forall|i: int|
            0 <= i < edges.len() ==> node_universe(edges, t).contains((#[trigger] edges[i]).0@),
{
    broadcast use vstd::seq_lib::seq_to_set_is_finite;

    let m = edges.map_values(|e: (Vec<u8>, Vec<u8>)| e.0@);
    assert forall|i: int|
        0 <= i < edges.len() implies node_universe(edges, t).contains(
        (#[trigger] edges[i]).0@,
    ) by {
        assert(m[i] == edges[i].0@);
        assert(m.contains(edges[i].0@));
    }
}

/// Everything reached from `t` lies in a name list that contains `t` and is
/// closed under reverse steps.
proof fn lemma_reach_closed(
    edges: Seq<(Vec<u8>, Vec<u8>)>,
    t: Seq<u8>,
    names: Seq<Vec<u8>>,
    y: Seq<u8>,
    n: nat,
)
    requires
        seq_has_name(names, t),
        forall|x: Seq<u8>, z: Seq<u8>|
            seq_has_name(names, x) && #[trigger] rev_step(edges, x, z) ==> seq_has_name(names, z),
        reach_n(edges, t, y, n),
    ensures
        seq_has_name(names, y),
    decreases n,
{
    if n > 0 {
        let x = choose|x: Seq<u8>| reach_n(edges, t, x, (n - 1) as nat) && rev_step(edges, x, y);
        lemma_reach_closed(edges, t, names, x, (n - 1) as nat);
    }
}

/// The set of packages that depend on `target` directly or through any
/// chain of dependencies, in lexicographic order, never including `target`
/// itself. The walk keeps a visited list, so a dependency cycle cannot make
/// it run forever or revisit a node.
pub fn transitive_reverse_deps(g: &Graph, target: &Vec<u8>) -> (r: Vec<Vec<u8>>)
    ensures
        sorted_names(r@),
        forall|b: Seq<u8>|
            seq_has_name(r@, b) <==> (rev_reachable(g.edges@, target@, b) && b != target@),
        !seq_has_name(r@, target@),
{
    let ghost edges = g.edges@;
    let ghost uni = node_universe(edges, target@);
    let mut visited: Vec<Vec<u8>> = Vec::new();
    visited.push(bytes_copy(target));
    let mut i: usize = 0;
    proof {
        lemma_universe_finite(edges, target@);
        assert(reach_n(edges, target@, target@, 0));
        lemma_distinct_names_bounded(visited@, uni);
    }
    while i < visited.len()
        invariant
            0 <= i <= visited.len(),
            edges == g.edges@,
            uni == node_universe(edges, target@),
            uni.finite(),
            visited@.len() >= 1,
            visited@[0]@ == target@,
            distinct_names(visited@),
            forall|k: int| 0 <= k < visited@.len() ==> uni.contains(#[trigger] visited@[k]@),
            forall|k: int|
                0 <= k < visited@.len() ==> rev_reachable(edges, target@, #[trigger] visited@[k]@),
            forall|k: int, y: Seq<u8>|
                0 <= k < i && #[trigger] rev_step(edges, visited@[k]@, y) ==> seq_has_name(
                    visited@,
                    y,
                ),
            visited@.len() <= uni.len(),
        decreases uni.len() - visited@.len(), visited@.len() - i,
    {
        let x = bytes_copy(&visited[i]);
        let ghost len_at_entry = visited@.len();
        let mut j: usize = 0;
        while j < g.edges.len()
            invariant
                0 <= j <= g.edges.len(),
                0 <= i < visited@.len(),
                visited@.len() >= len_at_entry,
                edges == g.edges@,
                uni == node_universe(edges, target@),
                uni.finite(),
                visited@.len() >= 1,
                visited@[0]@ == target@,
                x@ == visited@[i as int]@,
                distinct_names(visited@),
                forall|k: int| 0 <= k < visited@.len() ==> uni.contains(#[trigger] visited@[k]@),
                forall|k: int|
                    0 <= k < visited@.len() ==> rev_reachable(
                        edges,
                        target@,
                        #[trigger] visited@[k]@,
                    ),
                forall|k: int, y: Seq<u8>|
                    0 <= k < i && #[trigger] rev_step(edges, visited@[k]@, y) ==> seq_has_name(
                        visited@,
                        y,
                    ),
                forall|j2: int|
                    0 <= j2 < j && (#[trigger] edges[j2]).1@ == x@ ==> seq_has_name(
                        visited@,
                        edges[j2].0@,
                    ),
                visited@.len() <= uni.len(),
            decreases g.edges.len() - j,
        {
            if bytes_eq(&g.edges[j].1, &x) {
                if !has_name(&visited, &g.edges[j].0) {
                    let y = bytes_copy(&g.edges[j].0);
                    let ghost old_visited = visited@;
                    proof {
                        let n = choose|n: nat| reach_n(edges, target@, visited@[i as int]@, n);
                        assert(edges[j as int].0@ == y@ && edges[j as int].1@ == x@);
                        assert(rev_step(edges, x@, y@));
                        assert(reach_n(edges, target@, y@, n + 1));
                    }
                    visited.push(y);
                    proof {
                        lemma_universe_finite(edges, target@);
                        assert forall|k: int|
                            0 <= k < visited@.len() implies uni.contains(
                            #[trigger] visited@[k]@,
                        ) by {
                            if k < visited@.len() - 1 {
                                assert(old_visited[k] == visited@[k]);
                            } else {
                                assert(visited@[k]@ == edges[j as int].0@);
                            }
                        }
                        assert forall|k: int, y2: Seq<u8>|
                            0 <= k < i && #[trigger] rev_step(edges, visited@[k]@, y2)
                            implies seq_has_name(visited@, y2) by {
                            assert(old_visited[k] == visited@[k]);
                            assert(seq_has_name(old_visited, y2));
                            let w = choose|w: int|
                                0 <= w < old_visited.len() && old_visited[w]@ == y2;
                            assert(visited@[w]@ == y2);
                        }
                        assert forall|j2: int|
                            0 <= j2 < j + 1 && (#[trigger] edges[j2]).1@ == x@
                            implies seq_has_name(visited@, edges[j2].0@) by {
                            if j2 < j {
                                let w = choose|w: int|
                                    0 <= w < old_visited.len() && old_visited[w]@ == edges[j2].0@;
                                assert(visited@[w]@ == edges[j2].0@);
                            } else {
                                assert(visited@[visited@.len() - 1]@ == edges[j2].0@);
                            }
                        }
                        lemma_distinct_names_bounded(visited@, uni);
                    }
                } else {
                    proof {
                        assert(edges[j as int].0@ == g.edges@[j as int].0@);
                    }
                }
            }
            j = j + 1;
        }
        i = i + 1;
    }
    // the visited list is closed under reverse steps, so it holds every
    // reachable node
    let mut out: Vec<Vec<u8>> = Vec::new();
    let mut k: usize = 0;
    let ghost names = visited@;
    while k < visited.len()
        invariant
            0 <= k <= visited.len(),
            names == visited@,
            sorted_names(out@),
            forall|b: Seq<u8>|
                seq_has_name(out@, b) <==> ((exists|k2: int|
                    0 <= k2 < k && (#[trigger] names[k2])@ == b) && b != target@),
        decreases visited.len() - k,
    {
        if !bytes_eq(&visited[k], target) {
            insert_name_sorted(&mut out, bytes_copy(&visited[k]));
        }
        k = k + 1;
    }
    proof {
        assert forall|b: Seq<u8>|
            seq_has_name(out@, b) <==> (rev_reachable(edges, target@, b) && b != target@) by {
            if seq_has_name(out@, b) {
                let w = choose|w: int| 0 <= w < names.len() && (#[trigger] names[w])@ == b;
                assert(rev_reachable(edges, target@, names[w]@));
            }
            if rev_reachable(edges, target@, b) && b != target@ {
                let n = choose|n: nat| reach_n(edges, target@, b, n);
                lemma_reach_closed(edges, target@, names, b, n);
                let w = choose|w: int| 0 <= w < names.len() && names[w]@ == b;
            }
        }
    }
    out
}

/// Law: whatever depends on the target directly also depends on it
/// transitively, as long as the target does not declare a dependency on
/// itself (a self-edge would put the target in its own direct reverse
/// dependencies, which the transitive set excludes by definition).
pub proof fn lemma_direct_subset_transitive(
    edges: Seq<(Vec<u8>, Vec<u8>)>,
    target: Seq<u8>,
    b: Seq<u8>,
)
    requires
        edge_in(edges, b, target),
        !edge_in(edges, target, target),
    ensures
        rev_reachable(edges, target, b),
        b != target,
{
    assert(reach_n(edges, target, target, 0));
    assert(rev_step(edges, target, b));
    assert(reach_n(edges, target, b, 1));
}

/// Law: on an unchanged graph the transitive reverse-dependency query has
/// one possible answer — any two lists that are sorted and hold exactly the
/// reachable names agree element by element.
pub proof fn lemma_transitive_deterministic(
    edges: Seq<(Vec<u8>, Vec<u8>)>,
    target: Seq<u8>,
    r1: Seq<Vec<u8>>,
    r2: Seq<Vec<u8>>,
)
    requires
        sorted_names(r1),
        sorted_names(r2),
        forall|b: Seq<u8>|
            seq_has_name(r1, b) <==> (rev_reachable(edges, target, b) && b != target),
        forall|b: Seq<u8>|
            seq_has_name(r2, b) <==> (rev_reachable(edges, target, b) && b != target),
    ensures
        r1.len() == r2.len(),
        forall|i: int| 0 <= i < r1.len() ==> #[trigger] r1[i]@ == r2[i]@,
{
    lemma_sorted_names_equal(r1, r2);
}

} // verus!
