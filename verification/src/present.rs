//! The result presenter and the run dispatcher: every query answer leaves
//! as lines sorted by package name, whatever order the index arrived in.
use vstd::prelude::*;

verus! {

use crate::bytes::{seq_has_name, sorted_names, bytes_copy};
use crate::graph::{
    Graph,
    build_graph,
    direct_reverse_deps,
    transitive_reverse_deps,
    edge_in,
    rev_reachable,
    index_declares,
};
use crate::index::{
    Index,
    Blob,
    IndexError,
    assemble_index,
    blobs_ok,
    err_witness,
    index_matches_blobs,
    index_wf,
};
use crate::milestone::{
    all_milestones,
    milestone_pair_in,
    sorted_pairs,
    is_milestone,
};
use crate::record::CrateVersion;
use crate::version::{Version, render_version, version_render, append_bytes, VersionView};
use vstd::pervasive::unreached;

/// The forward edges are exactly the normal dependencies the index
/// declares.
pub open spec fn graph_matches(
    edges: Seq<(Vec<u8>, Vec<u8>)>,
    entries: Seq<(Vec<u8>, Vec<CrateVersion>)>,
) -> bool {
    forall|a: Seq<u8>, b: Seq<u8>| edge_in(edges, a, b) <==> index_declares(entries, a, b)
}

/// One line per direct reverse dependency, sorted.
pub open spec fn revdep_output(
    lines: Seq<Vec<u8>>,
    edges: Seq<(Vec<u8>, Vec<u8>)>,
    t: Seq<u8>,
) -> bool {
    sorted_names(lines) && (forall|b: Seq<u8>| seq_has_name(lines, b) <==> edge_in(edges, b, t))
}

/// One line per transitive reverse dependency, sorted, never the target.
pub open spec fn trevdep_output(
    lines: Seq<Vec<u8>>,
    edges: Seq<(Vec<u8>, Vec<u8>)>,
    t: Seq<u8>,
) -> bool {
    sorted_names(lines) && (forall|b: Seq<u8>|
        seq_has_name(lines, b) <==> (rev_reachable(edges, t, b) && b != t))
}

/// One output line for a milestone pair: name, a space, the rendered
/// version.
pub open spec fn milestone_line(p: (Vec<u8>, Version)) -> Seq<u8> {
    p.0@ + seq![32u8] + render_version(p.1@)
}

/// The milestone lines of the index, one per package with a milestone,
/// sorted by name.
pub open spec fn milestone_output(
    lines: Seq<Vec<u8>>,
    entries: Seq<(Vec<u8>, Vec<CrateVersion>)>,
) -> bool {
    exists|ms: Seq<(Vec<u8>, Version)>|
        {
            &&& sorted_pairs(ms)
            &&& forall|n: Seq<u8>, vv: VersionView|
                milestone_pair_in(ms, n, vv) <==> exists|i: int|
                    0 <= i < entries.len() && (#[trigger] entries[i]).0@ == n && is_milestone(
                        entries[i].1@,
                        vv,
                    )
            &&& lines.len() == ms.len()
            &&& forall|i: int| 0 <= i < ms.len() ==> (#[trigger] lines[i])@ == milestone_line(ms[i])
        }
}

/// Law (edge symmetry): a name stands in the direct reverse dependencies
/// of `a` exactly when the index declares a normal dependency from that
/// package on `a`.
pub proof fn lemma_edge_symmetry(
    edges: Seq<(Vec<u8>, Vec<u8>)>,
    entries: Seq<(Vec<u8>, Vec<CrateVersion>)>,
    lines: Seq<Vec<u8>>,
    a: Seq<u8>,
    b: Seq<u8>,
)
    requires
        graph_matches(edges, entries),
        revdep_output(lines, edges, a),
    ensures
        seq_has_name(lines, b) <==> index_declares(entries, b, a),
{
}

/// The names of the packages that depend on the target directly, sorted.
pub fn print_revdeps(g: &Graph, target: &Vec<u8>) -> (r: Vec<Vec<u8>>)
    ensures
        revdep_output(r@, g.edges@, target@),
{
    direct_reverse_deps(g, target)
}

/// The names of the packages that depend on the target transitively,
/// sorted.
pub fn print_trevdeps(g: &Graph, target: &Vec<u8>) -> (r: Vec<Vec<u8>>)
    ensures
        trevdep_output(r@, g.edges@, target@),
{
    transitive_reverse_deps(g, target)
}

/// One line per package that reached 1.0, with the milestone version,
/// sorted by name.
pub fn print_one_point_oh_crates(ix: &Index) -> (r: Vec<Vec<u8>>)
    requires
        ix.wf(),
    ensures
        milestone_output(r@, ix.entries@),
{
    let pairs = all_milestones(ix);
    let mut out: Vec<Vec<u8>> = Vec::new();
    let mut i: usize = 0;
    while i < pairs.len()
        invariant
            0 <= i <= pairs.len(),
            out@.len() == i,
            forall|k: int| 0 <= k < i ==> (#[trigger] out@[k])@ == milestone_line(pairs@[k]),
        decreases pairs.len() - i,
    {
        let mut line = bytes_copy(&pairs[i].0);
        line.push(32);
        let rendered = version_render(&pairs[i].1);
        append_bytes(&mut line, &rendered);
        proof {
            assert(line@ =~= milestone_line(pairs@[i as int]));
        }
        out.push(line);
        i = i + 1;
    }
    proof {
        assert(milestone_output(out@, ix.entries@));
    }
    out
}

/// What a successful run prints for the selected query, line by line.
pub open spec fn run_output(
    revdeps: bool,
    trevdeps: bool,
    one_point_oh: bool,
    target: Option<Vec<u8>>,
    blobs: Seq<Blob>,
    lines: Seq<Vec<u8>>,
) -> bool {
    exists|entries: Seq<(Vec<u8>, Vec<CrateVersion>)>|
        {
            &&& #[trigger] index_wf(entries)
            &&& index_matches_blobs(entries, blobs)
            &&& if revdeps {
                match target {
                    Option::Some(t) => exists|edges: Seq<(Vec<u8>, Vec<u8>)>|
                        #[trigger] graph_matches(edges, entries) && revdep_output(lines, edges, t@),
                    Option::None => false,
                }
            } else if trevdeps {
                match target {
                    Option::Some(t) => exists|edges: Seq<(Vec<u8>, Vec<u8>)>|
                        #[trigger] graph_matches(edges, entries) && trevdep_output(lines, edges, t@),
                    Option::None => false,
                }
            } else if one_point_oh {
                milestone_output(lines, entries)
            } else {
                lines.len() == 0
            }
        }
}

/// One whole run over an already loaded record stream: assemble the index,
/// derive the graph, answer the selected query — the first of the three
/// flags that is set — and present the result. Assembly failures abort the
/// run with no partial output.
pub fn run(
    revdeps: bool,
    trevdeps: bool,
    one_point_oh: bool,
    target: Option<Vec<u8>>,
    blobs: Vec<Blob>,
) -> (r: Result<Vec<Vec<u8>>, IndexError>)
    requires
        (revdeps || trevdeps) ==> target is Some,
    ensures
        r is Ok <==> blobs_ok(blobs@),
        match r {
            Result::Ok(lines) => run_output(revdeps, trevdeps, one_point_oh, target, blobs@, lines@),
            Result::Err(e) => err_witness(e, blobs@),
        },
{
    let ghost gblobs = blobs@;
    let ix = match assemble_index(blobs) {
        Result::Ok(ix) => ix,
        Result::Err(e) => {
            return Result::Err(e);
        },
    };
    if revdeps || trevdeps {
        let t = match &target {
            Option::Some(t) => t,
            Option::None => unreached(),
        };
        let g = build_graph(&ix);
        proof {
            assert forall|a: Seq<u8>, b: Seq<u8>|
                edge_in(g.edges@, a, b) <==> index_declares(ix.entries@, a, b) by {
                assert(g.has_edge(a, b) <==> index_declares(ix.entries@, a, b));
            }
            assert(graph_matches(g.edges@, ix.entries@));
        }
        let lines = if revdeps {
            print_revdeps(&g, t)
        } else {
            print_trevdeps(&g, t)
        };
        proof {
            assert(index_wf(ix.entries@));
            assert(run_output(revdeps, trevdeps, one_point_oh, target, gblobs, lines@));
        }
        Result::Ok(lines)
    } else if one_point_oh {
        let lines = print_one_point_oh_crates(&ix);
        proof {
            assert(index_wf(ix.entries@));
            assert(run_output(revdeps, trevdeps, one_point_oh, target, gblobs, lines@));
        }
        Result::Ok(lines)
    } else {
        let lines: Vec<Vec<u8>> = Vec::new();
        proof {
            assert(index_wf(ix.entries@));
            assert(run_output(revdeps, trevdeps, one_point_oh, target, gblobs, lines@));
        }
        Result::Ok(lines)
    }
}

} // verus!
