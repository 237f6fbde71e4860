//! Dictionary paths of an exact scalar width below a node, found by a
//! depth-first search charged against the expansion budget. The part of the
//! dictionary the search may reach is handed over as plain values: each
//! node's outgoing edges, in the dictionary's order.
use vstd::prelude::*;
use vstd::string::StringSliceAdditionalSpecFns;
use vstd::utf8::encode_utf8;
use crate::generalized_limits::{ExpansionBudget, ExpansionError, GeneralizedWfstError};
use crate::universal_support::string_from_chars;

verus! {

/// A finite part of a dictionary: `edges[n]` lists node `n`'s outgoing
/// edges, label and child node, in the dictionary's order.
pub struct DictionarySnapshot {
    /// Outgoing edges of each node.
    pub edges: Vec<Vec<(char, usize)>>,
}

/// A path of the search: the labels read and the node reached.
#[derive(Clone, Debug, PartialEq, Eq)]
pub struct DictionaryPath {
    /// The labels along the path.
    pub output: Vec<char>,
    /// The labels' UTF-8 encoding.
    pub bytes: Vec<u8>,
    /// The node the path ends at.
    pub target: usize,
}

impl DictionarySnapshot {
    /// Every edge leads to a node of the snapshot.
    pub open spec fn wf(&self) -> bool {
        forall|n: int, k: int| 0 <= n < self.edges@.len() && 0 <= k < self.edges@[n]@.len()
            ==> (#[trigger] self.edges@[n]@[k]).1 < self.edges@.len()
    }

    /// The outgoing edges of node `n`; none for an unknown node.
    pub open spec fn spec_edges(&self, n: int) -> Seq<(char, usize)> {
        if 0 <= n < self.edges@.len() { self.edges@[n]@ } else { Seq::empty() }
    }
}

/// `paths` with `label` put in front of each path's labels.
pub open spec fn prefixed(label: char, paths: Seq<(Seq<char>, usize)>) -> Seq<(Seq<char>, usize)> {
    paths.map_values(|p: (Seq<char>, usize)| (seq![label] + p.0, p.1))
}

/// `x`, or `usize::MAX` when it is larger: a saturating count.
pub open spec fn sat_units(x: int) -> nat {
    if x > usize::MAX { usize::MAX as nat } else if x < 0 { 0 } else { x as nat }
}

/// What one completed path, of the labels `path` from the search's start,
/// is charged in work units: one, plus its length in scalars and in bytes.
pub open spec fn path_units(path: Seq<char>) -> nat {
    sat_units((1 + path.len() + encode_utf8(path).len()) as int)
}

/// The paths of exactly `remaining` more labels below node `n`, reached
/// behind the labels `prefix`, in depth-first edge order, with the work
/// units and the paths they are charged: reading the node's edges costs one
/// unit and one per edge plus one for the end, and the search turns once
/// per edge and once more when the node is exhausted.
pub open spec fn frame_paths(d: &DictionarySnapshot, n: int, remaining: nat, prefix: Seq<char>)
    -> (Seq<(Seq<char>, usize)>, nat, nat)
    decreases remaining, d.spec_edges(n).len() + 1,
{
    let e = spec_edge_paths(d, d.spec_edges(n), remaining, prefix);
    (e.0, e.1 + 3, e.2)
}

/// The paths of exactly `remaining` more labels through the edges `es`, in
/// order, behind `prefix`: each edge costs two units (reading it and the
/// search's turn); a completed path is charged one path and `path_units`,
/// a longer one continues below the edge's child.
pub open spec fn spec_edge_paths(d: &DictionarySnapshot, es: Seq<(char, usize)>, remaining: nat, prefix: Seq<char>)
    -> (Seq<(Seq<char>, usize)>, nat, nat)
    decreases remaining, es.len(),
{
    if remaining == 0 || es.len() == 0 {
        (Seq::empty(), 0, 0)
    } else {
        let before = spec_edge_paths(d, es.drop_last(), remaining, prefix);
        let label = es.last().0;
        let child = es.last().1;
        let extended = prefix.push(label);
        if remaining == 1 {
            (before.0.push((seq![label], child)), before.1 + 2 + path_units(extended), before.2 + 1)
        } else {
            let below = frame_paths(d, child as int, (remaining - 1) as nat, extended);
            (before.0 + prefixed(label, below.0), before.1 + 2 + below.1, before.2 + below.2)
        }
    }
}

/// The paths of exactly `width` labels from node `n`, in depth-first edge
/// order, with the work units and the paths they are charged: the empty
/// path alone, charged one path and one unit, when `width` is zero.
pub open spec fn spec_paths(d: &DictionarySnapshot, n: int, width: nat) -> (Seq<(Seq<char>, usize)>, nat, nat) {
    if width == 0 {
        (seq![(Seq::<char>::empty(), n as usize)], 1, 1)
    } else {
        frame_paths(d, n, width, Seq::empty())
    }
}

/// `budget` holds `work` more units and `paths` more paths; charging
/// nothing of a kind never fails.
pub open spec fn fits(budget: &ExpansionBudget, work: nat, paths: nat) -> bool {
    &&& (work == 0 || budget.spec_work() + work <= budget.spec_limits().max_work_units_per_expansion)
    &&& (paths == 0 || budget.spec_paths() + paths <= budget.spec_limits().max_paths_per_expansion)
}

/// The paths of exactly `remaining` more labels below `node`, depth first
/// in edge order, appended to `out` behind `prefix`, charged as
/// `frame_paths` says. Success exactly when the budget holds all of it; on
/// success the charges are exactly those, and on failure nothing is
/// promised of `out`.
fn collect_frame(d: &DictionarySnapshot, node: usize, remaining: usize, prefix: &mut Vec<char>,
    out: &mut Vec<DictionaryPath>, budget: &mut ExpansionBudget) -> (r: Result<(), GeneralizedWfstError>)
    requires
        d.wf(),
        node < d.edges@.len(),
        remaining >= 1,
    ensures
        final(budget).spec_limits() == old(budget).spec_limits(),
        final(prefix)@ == old(prefix)@,
        r matches Err(e) ==> e is LimitExceeded || e is ArithmeticOverflow,
        ({
            let (paths, work, count) = frame_paths(d, node as int, remaining as nat, old(prefix)@);
            &&& r is Ok <==> fits(old(budget), work, count)
            &&& r is Ok ==> {
                &&& final(budget).spec_work() == old(budget).spec_work() + work
                &&& final(budget).spec_paths() == old(budget).spec_paths() + count
                &&& final(out)@.len() == old(out)@.len() + paths.len()
                &&& final(out)@.subrange(0, old(out)@.len() as int) == old(out)@
                &&& forall|j: int| 0 <= j < paths.len() ==> {
                        let p = #[trigger] final(out)@[old(out)@.len() + j];
                        &&& p.output@ == old(prefix)@ + paths[j].0
                        &&& p.bytes@ == encode_utf8(p.output@)
                        &&& p.target == paths[j].1
                    }
            }
        }),
    decreases remaining, 1nat,
{
    proof {
        budget.lemma_counts_fit();
    }
    match budget.charge_work(3) {
        Ok(()) => {},
        Err(e) => return Err(e),
    }
    let r = collect_edge_paths(d, node, d.edges[node].len(), remaining, prefix, out, budget);
    proof {
        assert(d.spec_edges(node as int).take(d.edges@[node as int]@.len() as int) =~= d.spec_edges(node as int));
    }
    r
}

/// The paths of exactly `remaining` more labels through the first `count`
/// edges of `node`, in order, appended to `out` behind `prefix`.
fn collect_edge_paths(d: &DictionarySnapshot, node: usize, count: usize, remaining: usize, prefix: &mut Vec<char>,
    out: &mut Vec<DictionaryPath>, budget: &mut ExpansionBudget) -> (r: Result<(), GeneralizedWfstError>)
    requires
        d.wf(),
        node < d.edges@.len(),
        count <= d.edges@[node as int]@.len(),
        remaining >= 1,
    ensures
        final(budget).spec_limits() == old(budget).spec_limits(),
        final(prefix)@ == old(prefix)@,
        r matches Err(e) ==> e is LimitExceeded || e is ArithmeticOverflow,
        ({
            let (paths, work, total) = spec_edge_paths(d, d.spec_edges(node as int).take(count as int),
                remaining as nat, old(prefix)@);
            &&& r is Ok <==> fits(old(budget), work, total)
            &&& r is Ok ==> {
                &&& final(budget).spec_work() == old(budget).spec_work() + work
                &&& final(budget).spec_paths() == old(budget).spec_paths() + total
                &&& final(out)@.len() == old(out)@.len() + paths.len()
                &&& final(out)@.subrange(0, old(out)@.len() as int) == old(out)@
                &&& forall|j: int| 0 <= j < paths.len() ==> {
                        let p = #[trigger] final(out)@[old(out)@.len() + j];
                        &&& p.output@ == old(prefix)@ + paths[j].0
                        &&& p.bytes@ == encode_utf8(p.output@)
                        &&& p.target == paths[j].1
                    }
            }
        }),
    decreases remaining, 0nat, count,
{
    let ghost es = d.spec_edges(node as int).take(count as int);
    if count == 0 {
        proof {
            assert(es.len() == 0);
            assert(out@.subrange(0, out@.len() as int) =~= out@);
        }
        return Ok(());
    }
    proof {
        assert(es.drop_last() =~= d.spec_edges(node as int).take(count - 1));
        assert(es.last() == d.edges@[node as int]@[count - 1]);
    }
    let ghost out0 = out@;
    let ghost prefix0 = prefix@;
    let first = collect_edge_paths(d, node, count - 1, remaining, prefix, out, budget);
    let ghost before = spec_edge_paths(d, es.drop_last(), remaining as nat, prefix0);
    match first {
        Ok(()) => {},
        Err(e) => return Err(e),
    }
    let ghost out1 = out@;
    proof {
        budget.lemma_counts_fit();
    }
    match budget.charge_work(2) {
        Ok(()) => {},
        Err(e) => return Err(e),
    }
    let (label, child) = d.edges[node][count - 1];
    prefix.push(label);
    let ghost out2 = out@;
    if remaining == 1 {
        proof {
            budget.lemma_counts_fit();
        }
        match budget.charge_path() {
            Ok(()) => {},
            Err(e) => {
                let _ = prefix.pop();
                proof {
                    assert(prefix@ =~= prefix0);
                }
                return Err(e);
            },
        }
        let output: Vec<char> = prefix.clone();
        proof {
            assert(output@ =~= prefix@);
        }
        let text: String = string_from_chars(&output);
        let bytes: Vec<u8> = vstd::slice::slice_to_vec(text.as_str().as_bytes());
        let units: usize = 1usize.saturating_add(output.len()).saturating_add(bytes.len());
        proof {
            budget.lemma_counts_fit();
            assert(units == path_units(prefix0.push(label)));
        }
        match budget.charge_work(units) {
            Ok(()) => {},
            Err(e) => {
                let _ = prefix.pop();
                proof {
                    assert(prefix@ =~= prefix0);
                }
                return Err(e);
            },
        }
        out.push(DictionaryPath { output, bytes, target: child });
        let _ = prefix.pop();
        proof {
            assert(prefix@ =~= prefix0);
            let whole = spec_edge_paths(d, es, remaining as nat, prefix0);
            assert(whole.0 == before.0.push((seq![label], child)));
            assert(out@.subrange(0, out0.len() as int) =~= out0) by {
                assert(out1.subrange(0, out0.len() as int) == out0);
            }
            assert forall|j: int| 0 <= j < whole.0.len() implies {
                let p = #[trigger] out@[out0.len() + j];
                &&& p.output@ == prefix0 + whole.0[j].0
                &&& p.target == whole.0[j].1
                &&& p.bytes@ == encode_utf8(p.output@)
            } by {
                if j < before.0.len() {
                    assert(out@[out0.len() + j] == out1[out0.len() + j]);
                } else {
                    assert(prefix0.push(label) =~= prefix0 + seq![label]);
                }
            }
        }
        return Ok(());
    }
    let below_r = collect_frame(d, child, remaining - 1, prefix, out, budget);
    let _ = prefix.pop();
    proof {
        assert(prefix@ =~= prefix0);
        let below = frame_paths(d, child as int, (remaining - 1) as nat, prefix0.push(label));
        assert(child < d.edges@.len());
        let whole = spec_edge_paths(d, es, remaining as nat, prefix0);
        assert(whole.0 == before.0 + prefixed(label, below.0));
    }
    match below_r {
        Ok(()) => {},
        Err(e) => return Err(e),
    }
    proof {
        let below = frame_paths(d, child as int, (remaining - 1) as nat, prefix0.push(label));
        let whole = spec_edge_paths(d, es, remaining as nat, prefix0);
        assert(out@.subrange(0, out0.len() as int) =~= out0) by {
            assert(out@.subrange(0, out1.len() as int) == out1);
        }
        assert forall|j: int| 0 <= j < whole.0.len() implies {
            let p = #[trigger] out@[out0.len() + j];
            &&& p.output@ == prefix0 + whole.0[j].0
            &&& p.target == whole.0[j].1
            &&& p.bytes@ == encode_utf8(p.output@)
        } by {
            if j < before.0.len() {
                assert(out@[out0.len() + j] == out1[out0.len() + j]);
            } else {
                let m = j - before.0.len();
                assert(out@[out0.len() + j] == out@[out2.len() + m]);
                assert(whole.0[j] == prefixed(label, below.0)[m]);
                assert(prefix0.push(label) + below.0[m].0 =~= prefix0 + (seq![label] + below.0[m].0));
            }
        }
    }
    Ok(())
}

/// The dictionary paths of exactly `width` labels below `start`, depth first
/// in edge order, each with its UTF-8 bytes, charged against `budget`: an
/// invalid-state error when `start` is not a node of the snapshot, otherwise
/// `Ok` exactly when the budget holds every charge `spec_paths` names: every
/// node read, every turn of the search and every completed path.
pub fn dictionary_paths(d: &DictionarySnapshot, start: usize, width: usize, budget: &mut ExpansionBudget)
    -> (r: Result<Vec<DictionaryPath>, ExpansionError>)
    requires
        d.wf(),
    ensures
        final(budget).spec_limits() == old(budget).spec_limits(),
        start >= d.edges@.len() ==> r == Err::<Vec<DictionaryPath>, ExpansionError>(ExpansionError::InvalidState)
            && *final(budget) == *old(budget),
        start < d.edges@.len() ==> ({
            let (paths, work, count) = spec_paths(d, start as int, width as nat);
            &&& r is Ok <==> fits(old(budget), work, count)
            &&& r matches Err(e) ==> (e matches ExpansionError::Resource(x) && (x is LimitExceeded || x is ArithmeticOverflow))
            &&& r matches Ok(found) ==> {
                &&& final(budget).spec_work() == old(budget).spec_work() + work
                &&& final(budget).spec_paths() == old(budget).spec_paths() + count
                &&& found@.len() == paths.len()
                &&& forall|j: int| 0 <= j < paths.len() ==> {
                        &&& (#[trigger] found@[j]).output@ == paths[j].0
                        &&& found@[j].bytes@ == encode_utf8(paths[j].0)
                        &&& found@[j].target == paths[j].1
                    }
            }
        }),
{
    if start >= d.edges.len() {
        return Err(ExpansionError::InvalidState);
    }
    if width == 0 {
        proof {
            budget.lemma_counts_fit();
        }
        match budget.charge_path() {
            Ok(()) => {},
            Err(e) => return Err(ExpansionError::Resource(e)),
        }
        proof {
            budget.lemma_counts_fit();
        }
        match budget.charge_work(1) {
            Ok(()) => {},
            Err(e) => return Err(ExpansionError::Resource(e)),
        }
        let output: Vec<char> = Vec::new();
        let text: String = string_from_chars(&output);
        let bytes: Vec<u8> = vstd::slice::slice_to_vec(text.as_str().as_bytes());
        let mut found: Vec<DictionaryPath> = Vec::new();
        found.push(DictionaryPath { output, bytes, target: start });
        proof {
            assert(spec_paths(d, start as int, 0).0[0] == (Seq::<char>::empty(), start));
            assert(found@[0].output@ =~= Seq::<char>::empty());
        }
        return Ok(found);
    }
    let mut prefix: Vec<char> = Vec::new();
    let mut out: Vec<DictionaryPath> = Vec::new();
    match collect_frame(d, start, width, &mut prefix, &mut out, budget) {
        Ok(()) => {
            proof {
                let paths = spec_paths(d, start as int, width as nat).0;
                assert forall|j: int| 0 <= j < paths.len() implies {
                    &&& (#[trigger] out@[j]).output@ == paths[j].0
                    &&& out@[j].bytes@ == encode_utf8(paths[j].0)
                    &&& out@[j].target == paths[j].1
                } by {
                    assert(Seq::<char>::empty() + paths[j].0 =~= paths[j].0);
                    assert(out@[0 + j] == out@[j]);
                }
            }
            Ok(out)
        },
        Err(e) => Err(ExpansionError::Resource(e)),
    }
}

} // verus!
