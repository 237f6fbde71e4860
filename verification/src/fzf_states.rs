//! Path-sensitive states of the lazy fzf transducer over a dictionary: each
//! state is a dictionary path with its DP column, and the weight of a
//! transition is the change of the best complete score along the path.
use vstd::prelude::*;
use crate::fzf_support::{FzfColumn, FzfColumnModel, FzfCore};
use crate::node_key::{lemma_child_is_not_root, lemma_child_key_injective, spec_child_key, DictionaryNodeKey};
use crate::node_registry::DictionaryNodeRegistry;

verus! {

/// The score a path carries: its best complete score, zero before any.
pub open spec fn spec_path_score(column: FzfColumnModel) -> int {
    match column.best_full_score {
        Some(s) => s as int,
        None => 0,
    }
}

/// A registered fzf state: its dictionary node, DP column and path score.
pub struct RegisteredFzfState<N> {
    /// The dictionary node at the end of the path.
    pub node: N,
    /// The DP column of the path.
    pub column: FzfColumn,
    /// The best complete score along the path, zero before any.
    pub path_score: i32,
}

/// A transition of the fzf transducer: reads and writes `label`, and changes
/// the path score by `delta`.
#[derive(Clone, Copy, Debug, PartialEq, Eq, Structural)]
pub struct FzfTransition {
    /// Source state.
    pub from: u32,
    /// The scalar read and written.
    pub label: char,
    /// Target state.
    pub to: u32,
    /// Change of the path score.
    pub delta: i32,
}

/// An expanded fzf state: whether it accepts and its transitions.
pub struct FzfExpansion {
    /// Whether the state accepts.
    pub is_final: bool,
    /// Its transitions, in edge order.
    pub transitions: Vec<FzfTransition>,
}

/// Stable state IDs for dictionary paths, keyed by their last step.
pub struct FzfStateRegistry<N> {
    states: DictionaryNodeRegistry<RegisteredFzfState<N>>,
}

impl<N> FzfStateRegistry<N> {
    /// The registered states, by ID.
    pub closed spec fn spec_states(self) -> Seq<RegisteredFzfState<N>> {
        self.states.spec_nodes()
    }

    /// The path steps `(parent, label)`, packed, and the IDs they reached.
    pub closed spec fn spec_ids(self) -> Map<u64, u32> {
        self.states.spec_ids()
    }

    /// Dense IDs, at least the root, and each path score is its column's.
    pub closed spec fn wf(self) -> bool {
        &&& self.states.wf()
        &&& self.states.spec_nodes().len() >= 1
        &&& forall|i: int| 0 <= i < self.states.spec_nodes().len() ==>
                (#[trigger] self.states.spec_nodes()[i]).path_score == spec_path_score(self.states.spec_nodes()[i].column@)
    }

    /// Every registered state's path score is its column's, and IDs are dense.
    pub proof fn lemma_path_scores(self)
        requires
            self.wf(),
        ensures
            forall|i: int| 0 <= i < self.spec_states().len() ==>
                (#[trigger] self.spec_states()[i]).path_score == spec_path_score(self.spec_states()[i].column@),
    {
    }

    /// Every column fits the query of `core`, and each child's column is its
    /// parent's advanced by the step's label.
    pub open spec fn consistent(self, core: FzfCore) -> bool {
        &&& forall|i: int| 0 <= i < self.spec_states().len() ==>
                (#[trigger] self.spec_states()[i]).column@.cells.len() == core.spec_query().len()
        &&& forall|p: u32, l: char| #[trigger] self.spec_ids().contains_key(spec_child_key(p, l)) ==> {
                &&& p < self.spec_states().len()
                &&& self.spec_ids()[spec_child_key(p, l)] < self.spec_states().len()
                &&& self.spec_states()[self.spec_ids()[spec_child_key(p, l)] as int].column@
                    == core.spec_advance(self.spec_states()[p as int].column@, l)
            }
    }

    /// A registry holding only the root path, with ID 0.
    pub fn new(root: N, root_column: FzfColumn) -> (r: Self)
        ensures
            r.wf(),
            r.spec_states().len() == 1,
            r.spec_states()[0].node == root,
            r.spec_states()[0].column == root_column,
            r.spec_ids() == Map::<u64, u32>::empty().insert(u64::MAX, 0),
    {
        let path_score: i32 = match root_column.best_full_score() {
            Some(s) => s,
            None => 0,
        };
        let states = DictionaryNodeRegistry::new(RegisteredFzfState { node: root, column: root_column, path_score });
        FzfStateRegistry { states }
    }

    /// The state registered under `state`.
    pub fn get(&self, state: u32) -> (r: Option<&RegisteredFzfState<N>>)
        ensures
            match r {
                Some(s) => state < self.spec_states().len() && *s == self.spec_states()[state as int],
                None => state >= self.spec_states().len(),
            },
    {
        self.states.get_node(state)
    }

    /// Number of registered states.
    pub fn len(&self) -> (r: usize)
        ensures
            r == self.spec_states().len(),
    {
        self.states.len()
    }

    /// The state reached from `parent` by `label`: its existing ID, else the
    /// next ID with `node` and `column`, or `None` once IDs are exhausted.
    pub fn register_child(&mut self, parent: u32, label: char, node: N, column: FzfColumn) -> (r: Option<u32>)
        requires
            old(self).wf(),
        ensures
            final(self).wf(),
            if old(self).spec_ids().contains_key(spec_child_key(parent, label)) {
                &&& r == Some(old(self).spec_ids()[spec_child_key(parent, label)])
                &&& final(self).spec_ids() == old(self).spec_ids()
                &&& final(self).spec_states() == old(self).spec_states()
            } else if old(self).spec_states().len() <= u32::MAX {
                &&& r == Some(old(self).spec_states().len() as u32)
                &&& final(self).spec_ids() == old(self).spec_ids().insert(spec_child_key(parent, label), old(self).spec_states().len() as u32)
                &&& final(self).spec_states().len() == old(self).spec_states().len() + 1
                &&& final(self).spec_states().drop_last() == old(self).spec_states()
                &&& final(self).spec_states().last().node == node
                &&& final(self).spec_states().last().column == column
            } else {
                &&& r is None
                &&& final(self).spec_ids() == old(self).spec_ids()
                &&& final(self).spec_states() == old(self).spec_states()
            },
    {
        let path_score: i32 = match column.best_full_score() {
            Some(s) => s,
            None => 0,
        };
        let ghost before = self.states.spec_nodes();
        let r = self.states.register_node(
            RegisteredFzfState { node, column, path_score },
            DictionaryNodeKey::child(parent, label),
        );
        proof {
            if self.states.spec_nodes().len() > before.len() {
                assert(self.states.spec_nodes().drop_last() =~= before);
            }
            assert forall|i: int| 0 <= i < self.states.spec_nodes().len() implies
                (#[trigger] self.states.spec_nodes()[i]).path_score == spec_path_score(self.states.spec_nodes()[i].column@) by {
                if i < before.len() {
                    assert(self.states.spec_nodes()[i] == before[i]);
                }
            }
        }
        r
    }
}

/// State `i` is the child that `state` reaches by one of `edges`, and holds
/// that edge's node.
pub open spec fn reached_by_edge<N>(registry: FzfStateRegistry<N>, state: u32, edges: Seq<(char, N)>, i: int) -> bool {
    exists|k: int| #![trigger edges[k]] {
        &&& 0 <= k < edges.len()
        &&& registry.spec_states()[i].node == edges[k].1
        &&& registry.spec_ids().contains_key(spec_child_key(state, edges[k].0))
        &&& registry.spec_ids()[spec_child_key(state, edges[k].0)] == i
    }
}

/// Whether every edge's score change fits an `i32`.
pub open spec fn spec_deltas_fit<N>(core: FzfCore, parent: FzfColumnModel, path_score: i32, edges: Seq<(char, N)>) -> bool {
    forall|k: int| 0 <= k < edges.len() ==> i32::MIN <= #[trigger] spec_path_score(core.spec_advance(parent, edges[k].0)) - path_score <= i32::MAX
}

/// Whether every edge of `state`'s expansion changes the path score by an
/// amount that fits an `i32`.
pub fn fzf_transition_deltas_fit<N>(core: &FzfCore, registry: &FzfStateRegistry<N>, state: u32, edges: &[(char, N)]) -> (r: bool)
    requires
        registry.wf(),
        registry.consistent(*core),
    ensures
        state < registry.spec_states().len() ==> r == spec_deltas_fit(
            *core,
            registry.spec_states()[state as int].column@,
            registry.spec_states()[state as int].path_score,
            edges@,
        ),
{
    let registered: &RegisteredFzfState<N> = match registry.get(state) {
        Some(s) => s,
        None => return true,
    };
    for k in 0..edges.len()
        invariant
            state < registry.spec_states().len(),
            *registered == registry.spec_states()[state as int],
            registry.consistent(*core),
            forall|j: int| 0 <= j < k ==> i32::MIN <= #[trigger] spec_path_score(core.spec_advance(registered.column@, edges@[j].0))
                - registered.path_score <= i32::MAX,
    {
        let column: FzfColumn = core.advance(&registered.column, edges[k].0);
        let child: i64 = match column.best_full_score() {
            Some(s) => s as i64,
            None => 0,
        };
        let delta: i64 = child - registered.path_score as i64;
        if delta < i32::MIN as i64 || delta > i32::MAX as i64 {
            proof {
                assert(child == spec_path_score(column@));
                assert(!(i32::MIN <= spec_path_score(core.spec_advance(registered.column@, edges@[k as int].0))
                    - registered.path_score <= i32::MAX));
            }
            return false;
        }
    }
    true
}

/// A child path computed from an edge, before registration.
struct PendingFzfChild<N> {
    label: char,
    node: N,
    column: FzfColumn,
}

/// Expand `state`, whose node is final when `node_is_final` and has the
/// outgoing `edges`: one transition per edge, in edge order, to the state of
/// the extended path, weighted by the change of the path score. An
/// unregistered state expands to nothing.
pub fn compute_registered_state<N>(core: &FzfCore, registry: &mut FzfStateRegistry<N>, state: u32, node_is_final: bool,
    edges: Vec<(char, N)>) -> (r: Option<FzfExpansion>)
    requires
        old(registry).wf(),
        old(registry).consistent(*core),
        state < old(registry).spec_states().len() ==> spec_deltas_fit(
            *core,
            old(registry).spec_states()[state as int].column@,
            old(registry).spec_states()[state as int].path_score,
            edges@,
        ),
    ensures
        final(registry).wf(),
        final(registry).consistent(*core),
        state >= old(registry).spec_states().len() ==> {
            &&& r is None
            &&& final(registry).spec_states() == old(registry).spec_states()
            &&& final(registry).spec_ids() == old(registry).spec_ids()
        },
        state < old(registry).spec_states().len() ==> {
            let parent = old(registry).spec_states()[state as int];
            let old_len = old(registry).spec_states().len();
            &&& r is Some
            &&& r->0.is_final == (node_is_final && parent.column@.best_full_score is Some)
            &&& final(registry).spec_states().len() >= old_len
            &&& final(registry).spec_states().take(old_len as int) == old(registry).spec_states()
            &&& forall|key: u64| #[trigger] old(registry).spec_ids().contains_key(key) ==>
                    final(registry).spec_ids().contains_key(key) && final(registry).spec_ids()[key] == old(registry).spec_ids()[key]
            &&& r->0.transitions@.len() <= edges@.len()
            &&& old_len + edges@.len() <= u32::MAX + 1 ==> {
                    &&& r->0.transitions@.len() == edges@.len()
                    &&& forall|k: int| 0 <= k < edges@.len() ==> (#[trigger] r->0.transitions@[k]).label == edges@[k].0
                }
            &&& forall|j: int| 0 <= j < r->0.transitions@.len() ==> {
                    let t = #[trigger] r->0.transitions@[j];
                    &&& t.from == state
                    &&& final(registry).spec_ids().contains_key(spec_child_key(state, t.label))
                    &&& final(registry).spec_ids()[spec_child_key(state, t.label)] == t.to
                    &&& t.to < final(registry).spec_states().len()
                    &&& final(registry).spec_states()[t.to as int].column@ == core.spec_advance(parent.column@, t.label)
                    &&& t.delta == final(registry).spec_states()[t.to as int].path_score - parent.path_score
                }
            &&& forall|i: int| old_len <= i < final(registry).spec_states().len()
                    ==> #[trigger] reached_by_edge(*final(registry), state, edges@, i)
        },
{
    let ghost old_states = registry.spec_states();
    let ghost old_ids = registry.spec_ids();
    let registered: &RegisteredFzfState<N> = match registry.get(state) {
        Some(s) => s,
        None => return None,
    };
    let path_score: i32 = registered.path_score;
    let is_final: bool = node_is_final && registered.column.best_full_score().is_some();
    let ghost parent = *registered;
    let ghost all_edges = edges@;
    let n: usize = edges.len();
    let mut rest: Vec<(char, N)> = edges;
    let mut pending: Vec<PendingFzfChild<N>> = Vec::new();
    let mut i: usize = 0;
    while i < n
        invariant
            i <= n,
            n == all_edges.len(),
            rest@ == all_edges.subrange(i as int, n as int),
            *registered == parent,
            parent == old_states[state as int],
            registry.spec_states() == old_states,
            registry.consistent(*core),
            (state as int) < old_states.len(),
            pending@.len() == i,
            forall|k: int| 0 <= k < i ==> {
                &&& (#[trigger] pending@[k]).label == all_edges[k].0
                &&& pending@[k].node == all_edges[k].1
                &&& pending@[k].column@ == core.spec_advance(parent.column@, all_edges[k].0)
            },
        decreases n - i,
    {
        proof {
            assert(rest@[0] == all_edges[i as int]);
        }
        let ghost before_pending = pending@;
        let (label, node) = rest.remove(0);
        let column: FzfColumn = core.advance(&registered.column, label);
        pending.push(PendingFzfChild { label, node, column });
        proof {
            assert(label == all_edges[i as int].0 && node == all_edges[i as int].1);
            assert(pending@.len() == before_pending.len() + 1);
            assert forall|k: int| 0 <= k < i + 1 implies {
                &&& (#[trigger] pending@[k]).label == all_edges[k].0
                &&& pending@[k].node == all_edges[k].1
                &&& pending@[k].column@ == core.spec_advance(parent.column@, all_edges[k].0)
            } by {
                if k < i {
                    assert(pending@[k] == before_pending[k]);
                }
            }
        }
        i = i + 1;
        proof {
            assert(rest@ =~= all_edges.subrange(i as int, n as int));
        }
    }
    let ghost all_pending = pending@;
    let mut transitions: Vec<FzfTransition> = Vec::new();
    let mut j: usize = 0;
    while j < n
        invariant
            j <= n,
            n == all_edges.len(),
            all_pending.len() == n,
            pending@ == all_pending.subrange(j as int, n as int),
            forall|k: int| 0 <= k < n ==> {
                &&& (#[trigger] all_pending[k]).label == all_edges[k].0
                &&& all_pending[k].node == all_edges[k].1
                &&& all_pending[k].column@ == core.spec_advance(parent.column@, all_edges[k].0)
            },
            parent == old_states[state as int],
            (state as int) < old_states.len(),
            path_score == parent.path_score,
            spec_deltas_fit(*core, parent.column@, parent.path_score, all_edges),
            registry.wf(),
            registry.consistent(*core),
            old_states.len() <= registry.spec_states().len() <= old_states.len() + j,
            registry.spec_states().take(old_states.len() as int) == old_states,
            forall|key: u64| #[trigger] old_ids.contains_key(key) ==>
                registry.spec_ids().contains_key(key) && registry.spec_ids()[key] == old_ids[key],
            transitions@.len() <= j,
            old_states.len() + n <= u32::MAX + 1 ==> {
                &&& transitions@.len() == j
                &&& forall|k: int| 0 <= k < j ==> (#[trigger] transitions@[k]).label == all_edges[k].0
            },
            forall|t: int| 0 <= t < transitions@.len() ==> {
                let tr = #[trigger] transitions@[t];
                &&& tr.from == state
                &&& registry.spec_ids().contains_key(spec_child_key(state, tr.label))
                &&& registry.spec_ids()[spec_child_key(state, tr.label)] == tr.to
                &&& tr.to < registry.spec_states().len()
                &&& registry.spec_states()[tr.to as int].column@ == core.spec_advance(parent.column@, tr.label)
                &&& tr.delta == registry.spec_states()[tr.to as int].path_score - parent.path_score
            },
            forall|i: int| #![trigger registry.spec_states()[i]] old_states.len() <= i < registry.spec_states().len() ==> exists|k: int| #![trigger all_edges[k]] {
                &&& 0 <= k < j
                &&& registry.spec_states()[i].node == all_edges[k].1
                &&& registry.spec_ids().contains_key(spec_child_key(state, all_edges[k].0))
                &&& registry.spec_ids()[spec_child_key(state, all_edges[k].0)] == i
            },
        decreases n - j,
    {
        let child: PendingFzfChild<N> = pending.remove(0);
        proof {
            assert(child == all_pending[j as int]);
            assert(pending@ =~= all_pending.subrange(j + 1, n as int));
            assert(i32::MIN <= spec_path_score(core.spec_advance(parent.column@, all_edges[j as int].0)) - parent.path_score <= i32::MAX);
        }
        let child_score: i32 = match child.column.best_full_score() {
            Some(s) => s,
            None => 0,
        };
        let delta: i32 = child_score - path_score;
        let label: char = child.label;
        let ghost before_states = registry.spec_states();
        let ghost before_ids = registry.spec_ids();
        let registered_child: Option<u32> = registry.register_child(state, label, child.node, child.column);
        proof {
            let key = spec_child_key(state, label);
            lemma_child_is_not_root(state, label);
            if registry.spec_states().len() > before_states.len() {
                assert(registry.spec_states().take(before_states.len() as int) =~= before_states);
                assert(registry.spec_states().take(old_states.len() as int) =~= old_states) by {
                    assert(before_states.take(old_states.len() as int) == old_states);
                }
            }
            assert forall|p: u32, l: char| #[trigger] registry.spec_ids().contains_key(spec_child_key(p, l)) implies {
                &&& p < registry.spec_states().len()
                &&& registry.spec_ids()[spec_child_key(p, l)] < registry.spec_states().len()
                &&& registry.spec_states()[registry.spec_ids()[spec_child_key(p, l)] as int].column@
                    == core.spec_advance(registry.spec_states()[p as int].column@, l)
            } by {
                if spec_child_key(p, l) == key {
                    lemma_child_key_injective(p, l, state, label);
                    if !before_ids.contains_key(key) {
                        assert(registry.spec_states()[state as int] == before_states[state as int]);
                    }
                } else {
                    assert(before_ids.contains_key(spec_child_key(p, l)));
                    if registry.spec_states().len() > before_states.len() {
                        assert(registry.spec_states()[p as int] == before_states[p as int]);
                        assert(registry.spec_states()[before_ids[spec_child_key(p, l)] as int]
                            == before_states[before_ids[spec_child_key(p, l)] as int]);
                    }
                }
            }
            assert forall|k: int| 0 <= k < registry.spec_states().len() implies
                (#[trigger] registry.spec_states()[k]).column@.cells.len() == core.spec_query().len() by {
                if k < before_states.len() {
                    assert(registry.spec_states()[k] == before_states[k]);
                }
            }
            assert(registry.spec_states()[state as int] == parent);
            assert forall|i: int| #![trigger registry.spec_states()[i]] old_states.len() <= i < registry.spec_states().len() implies exists|k: int| #![trigger all_edges[k]] {
                &&& 0 <= k < j + 1
                &&& registry.spec_states()[i].node == all_edges[k].1
                &&& registry.spec_ids().contains_key(spec_child_key(state, all_edges[k].0))
                &&& registry.spec_ids()[spec_child_key(state, all_edges[k].0)] == i
            } by {
                if i < before_states.len() {
                    let k = choose|k: int| #![trigger all_edges[k]] {
                        &&& 0 <= k < j
                        &&& before_states[i].node == all_edges[k].1
                        &&& before_ids.contains_key(spec_child_key(state, all_edges[k].0))
                        &&& before_ids[spec_child_key(state, all_edges[k].0)] == i
                    };
                    assert(registry.spec_states()[i] == before_states[i]);
                    assert(registry.spec_states()[i].node == all_edges[k].1);
                } else {
                    assert(all_edges[j as int].0 == label);
                    assert(registry.spec_states()[i].node == all_edges[j as int].1);
                }
            }
        }
        match registered_child {
            Some(child_state) => {
                let ghost before_transitions = transitions@;
                transitions.push(FzfTransition { from: state, label, to: child_state, delta });
                proof {
                    let key = spec_child_key(state, label);
                    assert(registry.spec_ids().contains_key(key));
                    assert(registry.spec_states()[child_state as int].column@ == core.spec_advance(parent.column@, label));
                    assert forall|t: int| 0 <= t < transitions@.len() implies {
                        let tr = #[trigger] transitions@[t];
                        &&& tr.from == state
                        &&& registry.spec_ids().contains_key(spec_child_key(state, tr.label))
                        &&& registry.spec_ids()[spec_child_key(state, tr.label)] == tr.to
                        &&& tr.to < registry.spec_states().len()
                        &&& registry.spec_states()[tr.to as int].column@ == core.spec_advance(parent.column@, tr.label)
                        &&& tr.delta == registry.spec_states()[tr.to as int].path_score - parent.path_score
                    } by {
                        if t < before_transitions.len() {
                            let tr = before_transitions[t];
                            assert(before_ids.contains_key(spec_child_key(state, tr.label)));
                            assert(registry.spec_states()[tr.to as int] == before_states[tr.to as int]);
                        }
                    }
                }
            },
            None => {
                proof {
                    assert(!(old_states.len() + n <= u32::MAX + 1)) by {
                        assert(!before_ids.contains_key(spec_child_key(state, label)));
                        assert(before_states.len() > u32::MAX);
                    }
                }
            },
        }
        j = j + 1;
    }
    proof {
        assert forall|i: int| old_states.len() <= i < registry.spec_states().len()
            implies #[trigger] reached_by_edge(*registry, state, all_edges, i) by {
            let k = choose|k: int| #![trigger all_edges[k]] {
                &&& 0 <= k < j
                &&& registry.spec_states()[i].node == all_edges[k].1
                &&& registry.spec_ids().contains_key(spec_child_key(state, all_edges[k].0))
                &&& registry.spec_ids()[spec_child_key(state, all_edges[k].0)] == i
            };
            assert(0 <= k < all_edges.len());
        }
    }
    Some(FzfExpansion { is_final, transitions })
}

/// The total score change along `path`.
pub open spec fn delta_sum(path: Seq<FzfTransition>) -> int
    decreases path.len(),
{
    if path.len() == 0 { 0 } else { delta_sum(path.drop_last()) + path.last().delta }
}

/// Along a chain of transitions that each change the path score by the
/// difference of their endpoints' scores, the changes add up to the score
/// at the end minus the score at the start: the weights telescope.
pub proof fn lemma_deltas_telescope<N>(registry: FzfStateRegistry<N>, path: Seq<FzfTransition>)
    requires
        path.len() >= 1,
        forall|i: int| 0 <= i < path.len() ==> {
            &&& (#[trigger] path[i]).from < registry.spec_states().len()
            &&& path[i].to < registry.spec_states().len()
            &&& path[i].delta == registry.spec_states()[path[i].to as int].path_score
                - registry.spec_states()[path[i].from as int].path_score
        },
        forall|i: int| 0 <= i < path.len() - 1 ==> (#[trigger] path[i]).to == path[i + 1].from,
    ensures
        delta_sum(path) == registry.spec_states()[path.last().to as int].path_score
            - registry.spec_states()[path[0].from as int].path_score,
    decreases path.len(),
{
    if path.len() > 1 {
        let prefix = path.drop_last();
        assert forall|i: int| 0 <= i < prefix.len() - 1 implies (#[trigger] prefix[i]).to == prefix[i + 1].from by {
            assert(path[i].to == path[i + 1].from);
        }
        lemma_deltas_telescope(registry, prefix);
        assert(path[path.len() - 2].to == path[path.len() - 1].from);
        assert(prefix.last() == path[path.len() - 2]);
        assert(prefix[0] == path[0]);
        let last = path[path.len() - 1];
        assert(last.delta == registry.spec_states()[last.to as int].path_score - registry.spec_states()[last.from as int].path_score);
    } else {
        assert(path.drop_last().len() == 0);
        assert(delta_sum(path.drop_last()) == 0);
        let last = path[0];
        assert(last.delta == registry.spec_states()[last.to as int].path_score - registry.spec_states()[last.from as int].path_score);
    }
}

/// The labels a walk reads, in order.
pub open spec fn walk_labels(path: Seq<FzfTransition>) -> Seq<char>
    decreases path.len(),
{
    if path.len() == 0 { Seq::empty() } else { walk_labels(path.drop_last()).push(path.last().label) }
}

/// Each transition of `path` leads by its label from its source to the
/// registered child and changes the score by the endpoints' difference, and
/// each starts where the previous one ended.
pub open spec fn registered_walk<N>(registry: FzfStateRegistry<N>, path: Seq<FzfTransition>) -> bool {
    &&& forall|i: int| 0 <= i < path.len() ==> {
            &&& (#[trigger] path[i]).from < registry.spec_states().len()
            &&& registry.spec_ids().contains_key(spec_child_key(path[i].from, path[i].label))
            &&& registry.spec_ids()[spec_child_key(path[i].from, path[i].label)] == path[i].to
            &&& path[i].delta == registry.spec_states()[path[i].to as int].path_score
                - registry.spec_states()[path[i].from as int].path_score
        }
    &&& forall|i: int| 0 <= i < path.len() - 1 ==> (#[trigger] path[i]).to == path[i + 1].from
}

/// Along a walk of registered transitions from a state whose column is that
/// of the labels `start`, the state reached holds the column of `start`
/// followed by the labels read, and the score changes add up to that
/// column's path score minus the start's. From the root (the empty prefix,
/// whose path score is zero) the weights of a walk therefore total the best
/// complete score of the labels read, or zero when they do not contain the
/// query.
pub proof fn lemma_walk_telescopes<N>(core: FzfCore, registry: FzfStateRegistry<N>, path: Seq<FzfTransition>,
    start: Seq<char>)
    requires
        registry.wf(),
        registry.consistent(core),
        path.len() >= 1,
        registered_walk(registry, path),
        registry.spec_states()[path[0].from as int].column@ == core.spec_column_after(start),
    ensures
        path.last().to < registry.spec_states().len(),
        registry.spec_states()[path.last().to as int].column@ == core.spec_column_after(start + walk_labels(path)),
        delta_sum(path) == spec_path_score(core.spec_column_after(start + walk_labels(path)))
            - spec_path_score(core.spec_column_after(start)),
        start.len() == 0 ==> delta_sum(path) == spec_path_score(core.spec_column_after(walk_labels(path))),
    decreases path.len(),
{
    reveal_with_fuel(walk_labels, 2);
    let last = path.last();
    let n = path.len() as int;
    assert(last == path[n - 1]);
    registry.lemma_path_scores();
    if path.len() > 1 {
        let prefix = path.drop_last();
        assert(registered_walk(registry, prefix)) by {
            assert forall|i: int| 0 <= i < prefix.len() - 1 implies (#[trigger] prefix[i]).to == prefix[i + 1].from by {
                assert(path[i].to == path[i + 1].from);
            }
            assert forall|i: int| 0 <= i < prefix.len() implies (#[trigger] prefix[i]) == path[i] by {}
        }
        assert(prefix[0] == path[0]);
        lemma_walk_telescopes(core, registry, prefix, start);
        assert(prefix.last() == path[n - 2]);
        assert(path[n - 2].to == last.from);
        assert(start + walk_labels(path) =~= (start + walk_labels(prefix)).push(last.label));
        assert((start + walk_labels(path)).drop_last() =~= start + walk_labels(prefix));
    } else {
        assert(walk_labels(path.drop_last()) =~= Seq::<char>::empty());
        assert(start + walk_labels(path) =~= start.push(last.label));
        assert((start + walk_labels(path)).drop_last() =~= start);
        assert(path.drop_last().len() == 0);
    }
    assert(registry.spec_ids().contains_key(spec_child_key(last.from, last.label)));
    let to_state = registry.spec_states()[last.to as int];
    let from_state = registry.spec_states()[last.from as int];
    assert(to_state.path_score == spec_path_score(to_state.column@));
    assert(from_state.path_score == spec_path_score(from_state.column@));
    assert(delta_sum(path) == delta_sum(path.drop_last()) + last.delta);
    if start.len() == 0 {
        assert(start + walk_labels(path) =~= walk_labels(path));
        assert(core.spec_column_after(start) == core.spec_initial_column());
        assert(spec_path_score(core.spec_column_after(start)) == 0);
    }
}

} // verus!
