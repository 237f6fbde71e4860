//! Resource ceilings, their errors and the per-expansion work budget of the
//! generalized dictionary-product WFST.
use vstd::prelude::*;

verus! {

/// Resource controlled by [`GeneralizedWfstLimits`].
#[derive(Clone, Copy, Debug, PartialEq, Eq, Structural)]
pub enum GeneralizedWfstResource {
    /// UTF-8 bytes retained by the owned query.
    QueryBytes,
    /// Unicode scalar values retained by the owned query.
    QueryScalars,
    /// Dictionary scalars consumed by one operation.
    OperationSourceScalars,
    /// Query scalars consumed by one operation.
    OperationQueryScalars,
    /// Dictionary-node identities retained across expansions.
    RetainedDictionaryNodes,
    /// Product and multi-label continuation identities retained across expansions.
    RetainedWfstStates,
    /// Complete dictionary paths materialized during one state expansion.
    PathsPerExpansion,
    /// Aggregate traversal, predicate, and label-copy work in one expansion.
    WorkUnitsPerExpansion,
}

impl GeneralizedWfstResource {
    /// The human-readable name of the resource.
    pub open spec fn spec_name(self) -> Seq<char> {
        match self {
            GeneralizedWfstResource::QueryBytes => "query bytes"@,
            GeneralizedWfstResource::QueryScalars => "query scalars"@,
            GeneralizedWfstResource::OperationSourceScalars => "operation source scalars"@,
            GeneralizedWfstResource::OperationQueryScalars => "operation query scalars"@,
            GeneralizedWfstResource::RetainedDictionaryNodes => "retained dictionary nodes"@,
            GeneralizedWfstResource::RetainedWfstStates => "retained WFST states"@,
            GeneralizedWfstResource::PathsPerExpansion => "paths per expansion"@,
            GeneralizedWfstResource::WorkUnitsPerExpansion => "work units per expansion"@,
        }
    }

    /// The human-readable name of the resource, as it is displayed.
    pub fn name(&self) -> (r: &'static str)
        ensures
            r@ == self.spec_name(),
    {
        match self {
            GeneralizedWfstResource::QueryBytes => "query bytes",
            GeneralizedWfstResource::QueryScalars => "query scalars",
            GeneralizedWfstResource::OperationSourceScalars => "operation source scalars",
            GeneralizedWfstResource::OperationQueryScalars => "operation query scalars",
            GeneralizedWfstResource::RetainedDictionaryNodes => "retained dictionary nodes",
            GeneralizedWfstResource::RetainedWfstStates => "retained WFST states",
            GeneralizedWfstResource::PathsPerExpansion => "paths per expansion",
            GeneralizedWfstResource::WorkUnitsPerExpansion => "work units per expansion",
        }
    }
}

/// Inclusive resource ceilings for a generalized dictionary-product WFST.
///
/// A zero query limit accepts only an empty query. A zero operation-width
/// limit accepts only operations that consume zero scalars on that side. The
/// retained-node and retained-state limits must each be at least one because
/// construction installs the dictionary root and product start state.
#[derive(Clone, Copy, Debug, PartialEq, Eq, Structural)]
pub struct GeneralizedWfstLimits {
    /// Maximum UTF-8 byte length of the owned query.
    pub max_query_bytes: usize,
    /// Maximum Unicode-scalar length of the owned query.
    pub max_query_scalars: usize,
    /// Maximum dictionary-scalar width of one operation.
    pub max_operation_source_scalars: usize,
    /// Maximum query-scalar width of one operation.
    pub max_operation_query_scalars: usize,
    /// Maximum shared dictionary-node identities, including the root.
    pub max_retained_dictionary_nodes: usize,
    /// Maximum shared product and continuation states, including the start.
    pub max_retained_wfst_states: usize,
    /// Maximum complete dictionary paths considered by one expansion.
    pub max_paths_per_expansion: usize,
    /// Maximum aggregate charged work units for one expansion.
    pub max_work_units_per_expansion: usize,
}

impl GeneralizedWfstLimits {
    /// The default ceilings.
    pub open spec fn spec_default() -> GeneralizedWfstLimits {
        GeneralizedWfstLimits {
            max_query_bytes: 1_048_576,
            max_query_scalars: 262_144,
            max_operation_source_scalars: 4_096,
            max_operation_query_scalars: 4_096,
            max_retained_dictionary_nodes: 1_000_000,
            max_retained_wfst_states: 1_000_000,
            max_paths_per_expansion: 262_144,
            max_work_units_per_expansion: 4_000_000,
        }
    }
}

impl Default for GeneralizedWfstLimits {
    fn default() -> (r: Self)
        ensures
            r == GeneralizedWfstLimits::spec_default(),
    {
        GeneralizedWfstLimits {
            max_query_bytes: 1_048_576,
            max_query_scalars: 262_144,
            max_operation_source_scalars: 4_096,
            max_operation_query_scalars: 4_096,
            max_retained_dictionary_nodes: 1_000_000,
            max_retained_wfst_states: 1_000_000,
            max_paths_per_expansion: 262_144,
            max_work_units_per_expansion: 4_000_000,
        }
    }
}

/// Construction or bounded-expansion failure of the generalized WFST.
#[derive(Clone, Copy, Debug, PartialEq, Eq)]
pub enum GeneralizedWfstError {
    /// No query was supplied to the builder.
    MissingQuery,
    /// An inclusive configured ceiling was exceeded.
    LimitExceeded {
        /// Resource whose bound was exceeded.
        resource: GeneralizedWfstResource,
        /// Configured inclusive ceiling.
        limit: usize,
        /// Minimum required amount when known.
        required: usize,
    },
    /// Checked internal cost or identifier arithmetic overflowed.
    ArithmeticOverflow(&'static str),
    /// A fallible reservation could not allocate the requested capacity.
    AllocationFailed(&'static str),
}

impl GeneralizedWfstError {
    /// The limit-exceeded error for `resource`.
    pub fn limit(resource: GeneralizedWfstResource, limit: usize, required: usize) -> (r: Self)
        ensures
            r == (GeneralizedWfstError::LimitExceeded { resource, limit, required }),
    {
        GeneralizedWfstError::LimitExceeded { resource, limit, required }
    }
}

/// `Ok` when `required` is within the inclusive `limit`, else the
/// limit-exceeded error naming the resource, the limit and the requirement.
pub fn require_at_most(resource: GeneralizedWfstResource, required: usize, limit: usize) -> (r: Result<(), GeneralizedWfstError>)
    ensures
        r == (if required <= limit {
            Ok::<(), GeneralizedWfstError>(())
        } else {
            Err(GeneralizedWfstError::LimitExceeded { resource, limit, required })
        }),
{
    if required <= limit {
        Ok(())
    } else {
        Err(GeneralizedWfstError::LimitExceeded { resource, limit, required })
    }
}

/// Per-expansion accounting of materialized paths and charged work units.
pub struct ExpansionBudget {
    paths: usize,
    work: usize,
    limits: GeneralizedWfstLimits,
}

impl ExpansionBudget {
    /// Paths charged so far.
    pub closed spec fn spec_paths(&self) -> nat {
        self.paths as nat
    }

    /// Work units charged so far.
    pub closed spec fn spec_work(&self) -> nat {
        self.work as nat
    }

    /// The ceilings the budget enforces.
    pub closed spec fn spec_limits(&self) -> GeneralizedWfstLimits {
        self.limits
    }

    /// The counters are machine integers.
    pub proof fn lemma_counts_fit(&self)
        ensures
            self.spec_paths() <= usize::MAX,
            self.spec_work() <= usize::MAX,
    {
    }

    /// A budget with nothing charged.
    pub fn new(limits: GeneralizedWfstLimits) -> (r: Self)
        ensures
            r.spec_paths() == 0,
            r.spec_work() == 0,
            r.spec_limits() == limits,
    {
        ExpansionBudget { paths: 0, work: 0, limits }
    }

    /// Paths charged so far.
    pub fn paths(&self) -> (r: usize)
        ensures
            r == self.spec_paths(),
    {
        self.paths
    }

    /// Work units charged so far.
    pub fn work(&self) -> (r: usize)
        ensures
            r == self.spec_work(),
    {
        self.work
    }

    /// Charge `units` of work. Fails on overflow of the running total, or when
    /// the new total exceeds the work ceiling; the total is kept either way
    /// except on overflow.
    pub fn charge_work(&mut self, units: usize) -> (r: Result<(), GeneralizedWfstError>)
        ensures
            final(self).spec_limits() == old(self).spec_limits(),
            final(self).spec_paths() == old(self).spec_paths(),
            old(self).spec_work() + units > usize::MAX ==> {
                &&& final(self).spec_work() == old(self).spec_work()
                &&& r == Err::<(), GeneralizedWfstError>(GeneralizedWfstError::ArithmeticOverflow("counting expansion work"))
            },
            old(self).spec_work() + units <= usize::MAX ==> {
                &&& final(self).spec_work() == old(self).spec_work() + units
                &&& r == (if final(self).spec_work() <= old(self).spec_limits().max_work_units_per_expansion {
                    Ok::<(), GeneralizedWfstError>(())
                } else {
                    Err(GeneralizedWfstError::LimitExceeded {
                        resource: GeneralizedWfstResource::WorkUnitsPerExpansion,
                        limit: old(self).spec_limits().max_work_units_per_expansion,
                        required: (old(self).spec_work() + units) as usize,
                    })
                })
            },
    {
        match self.work.checked_add(units) {
            None => Err(GeneralizedWfstError::ArithmeticOverflow("counting expansion work")),
            Some(total) => {
                self.work = total;
                require_at_most(
                    GeneralizedWfstResource::WorkUnitsPerExpansion,
                    total,
                    self.limits.max_work_units_per_expansion,
                )
            },
        }
    }

    /// Charge one materialized dictionary path against the path ceiling.
    pub fn charge_path(&mut self) -> (r: Result<(), GeneralizedWfstError>)
        ensures
            final(self).spec_limits() == old(self).spec_limits(),
            final(self).spec_work() == old(self).spec_work(),
            old(self).spec_paths() == usize::MAX ==> {
                &&& final(self).spec_paths() == old(self).spec_paths()
                &&& r == Err::<(), GeneralizedWfstError>(GeneralizedWfstError::ArithmeticOverflow("counting dictionary paths"))
            },
            old(self).spec_paths() < usize::MAX ==> {
                &&& final(self).spec_paths() == old(self).spec_paths() + 1
                &&& r == (if final(self).spec_paths() <= old(self).spec_limits().max_paths_per_expansion {
                    Ok::<(), GeneralizedWfstError>(())
                } else {
                    Err(GeneralizedWfstError::LimitExceeded {
                        resource: GeneralizedWfstResource::PathsPerExpansion,
                        limit: old(self).spec_limits().max_paths_per_expansion,
                        required: (old(self).spec_paths() + 1) as usize,
                    })
                })
            },
    {
        match self.paths.checked_add(1) {
            None => Err(GeneralizedWfstError::ArithmeticOverflow("counting dictionary paths")),
            Some(total) => {
                self.paths = total;
                require_at_most(
                    GeneralizedWfstResource::PathsPerExpansion,
                    total,
                    self.limits.max_paths_per_expansion,
                )
            },
        }
    }
}

/// Why expanding a generalized state failed: the state names no known
/// dictionary node or is out of range, or a resource ceiling was reached.
#[derive(Clone, Copy, Debug, PartialEq, Eq)]
pub enum ExpansionError {
    /// The state is not a valid state of this WFST.
    InvalidState,
    /// A budget, limit or allocation failure.
    Resource(GeneralizedWfstError),
}

/// A dictionary node referenced by its committed ID or by a local staging offset.
#[derive(Clone, Copy, Debug, PartialEq, Eq, Structural)]
pub enum PendingDictionaryNode {
    /// A node with a committed registry ID.
    Registered(u32),
    /// A node staged at this offset of the current expansion.
    Staged(usize),
}

/// The committed ID of a node: its own ID, or the ID assigned to its staging offset.
pub fn resolved_node(reference: PendingDictionaryNode, ids: &[u32]) -> (r: u32)
    requires
        reference matches PendingDictionaryNode::Staged(index) ==> index < ids@.len(),
    ensures
        r == (match reference {
            PendingDictionaryNode::Registered(id) => id,
            PendingDictionaryNode::Staged(index) => ids@[index as int],
        }),
{
    match reference {
        PendingDictionaryNode::Registered(id) => id,
        PendingDictionaryNode::Staged(index) => ids[index],
    }
}

/// The ID the next registered WFST state receives when `len` are registered;
/// `u32::MAX` is reserved as the no-state sentinel.
pub fn next_state_id(len: usize) -> (r: Option<u32>)
    ensures
        r == (if len < u32::MAX { Some(len as u32) } else { None::<u32> }),
{
    if len < 0xffff_ffffusize { Some(len as u32) } else { None }
}

/// The last ID of a nonempty batch of `required` retained states: within the
/// retained-state ceiling, and never the no-state sentinel.
pub fn checked_state_count(required: usize, limit: usize) -> (r: Result<u32, GeneralizedWfstError>)
    ensures
        required > limit ==> r == Err::<u32, GeneralizedWfstError>(GeneralizedWfstError::LimitExceeded {
            resource: GeneralizedWfstResource::RetainedWfstStates,
            limit,
            required,
        }),
        required <= limit && 1 <= required <= u32::MAX ==> r == Ok::<u32, GeneralizedWfstError>((required - 1) as u32),
        required <= limit && (required == 0 || required > u32::MAX) ==> r == Err::<u32, GeneralizedWfstError>(
            GeneralizedWfstError::ArithmeticOverflow("encoding a WFST state ID without using NO_STATE"),
        ),
{
    match require_at_most(GeneralizedWfstResource::RetainedWfstStates, required, limit) {
        Err(e) => Err(e),
        Ok(()) => {
            let last: Option<u32> = if required == 0 { None } else { next_state_id(required - 1) };
            match last {
                Some(id) => Ok(id),
                None => Err(GeneralizedWfstError::ArithmeticOverflow("encoding a WFST state ID without using NO_STATE")),
            }
        },
    }
}

} // verus!
