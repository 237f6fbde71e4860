//! Numeric codes of the C boundary: WFST kinds and status values.
use vstd::prelude::*;

verus! {

/// Stable duallity C ABI version.
pub const DUALLITY_ABI_VERSION: u32 = 1;
/// Additive project API revision.
pub const DUALLITY_API_REVISION: u32 = 1;

/// Which project-owned duallity WFST should be constructed.
#[derive(Clone, Copy, Debug, PartialEq, Eq, Structural)]
pub enum WfstKind {
    /// Parameterized Levenshtein product using the selected edit algorithm.
    Levenshtein,
    /// Universal standard Levenshtein automaton.
    UniversalStandard,
    /// Universal adjacent-transposition automaton.
    UniversalTransposition,
    /// Universal merge-and-split automaton.
    UniversalMergeAndSplit,
    /// Generalized automaton with standard operations.
    GeneralizedStandard,
    /// Generalized automaton with transposition operations.
    GeneralizedTransposition,
    /// Generalized automaton with merge-and-split operations.
    GeneralizedMergeAndSplit,
    /// Generalized automaton with phonetic digraph operations.
    GeneralizedPhonetic,
    /// FZF V2 path scorer in the Arctic (max-plus) semiring.
    Fzf,
}

impl WfstKind {
    /// The wire code of a kind: its position in declaration order.
    pub open spec fn spec_code(self) -> u32 {
        match self {
            WfstKind::Levenshtein => 0,
            WfstKind::UniversalStandard => 1,
            WfstKind::UniversalTransposition => 2,
            WfstKind::UniversalMergeAndSplit => 3,
            WfstKind::GeneralizedStandard => 4,
            WfstKind::GeneralizedTransposition => 5,
            WfstKind::GeneralizedMergeAndSplit => 6,
            WfstKind::GeneralizedPhonetic => 7,
            WfstKind::Fzf => 8,
        }
    }

    /// The wire code of the kind.
    pub fn code(&self) -> (r: u32)
        ensures
            r == self.spec_code(),
    {
        match self {
            WfstKind::Levenshtein => 0,
            WfstKind::UniversalStandard => 1,
            WfstKind::UniversalTransposition => 2,
            WfstKind::UniversalMergeAndSplit => 3,
            WfstKind::GeneralizedStandard => 4,
            WfstKind::GeneralizedTransposition => 5,
            WfstKind::GeneralizedMergeAndSplit => 6,
            WfstKind::GeneralizedPhonetic => 7,
            WfstKind::Fzf => 8,
        }
    }
}

/// Status returned by duallity C functions.
#[derive(Clone, Copy, Debug, PartialEq, Eq, Structural)]
pub enum DuallityStatus {
    /// Operation completed successfully.
    Success,
    /// An argument or enum value was invalid.
    InvalidArgument,
    /// Query bytes were not valid UTF-8.
    InvalidUtf8,
    /// A required pointer was null.
    NullPointer,
    /// A Rust panic was caught at the boundary.
    Panic,
    /// The resource ABI/interface/domain is incompatible.
    IncompatibleResource,
    /// A foreign provider callback failed.
    ProviderError,
    /// A numeric representation bound was exceeded.
    LimitExceeded,
}

impl DuallityStatus {
    /// The wire code of a status: its position in declaration order.
    pub open spec fn spec_code(self) -> u32 {
        match self {
            DuallityStatus::Success => 0,
            DuallityStatus::InvalidArgument => 1,
            DuallityStatus::InvalidUtf8 => 2,
            DuallityStatus::NullPointer => 3,
            DuallityStatus::Panic => 4,
            DuallityStatus::IncompatibleResource => 5,
            DuallityStatus::ProviderError => 6,
            DuallityStatus::LimitExceeded => 7,
        }
    }

    /// The wire code of the status.
    pub fn code(&self) -> (r: u32)
        ensures
            r == self.spec_code(),
    {
        match self {
            DuallityStatus::Success => 0,
            DuallityStatus::InvalidArgument => 1,
            DuallityStatus::InvalidUtf8 => 2,
            DuallityStatus::NullPointer => 3,
            DuallityStatus::Panic => 4,
            DuallityStatus::IncompatibleResource => 5,
            DuallityStatus::ProviderError => 6,
            DuallityStatus::LimitExceeded => 7,
        }
    }
}

/// Decode a wire kind: the kind whose code is `value`, or `InvalidArgument`.
pub fn kind(value: u32) -> (r: Result<WfstKind, DuallityStatus>)
    ensures
        match r {
            Ok(k) => k.spec_code() == value,
            Err(s) => s == DuallityStatus::InvalidArgument && value > 8,
        },
{
    match value {
        0 => Ok(WfstKind::Levenshtein),
        1 => Ok(WfstKind::UniversalStandard),
        2 => Ok(WfstKind::UniversalTransposition),
        3 => Ok(WfstKind::UniversalMergeAndSplit),
        4 => Ok(WfstKind::GeneralizedStandard),
        5 => Ok(WfstKind::GeneralizedTransposition),
        6 => Ok(WfstKind::GeneralizedMergeAndSplit),
        7 => Ok(WfstKind::GeneralizedPhonetic),
        8 => Ok(WfstKind::Fzf),
        _ => Err(DuallityStatus::InvalidArgument),
    }
}

/// Kind codes are at most 8 and distinct kinds have distinct codes, so decoding
/// a kind's code gives that kind back.
pub proof fn lemma_kind_code_injective(k: WfstKind)
    ensures
        k.spec_code() <= 8,
        forall|j: WfstKind| j.spec_code() == k.spec_code() ==> j == k,
{
}

} // verus!
