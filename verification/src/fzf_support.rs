//! Exact incremental state for fzf's `FuzzyMatchV2` score recurrence.
//!
//! The constants and recurrence follow fzf's `src/algo/algo.go`. One DP
//! column is kept per candidate prefix, so a prefix-sharing traversal of a
//! dictionary computes each shared prefix once.
use vstd::prelude::*;
use crate::text::chars_of;

verus! {

/// Score of one matched character.
pub const SCORE_MATCH: i32 = 16;
/// Penalty for opening a gap.
pub const SCORE_GAP_START: i32 = -3;
/// Penalty for extending a gap.
pub const SCORE_GAP_EXTENSION: i32 = -1;
/// Bonus after a word boundary.
pub const BONUS_BOUNDARY: i32 = 8;
/// Bonus on a non-word character.
pub const BONUS_NON_WORD: i32 = 8;
/// Bonus on a camel-case or letter-to-digit transition.
pub const BONUS_CAMEL_123: i32 = 7;
/// Minimum bonus inside a run of consecutive matches.
pub const BONUS_CONSECUTIVE: i32 = 4;
/// Stand-in score of an unreachable alternative (`i32::MIN / 4`).
pub const UNREACHABLE_SCORE: i32 = -536_870_912;
/// Multiplier of the bonus on the first query character.
pub const BONUS_FIRST_CHAR_MULTIPLIER: i32 = 2;

/// Upstream fzf scoring scheme.
#[derive(Clone, Copy, Debug, PartialEq, Eq, Hash, Structural)]
pub enum FzfScheme {
    /// General text: whitespace has the strongest boundary bonus.
    Default,
    /// File paths: slash is the only delimiter and the initial class is a delimiter.
    Path,
    /// Shell history: whitespace and delimiters receive the same bonus.
    History,
}

impl Default for FzfScheme {
    fn default() -> (r: Self)
        ensures
            r == FzfScheme::Default,
    {
        FzfScheme::Default
    }
}

/// Resource and matching configuration of the fzf scorer.
#[derive(Clone, Copy, Debug, PartialEq, Eq, Structural)]
pub struct FzfConfig {
    /// Compare Unicode scalar values without case folding.
    pub case_sensitive: bool,
    /// Upstream bonus-table scheme.
    pub scheme: FzfScheme,
    /// Number of exact scores retained before branch-and-bound can activate.
    /// Zero disables internal top-k threshold tracking.
    pub top_k: usize,
    /// Maximum accepted query length in Unicode scalar values.
    pub max_query_chars: usize,
    /// Maximum accepted candidate length in Unicode scalar values.
    pub max_candidate_chars: usize,
}

impl FzfConfig {
    /// The default configuration: case-insensitive default scheme, no top-k,
    /// at most 1000 query and 1000000 candidate characters.
    pub open spec fn spec_default() -> FzfConfig {
        FzfConfig {
            case_sensitive: false,
            scheme: FzfScheme::Default,
            top_k: 0,
            max_query_chars: 1_000,
            max_candidate_chars: 1_000_000,
        }
    }
}

impl Default for FzfConfig {
    fn default() -> (r: Self)
        ensures
            r == FzfConfig::spec_default(),
    {
        FzfConfig {
            case_sensitive: false,
            scheme: FzfScheme::Default,
            top_k: 0,
            max_query_chars: 1_000,
            max_candidate_chars: 1_000_000,
        }
    }
}

/// Invalid or resource-exhausting scorer input.
#[derive(Clone, Debug, PartialEq, Eq, Structural)]
pub enum FzfError {
    /// The configured query exceeds the caller-selected work limit.
    QueryTooLong { actual: usize, maximum: usize },
    /// The candidate exceeds the caller-selected work limit.
    CandidateTooLong { actual: usize, maximum: usize },
}

/// Character class of fzf's bonus table.
#[derive(Clone, Copy, Debug, PartialEq, Eq, Structural)]
pub enum CharClass {
    White,
    NonWord,
    Delimiter,
    Lower,
    Upper,
    Letter,
    Number,
}

/// One cell of the DP column: the best alignment of a query prefix ending here.
#[derive(Clone, Copy, Debug, PartialEq, Eq, Structural)]
pub struct Cell {
    pub score: i32,
    pub consecutive: usize,
    pub first_bonus: i32,
    pub in_gap: bool,
    pub reachable: bool,
}

/// The unreachable cell.
pub open spec fn empty_cell() -> Cell {
    Cell { score: 0, consecutive: 0, first_bonus: 0, in_gap: false, reachable: false }
}

fn new_empty_cell() -> (r: Cell)
    ensures
        r == empty_cell(),
{
    Cell { score: 0, consecutive: 0, first_bonus: 0, in_gap: false, reachable: false }
}

/// `x` clamped to the `i32` range.
pub open spec fn sat_i32(x: int) -> i32 {
    if x > i32::MAX { i32::MAX } else if x < i32::MIN { i32::MIN } else { x as i32 }
}

/// `x` clamped to the `usize` range from above.
pub open spec fn sat_usize(x: int) -> usize {
    if x > usize::MAX { usize::MAX } else { x as usize }
}

/// `a + b` saturating at the `i32` bounds.
pub fn saturating_add_i32(a: i32, b: i32) -> (r: i32)
    ensures
        r == sat_i32(a + b),
{
    let s: i64 = a as i64 + b as i64;
    if s > 0x7fff_ffffi64 {
        i32::MAX
    } else if s < -0x8000_0000i64 {
        i32::MIN
    } else {
        s as i32
    }
}

/// `a * b` saturating at the `i32` bounds.
pub fn saturating_mul_i32(a: i32, b: i32) -> (r: i32)
    ensures
        r == sat_i32(a * b),
{
    let a64: i64 = a as i64;
    let b64: i64 = b as i64;
    assert(-0x8000_0000 * 0x8000_0000 <= a64 * b64 <= 0x8000_0000 * 0x8000_0000) by (nonlinear_arith)
        requires -0x8000_0000 <= a64 <= 0x7fff_ffff, -0x8000_0000 <= b64 <= 0x7fff_ffff;
    let p: i64 = a64 * b64;
    if p > 0x7fff_ffffi64 {
        i32::MAX
    } else if p < -0x8000_0000i64 {
        i32::MIN
    } else {
        p as i32
    }
}

/// The larger of `a` and `b`.
pub open spec fn max_i32(a: i32, b: i32) -> i32 {
    if a >= b { a } else { b }
}

fn max_of(a: i32, b: i32) -> (r: i32)
    ensures
        r == max_i32(a, b),
{
    if a >= b { a } else { b }
}

/// Whether `c` is lowercase in the Unicode tables of this build of std.
pub uninterp spec fn unicode_is_lowercase(c: char) -> bool;
/// Whether `c` is uppercase in the Unicode tables of this build of std.
pub uninterp spec fn unicode_is_uppercase(c: char) -> bool;
/// Whether `c` is numeric in the Unicode tables of this build of std.
pub uninterp spec fn unicode_is_numeric(c: char) -> bool;
/// Whether `c` is alphabetic in the Unicode tables of this build of std.
pub uninterp spec fn unicode_is_alphabetic(c: char) -> bool;
/// Whether `c` is white space in the Unicode tables of this build of std.
pub uninterp spec fn unicode_is_whitespace(c: char) -> bool;
/// The first scalar of the full lowercase mapping of `c`, or `c` when the mapping is empty.
pub uninterp spec fn unicode_first_lowercase(c: char) -> char;

/// Calls `char::is_lowercase`: Unicode `Lowercase` property, a fixed table of
/// the standard library, so the result depends on `c` alone; in ASCII only
/// `a`..=`z` have it. (The other classifiers below likewise state their ASCII
/// members: digits, letters, and tab through carriage return plus space.)
#[verifier::external_body]
fn is_lowercase(c: char) -> (r: bool)
    ensures
        r == unicode_is_lowercase(c),
        (c as u32) < 128 ==> r == ('a' <= c && c <= 'z'),
{
    c.is_lowercase()
}

/// Calls `char::is_uppercase`: Unicode `Uppercase` property of `c`.
#[verifier::external_body]
fn is_uppercase(c: char) -> (r: bool)
    ensures
        r == unicode_is_uppercase(c),
        (c as u32) < 128 ==> r == ('A' <= c && c <= 'Z'),
{
    c.is_uppercase()
}

/// Calls `char::is_numeric`: Unicode general categories `Nd`, `Nl`, `No`.
#[verifier::external_body]
fn is_numeric(c: char) -> (r: bool)
    ensures
        r == unicode_is_numeric(c),
        (c as u32) < 128 ==> r == ('0' <= c && c <= '9'),
{
    c.is_numeric()
}

/// Calls `char::is_alphabetic`: Unicode `Alphabetic` property of `c`.
#[verifier::external_body]
fn is_alphabetic(c: char) -> (r: bool)
    ensures
        r == unicode_is_alphabetic(c),
        (c as u32) < 128 ==> r == (('a' <= c && c <= 'z') || ('A' <= c && c <= 'Z')),
{
    c.is_alphabetic()
}

/// Calls `char::is_whitespace`: Unicode `White_Space` property of `c`.
#[verifier::external_body]
fn is_whitespace(c: char) -> (r: bool)
    ensures
        r == unicode_is_whitespace(c),
        (c as u32) < 128 ==> r == (c == ' ' || ('\t' <= c && c <= '\r')),
{
    c.is_whitespace()
}

/// Calls `char::to_lowercase` and takes its first scalar (`c` itself when the
/// mapping yields none); the mapping is a fixed table of the standard library.
#[verifier::external_body]
fn first_lowercase(c: char) -> (r: char)
    ensures
        r == unicode_first_lowercase(c),
        (c as u32) < 128 ==> r == ascii_lowercase(c),
{
    c.to_lowercase().next().unwrap_or(c)
}

/// The ASCII lowercase of `c`: `A`..=`Z` map to `a`..=`z` (code plus 32),
/// every other scalar is returned unchanged.
fn to_ascii_lowercase(c: char) -> (r: char)
    ensures
        r == ascii_lowercase(c),
{
    if 'A' <= c && c <= 'Z' {
        let code: u8 = c as u8;
        let lower: u8 = code + 32;
        proof {
            assert(code == c as u32);
            assert((lower as char) == ((c as u32) + 32) as char);
        }
        lower as char
    } else {
        c
    }
}

/// Reads `std::path::MAIN_SEPARATOR`: `/` on Unix-like targets, `\` on Windows.
/// Which of the two it is depends on the target, so nothing more is stated.
#[verifier::external_body]
fn main_separator() -> (r: char)
    ensures
        r == '/' || r == '\\',
{
    std::path::MAIN_SEPARATOR
}

/// The ASCII lowercase of `c`; other scalars are unchanged.
pub open spec fn ascii_lowercase(c: char) -> char {
    if 'A' <= c <= 'Z' { ((c as u32) + 32) as char } else { c }
}

/// The scalar that matching compares: `c` itself when case-sensitive,
/// otherwise its ASCII lowercase or the first scalar of its lowercase mapping.
pub open spec fn spec_comparable_char(c: char, case_sensitive: bool) -> char {
    if case_sensitive {
        c
    } else if (c as u32) < 128 {
        ascii_lowercase(c)
    } else {
        unicode_first_lowercase(c)
    }
}

/// The scalar that matching compares for `c`.
pub fn comparable_char(c: char, case_sensitive: bool) -> (r: char)
    ensures
        r == spec_comparable_char(c, case_sensitive),
{
    if case_sensitive {
        c
    } else if (c as u32) < 128 {
        to_ascii_lowercase(c)
    } else {
        first_lowercase(c)
    }
}

/// Maximum positional bonus of the scheme.
pub open spec fn spec_max_bonus(scheme: FzfScheme) -> i32 {
    match scheme {
        FzfScheme::Default => 10,
        FzfScheme::Path => 9,
        FzfScheme::History => 8,
    }
}

/// The bonus of a character of class `current` after one of class `previous`.
pub open spec fn spec_bonus_for(scheme: FzfScheme, previous: CharClass, current: CharClass) -> i32 {
    if current != CharClass::White && previous == CharClass::White {
        match scheme { FzfScheme::Default => 10, _ => 8 }
    } else if current != CharClass::White && previous == CharClass::Delimiter {
        match scheme { FzfScheme::History => 8, _ => 9 }
    } else if current != CharClass::White && previous == CharClass::NonWord {
        8
    } else if (previous == CharClass::Lower && current == CharClass::Upper)
        || (previous != CharClass::Number && current == CharClass::Number) {
        7
    } else {
        match current {
            CharClass::NonWord | CharClass::Delimiter => 8,
            CharClass::White => match scheme { FzfScheme::Default => 10, _ => 8 },
            _ => 0,
        }
    }
}

/// Immutable query and bonus table shared by scorers and WFST states.
#[derive(Clone, Debug)]
pub struct FzfCore {
    query: Vec<char>,
    config: FzfConfig,
    max_bonus: i32,
    separator: char,
}

/// The mathematical content of one DP column.
pub struct FzfColumnModel {
    pub cells: Seq<Cell>,
    pub previous_class: CharClass,
    pub depth: usize,
    pub best_full_score: Option<i32>,
}

/// One immutable DP column for a candidate prefix.
#[derive(Clone, Debug)]
pub struct FzfColumn {
    cells: Vec<Cell>,
    previous_class: CharClass,
    depth: usize,
    best_full_score: Option<i32>,
}

impl View for FzfColumn {
    type V = FzfColumnModel;

    closed spec fn view(&self) -> FzfColumnModel {
        FzfColumnModel {
            cells: self.cells@,
            previous_class: self.previous_class,
            depth: self.depth,
            best_full_score: self.best_full_score,
        }
    }
}

impl FzfColumn {
    /// Best score of a complete alignment in this prefix, if any.
    pub fn best_full_score(&self) -> (r: Option<i32>)
        ensures
            r == self@.best_full_score,
    {
        self.best_full_score
    }
}

/// The next cell `index` of a column, from the previous column's cells, the
/// comparable candidate scalar and the positional bonus.
pub open spec fn spec_next_cell(query: Seq<char>, prev: Seq<Cell>, index: int, candidate: char, bonus: i32) -> Cell {
    if index == 0 {
        let p = prev[0];
        if candidate == query[0] {
            Cell {
                score: sat_i32(SCORE_MATCH + sat_i32(bonus * BONUS_FIRST_CHAR_MULTIPLIER)),
                consecutive: 1,
                first_bonus: bonus,
                in_gap: false,
                reachable: true,
            }
        } else if p.reachable {
            Cell {
                score: max_i32(sat_i32(p.score + (if p.in_gap { SCORE_GAP_EXTENSION } else { SCORE_GAP_START })), 0),
                consecutive: 0,
                first_bonus: 0,
                in_gap: true,
                reachable: true,
            }
        } else {
            empty_cell()
        }
    } else {
        let left = prev[index];
        let diagonal = prev[index - 1];
        let matched = candidate == query[index] && diagonal.reachable;
        let gap_value: i32 = if left.reachable {
            sat_i32(left.score + (if left.in_gap { SCORE_GAP_EXTENSION } else { SCORE_GAP_START }))
        } else {
            UNREACHABLE_SCORE
        };
        let run = sat_usize(diagonal.consecutive + 1);
        let run_first = if diagonal.consecutive == 0 { bonus } else { diagonal.first_bonus };
        let restart = run > 1 && bonus >= BONUS_BOUNDARY && bonus > diagonal.first_bonus;
        let consecutive: usize = if restart { 1 } else { run };
        let first_bonus: i32 = if restart { bonus } else { run_first };
        let applied: i32 = if run > 1 && !restart {
            max_i32(max_i32(bonus, BONUS_CONSECUTIVE), diagonal.first_bonus)
        } else {
            bonus
        };
        let match_value: i32 = if matched {
            sat_i32(sat_i32(diagonal.score + SCORE_MATCH) + applied)
        } else {
            UNREACHABLE_SCORE
        };
        if !left.reachable && !matched {
            empty_cell()
        } else {
            let match_wins = match_value >= gap_value;
            Cell {
                score: max_i32(max_i32(match_value, gap_value), 0),
                consecutive: if matched && match_wins { consecutive } else { 0 },
                first_bonus: if matched && match_wins { first_bonus } else { 0 },
                in_gap: match_value < gap_value,
                reachable: true,
            }
        }
    }
}

/// Best complete score after combining the previous best with this column's last cell.
pub open spec fn spec_combine_best(previous: Option<i32>, cells: Seq<Cell>) -> Option<i32> {
    let current: Option<i32> = if cells.len() > 0 && cells.last().reachable { Some(cells.last().score) } else { None };
    match (previous, current) {
        (Some(p), Some(c)) => Some(max_i32(p, c)),
        (Some(p), None) => Some(p),
        (None, c) => c,
    }
}

impl FzfCore {
    /// The comparable query scalars.
    pub closed spec fn spec_query(self) -> Seq<char> { self.query@ }

    /// The configuration the core was built with.
    pub closed spec fn spec_config(self) -> FzfConfig { self.config }

    /// The platform path separator read at construction.
    pub closed spec fn spec_separator(self) -> char { self.separator }

    /// Internal consistency of the core.
    pub closed spec fn wf(self) -> bool {
        &&& self.max_bonus == spec_max_bonus(self.config.scheme)
        &&& (self.separator == '/' || self.separator == '\\')
        &&& self.query@.len() <= self.config.max_query_chars
    }

    /// Maximum positional bonus of the core's scheme.
    pub open spec fn spec_max_bonus(self) -> i32 {
        spec_max_bonus(self.spec_config().scheme)
    }

    /// Whether `c` is a delimiter of the scheme.
    pub open spec fn spec_is_delimiter(self, c: char) -> bool {
        match self.spec_config().scheme {
            FzfScheme::Path => c == '/' || c == self.spec_separator(),
            _ => c == '/' || c == ',' || c == ':' || c == ';' || c == '|',
        }
    }

    /// Character class of `c`.
    pub open spec fn spec_classify(self, c: char) -> CharClass {
        if (c as u32) < 128 {
            if 'a' <= c && c <= 'z' {
                CharClass::Lower
            } else if 'A' <= c && c <= 'Z' {
                CharClass::Upper
            } else if '0' <= c && c <= '9' {
                CharClass::Number
            } else if c == ' ' || ('\t' <= c && c <= '\r') {
                CharClass::White
            } else if self.spec_is_delimiter(c) {
                CharClass::Delimiter
            } else {
                CharClass::NonWord
            }
        } else if unicode_is_lowercase(c) {
            CharClass::Lower
        } else if unicode_is_uppercase(c) {
            CharClass::Upper
        } else if unicode_is_numeric(c) {
            CharClass::Number
        } else if unicode_is_alphabetic(c) {
            CharClass::Letter
        } else if unicode_is_whitespace(c) || c == '\u{85}' || c == '\u{a0}' {
            CharClass::White
        } else if self.spec_is_delimiter(c) {
            CharClass::Delimiter
        } else {
            CharClass::NonWord
        }
    }

    /// Class assumed before the first candidate character.
    pub open spec fn spec_initial_class(self) -> CharClass {
        match self.spec_config().scheme {
            FzfScheme::Path => CharClass::Delimiter,
            _ => CharClass::White,
        }
    }

    /// Column of the empty candidate prefix.
    pub open spec fn spec_initial_column(self) -> FzfColumnModel {
        FzfColumnModel {
            cells: Seq::new(self.spec_query().len(), |i: int| empty_cell()),
            previous_class: self.spec_initial_class(),
            depth: 0,
            best_full_score: if self.spec_query().len() == 0 { Some(0i32) } else { None },
        }
    }

    /// Column after extending `previous` by candidate character `c`.
    pub open spec fn spec_advance(self, previous: FzfColumnModel, c: char) -> FzfColumnModel {
        let class = self.spec_classify(c);
        let bonus = spec_bonus_for(self.spec_config().scheme, previous.previous_class, class);
        let unit = spec_comparable_char(c, self.spec_config().case_sensitive);
        let cells = Seq::new(self.spec_query().len(), |i: int| spec_next_cell(self.spec_query(), previous.cells, i, unit, bonus));
        FzfColumnModel {
            cells,
            previous_class: class,
            depth: sat_usize(previous.depth + 1),
            best_full_score: spec_combine_best(previous.best_full_score, cells),
        }
    }

    /// Column after the candidate prefix `s`.
    pub open spec fn spec_column_after(self, s: Seq<char>) -> FzfColumnModel
        decreases s.len(),
    {
        if s.len() == 0 {
            self.spec_initial_column()
        } else {
            self.spec_advance(self.spec_column_after(s.drop_last()), s.last())
        }
    }

    /// The fzf score of candidate `s`: `Err` past the candidate limit,
    /// otherwise the best complete alignment score, if the query is a subsequence.
    pub open spec fn spec_score(self, s: Seq<char>) -> Result<Option<i32>, FzfError> {
        if s.len() > self.spec_config().max_candidate_chars {
            Err(FzfError::CandidateTooLong {
                actual: sat_usize(self.spec_config().max_candidate_chars + 1),
                maximum: self.spec_config().max_candidate_chars,
            })
        } else {
            Ok(self.spec_column_after(s).best_full_score)
        }
    }

    /// Maximum score any candidate can attain for this query and scheme.
    pub open spec fn spec_maximum_score(self) -> i32 {
        let len = self.spec_query().len();
        if len == 0 {
            0
        } else {
            let remaining: i32 = if len - 1 > i32::MAX { i32::MAX } else { (len - 1) as i32 };
            sat_i32(sat_i32(SCORE_MATCH + sat_i32(self.spec_max_bonus() * BONUS_FIRST_CHAR_MULTIPLIER))
                + sat_i32(remaining * sat_i32(SCORE_MATCH + self.spec_max_bonus())))
        }
    }

    /// The optimistic completion of reachable cell `index` of `cells`, when it
    /// fits in `available` further characters.
    pub open spec fn spec_cell_bound(self, cells: Seq<Cell>, index: int, available: int) -> Option<i32> {
        let remaining: int = self.spec_query().len() - (index + 1);
        if cells[index].reachable && remaining <= available {
            let r: i32 = if remaining > i32::MAX { i32::MAX } else { remaining as i32 };
            Some(sat_i32(cells[index].score + sat_i32(r * sat_i32(SCORE_MATCH + self.spec_max_bonus()))))
        } else {
            None
        }
    }

    /// The larger of two optional bounds.
    pub open spec fn max_bound(a: Option<i32>, b: Option<i32>) -> Option<i32> {
        match (a, b) {
            (Some(x), Some(y)) => Some(max_i32(x, y)),
            (Some(x), None) => Some(x),
            (None, y) => y,
        }
    }

    /// Bound folded over the first `k` cells, starting from `start`.
    pub open spec fn spec_bound_upto(self, cells: Seq<Cell>, k: int, available: int, start: Option<i32>) -> Option<i32>
        decreases k,
    {
        if k <= 0 {
            start
        } else {
            Self::max_bound(self.spec_bound_upto(cells, k - 1, available, start), self.spec_cell_bound(cells, k - 1, available))
        }
    }

    /// Capacity-sensitive upper bound for every accepted descendant of `column`:
    /// the best complete score, every reachable cell completed with maximal
    /// matches, and an alignment that has not started yet, each counted only
    /// when it still fits in the remaining candidate budget.
    pub open spec fn spec_upper_bound(self, column: FzfColumnModel) -> Option<i32> {
        let available: int = if column.depth >= self.spec_config().max_candidate_chars {
            0
        } else {
            self.spec_config().max_candidate_chars - column.depth
        };
        let cells_bound = self.spec_bound_upto(column.cells, column.cells.len() as int, available, column.best_full_score);
        if self.spec_query().len() <= available {
            Self::max_bound(cells_bound, Some(self.spec_maximum_score()))
        } else {
            cells_bound
        }
    }

    /// Build the core of query `query` under `config`.
    pub fn new(query: &str, config: FzfConfig) -> (r: Result<Self, FzfError>)
        ensures
            ({
                let q = query@.map_values(|c: char| spec_comparable_char(c, config.case_sensitive));
                match r {
                    Ok(core) => {
                        &&& q.len() <= config.max_query_chars
                        &&& core.wf()
                        &&& core.spec_query() == q
                        &&& core.spec_config() == config
                    },
                    Err(e) => {
                        &&& q.len() > config.max_query_chars
                        &&& e == FzfError::QueryTooLong { actual: q.len() as usize, maximum: config.max_query_chars }
                    },
                }
            }),
    {
        let raw: Vec<char> = chars_of(query);
        let mut comparable: Vec<char> = Vec::new();
        for i in 0..raw.len()
            invariant
                raw@ == query@,
                comparable@ == raw@.take(i as int).map_values(|c: char| spec_comparable_char(c, config.case_sensitive)),
        {
            comparable.push(comparable_char(raw[i], config.case_sensitive));
            assert(raw@.take(i + 1).drop_last() == raw@.take(i as int));
        }
        assert(raw@.take(raw@.len() as int) == raw@);
        if comparable.len() > config.max_query_chars {
            return Err(FzfError::QueryTooLong { actual: comparable.len(), maximum: config.max_query_chars });
        }
        let max_bonus: i32 = match config.scheme {
            FzfScheme::Default => BONUS_BOUNDARY + 2,
            FzfScheme::Path => BONUS_BOUNDARY + 1,
            FzfScheme::History => BONUS_BOUNDARY,
        };
        let separator: char = main_separator();
        Ok(FzfCore { query: comparable, config, max_bonus, separator })
    }

    /// The configuration.
    pub fn config(&self) -> (r: FzfConfig)
        ensures
            r == self.spec_config(),
    {
        self.config
    }

    /// The comparable query scalars.
    pub fn query(&self) -> (r: &[char])
        ensures
            r@ == self.spec_query(),
    {
        self.query.as_slice()
    }

    /// Column of the empty candidate prefix.
    pub fn initial_column(&self) -> (r: FzfColumn)
        ensures
            r@ == self.spec_initial_column(),
    {
        let mut cells: Vec<Cell> = Vec::new();
        let n: usize = self.query.len();
        for i in 0..n
            invariant
                n == self.spec_query().len(),
                cells@ == Seq::new(i as nat, |j: int| empty_cell()),
        {
            cells.push(new_empty_cell());
        }
        let best: Option<i32> = if n == 0 { Some(0) } else { None };
        let col = FzfColumn { cells, previous_class: self.initial_class(), depth: 0, best_full_score: best };
        assert(col@.cells == self.spec_initial_column().cells);
        col
    }

    fn initial_class(&self) -> (r: CharClass)
        ensures
            r == self.spec_initial_class(),
    {
        match self.config.scheme {
            FzfScheme::Path => CharClass::Delimiter,
            _ => CharClass::White,
        }
    }

    /// Whether `c` is a delimiter of the scheme.
    pub fn is_delimiter(&self, c: char) -> (r: bool)
        ensures
            r == self.spec_is_delimiter(c),
    {
        match self.config.scheme {
            FzfScheme::Path => c == '/' || c == self.separator,
            _ => c == '/' || c == ',' || c == ':' || c == ';' || c == '|',
        }
    }

    /// Character class of `c`.
    pub fn classify(&self, c: char) -> (r: CharClass)
        ensures
            r == self.spec_classify(c),
    {
        if is_lowercase(c) {
            CharClass::Lower
        } else if is_uppercase(c) {
            CharClass::Upper
        } else if is_numeric(c) {
            CharClass::Number
        } else if is_alphabetic(c) {
            CharClass::Letter
        } else if is_whitespace(c) || c == '\u{85}' || c == '\u{a0}' {
            CharClass::White
        } else if self.is_delimiter(c) {
            CharClass::Delimiter
        } else {
            CharClass::NonWord
        }
    }

    /// The bonus of a character of class `current` after one of class `previous`.
    pub fn bonus_for(&self, previous: CharClass, current: CharClass) -> (r: i32)
        ensures
            r == spec_bonus_for(self.spec_config().scheme, previous, current),
    {
        if current != CharClass::White {
            match previous {
                CharClass::White => {
                    return match self.config.scheme {
                        FzfScheme::Default => BONUS_BOUNDARY + 2,
                        _ => BONUS_BOUNDARY,
                    };
                },
                CharClass::Delimiter => {
                    return match self.config.scheme {
                        FzfScheme::History => BONUS_BOUNDARY,
                        _ => BONUS_BOUNDARY + 1,
                    };
                },
                CharClass::NonWord => {
                    return BONUS_BOUNDARY;
                },
                _ => {},
            }
        }
        if (previous == CharClass::Lower && current == CharClass::Upper)
            || (previous != CharClass::Number && current == CharClass::Number)
        {
            return BONUS_CAMEL_123;
        }
        match current {
            CharClass::NonWord | CharClass::Delimiter => BONUS_NON_WORD,
            CharClass::White => match self.config.scheme {
                FzfScheme::Default => BONUS_BOUNDARY + 2,
                _ => BONUS_BOUNDARY,
            },
            _ => 0,
        }
    }

    /// Whether candidate scalar `candidate` matches query scalar `query`.
    pub fn matches_query_unit(&self, candidate: char, query: char) -> (r: bool)
        ensures
            r == (spec_comparable_char(candidate, self.spec_config().case_sensitive)
                == spec_comparable_char(query, self.spec_config().case_sensitive)),
    {
        comparable_char(candidate, self.config.case_sensitive) == comparable_char(query, self.config.case_sensitive)
    }

    fn next_cell(&self, previous: &FzfColumn, index: usize, candidate: char, bonus: i32) -> (r: Cell)
        requires
            previous@.cells.len() == self.spec_query().len(),
            index < self.spec_query().len(),
        ensures
            r == spec_next_cell(self.spec_query(), previous@.cells, index as int, candidate, bonus),
    {
        let gap_start: i32 = SCORE_GAP_START;
        let gap_ext: i32 = SCORE_GAP_EXTENSION;
        if index == 0 {
            let p: Cell = previous.cells[0];
            if candidate == self.query[0] {
                let doubled: i32 = saturating_mul_i32(bonus, BONUS_FIRST_CHAR_MULTIPLIER);
                Cell {
                    score: saturating_add_i32(SCORE_MATCH, doubled),
                    consecutive: 1,
                    first_bonus: bonus,
                    in_gap: false,
                    reachable: true,
                }
            } else if p.reachable {
                let step: i32 = if p.in_gap { gap_ext } else { gap_start };
                Cell {
                    score: max_of(saturating_add_i32(p.score, step), 0),
                    consecutive: 0,
                    first_bonus: 0,
                    in_gap: true,
                    reachable: true,
                }
            } else {
                new_empty_cell()
            }
        } else {
            let left: Cell = previous.cells[index];
            let diagonal: Cell = previous.cells[index - 1];
            let matched: bool = candidate == self.query[index] && diagonal.reachable;
            let gap_value: i32 = if left.reachable {
                let step: i32 = if left.in_gap { gap_ext } else { gap_start };
                saturating_add_i32(left.score, step)
            } else {
                UNREACHABLE_SCORE
            };
            let run: usize = diagonal.consecutive.saturating_add(1);
            let run_first: i32 = if diagonal.consecutive == 0 { bonus } else { diagonal.first_bonus };
            let restart: bool = run > 1 && bonus >= BONUS_BOUNDARY && bonus > diagonal.first_bonus;
            let consecutive: usize = if restart { 1 } else { run };
            let first_bonus: i32 = if restart { bonus } else { run_first };
            let applied: i32 = if run > 1 && !restart {
                max_of(max_of(bonus, BONUS_CONSECUTIVE), diagonal.first_bonus)
            } else {
                bonus
            };
            let match_value: i32 = if matched {
                saturating_add_i32(saturating_add_i32(diagonal.score, SCORE_MATCH), applied)
            } else {
                UNREACHABLE_SCORE
            };
            if !left.reachable && !matched {
                new_empty_cell()
            } else {
                let match_wins: bool = match_value >= gap_value;
                Cell {
                    score: max_of(max_of(match_value, gap_value), 0),
                    consecutive: if matched && match_wins { consecutive } else { 0 },
                    first_bonus: if matched && match_wins { first_bonus } else { 0 },
                    in_gap: match_value < gap_value,
                    reachable: true,
                }
            }
        }
    }

    /// Column after extending `previous` by candidate character `candidate`.
    pub fn advance(&self, previous: &FzfColumn, candidate: char) -> (r: FzfColumn)
        requires
            previous@.cells.len() == self.spec_query().len(),
        ensures
            r@ == self.spec_advance(previous@, candidate),
            r@.cells.len() == self.spec_query().len(),
    {
        let class: CharClass = self.classify(candidate);
        let bonus: i32 = self.bonus_for(previous.previous_class, class);
        let unit: char = comparable_char(candidate, self.config.case_sensitive);
        let n: usize = self.query.len();
        let mut cells: Vec<Cell> = Vec::new();
        for i in 0..n
            invariant
                n == self.spec_query().len(),
                previous@.cells.len() == self.spec_query().len(),
                cells@ == Seq::new(i as nat, |j: int| spec_next_cell(self.spec_query(), previous@.cells, j, unit, bonus)),
        {
            let cell: Cell = self.next_cell(previous, i, unit, bonus);
            cells.push(cell);
        }
        let ghost spec_cells = Seq::new(n as nat, |j: int| spec_next_cell(self.spec_query(), previous@.cells, j, unit, bonus));
        assert(cells@ == spec_cells);
        let current: Option<i32> = if n > 0 && cells[n - 1].reachable { Some(cells[n - 1].score) } else { None };
        let best: Option<i32> = match (previous.best_full_score, current) {
            (Some(p), Some(c)) => Some(max_of(p, c)),
            (Some(p), None) => Some(p),
            (None, c) => c,
        };
        FzfColumn {
            cells,
            previous_class: class,
            depth: previous.depth.saturating_add(1),
            best_full_score: best,
        }
    }

    /// The fzf score of `candidate`, or `CandidateTooLong` past the candidate limit.
    pub fn score_chars(&self, candidate: &[char]) -> (r: Result<Option<i32>, FzfError>)
        ensures
            r == self.spec_score(candidate@),
    {
        let mut column: FzfColumn = self.initial_column();
        let n: usize = candidate.len();
        for i in 0..n
            invariant
                n == candidate@.len(),
                i <= self.spec_config().max_candidate_chars ==> column@ == self.spec_column_after(candidate@.take(i as int)),
                column@.cells.len() == self.spec_query().len(),
                column@.depth == i,
                i <= self.spec_config().max_candidate_chars,
        {
            if column.depth >= self.config.max_candidate_chars {
                return Err(FzfError::CandidateTooLong {
                    actual: column.depth.saturating_add(1),
                    maximum: self.config.max_candidate_chars,
                });
            }
            column = self.advance(&column, candidate[i]);
            assert(candidate@.take(i + 1).drop_last() == candidate@.take(i as int));
        }
        assert(candidate@.take(n as int) == candidate@);
        Ok(column.best_full_score)
    }
    /// Maximum score any candidate can attain for this query and scheme.
    pub fn maximum_score(&self) -> (r: i32)
        requires
            self.wf(),
        ensures
            r == self.spec_maximum_score(),
    {
        let len: usize = self.query.len();
        if len == 0 {
            return 0;
        }
        let remaining: i32 = if len - 1 > 0x7fff_ffffusize { i32::MAX } else { (len - 1) as i32 };
        let first: i32 = saturating_add_i32(SCORE_MATCH, saturating_mul_i32(self.max_bonus, BONUS_FIRST_CHAR_MULTIPLIER));
        let per_match: i32 = saturating_add_i32(SCORE_MATCH, self.max_bonus);
        saturating_add_i32(first, saturating_mul_i32(remaining, per_match))
    }

    /// Capacity-sensitive upper bound for every accepted descendant of `column`.
    /// `None` means that no completion fits inside the candidate limit.
    pub fn upper_bound(&self, column: &FzfColumn) -> (r: Option<i32>)
        requires
            self.wf(),
            column@.cells.len() == self.spec_query().len(),
        ensures
            r == self.spec_upper_bound(column@),
    {
        let available: usize = self.config.max_candidate_chars.saturating_sub(column.depth);
        let per_match: i32 = saturating_add_i32(SCORE_MATCH, self.max_bonus);
        let n: usize = self.query.len();
        let mut bound: Option<i32> = column.best_full_score;
        for index in 0..n
            invariant
                n == self.spec_query().len(),
                column@.cells.len() == n,
                per_match == sat_i32(SCORE_MATCH + self.spec_max_bonus()),
                self.wf(),
                available == (if column@.depth >= self.spec_config().max_candidate_chars { 0 } else {
                    self.spec_config().max_candidate_chars - column@.depth }),
                bound == self.spec_bound_upto(column@.cells, index as int, available as int, column@.best_full_score),
        {
            let cell: Cell = column.cells[index];
            let remaining: usize = n - (index + 1);
            if cell.reachable && remaining <= available {
                let r: i32 = if remaining > 0x7fff_ffffusize { i32::MAX } else { remaining as i32 };
                let optimistic: i32 = saturating_add_i32(cell.score, saturating_mul_i32(r, per_match));
                bound = match bound {
                    Some(current) => Some(max_of(current, optimistic)),
                    None => Some(optimistic),
                };
            }
        }
        if n <= available {
            let unstarted: i32 = self.maximum_score();
            bound = match bound {
                Some(current) => Some(max_of(current, unstarted)),
                None => Some(unstarted),
            };
        }
        bound
    }
}

/// Case folding of matching: case-sensitive matching compares scalars as
/// they are; case-insensitive matching compares every scalar past ASCII by
/// the first scalar of its Unicode lowercase mapping, each of `A`..=`Z` as
/// its small letter (so a capital and its small letter compare equal), and
/// every other ASCII scalar as it is.
pub proof fn lemma_case_folding(c: char)
    ensures
        spec_comparable_char(c, true) == c,
        (c as u32) >= 128 ==> spec_comparable_char(c, false) == unicode_first_lowercase(c),
        'A' <= c <= 'Z' ==> {
            &&& spec_comparable_char(c, false) == ((c as u32) + 32) as char
            &&& spec_comparable_char(((c as u32) + 32) as char, false) == ((c as u32) + 32) as char
        },
        (c as u32) < 128 && !('A' <= c <= 'Z') ==> spec_comparable_char(c, false) == c,
{
    if 'A' <= c <= 'Z' {
        let lower = ((c as u32) + 32) as char;
        assert(('a' as u32) <= (lower as u32) <= ('z' as u32));
        assert((lower as u32) < 128);
        assert(!('A' <= lower <= 'Z'));
    }
}

} // verus!
