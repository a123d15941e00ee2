//! Grammar-directed test-case generation and mutation for coverage-guided
//! fuzzing: derivation trees over a context-free grammar, a deduplicating
//! chunk store of harvested subtrees, and the harvesting hook that feeds it.
use vstd::prelude::*;

pub mod chunkstore;
pub mod feedback;
pub mod grammar;
pub mod tree;

verus! {

/// A malformed grammar, detected at load time: the campaign must not start.
#[derive(Clone, Copy, Debug, PartialEq, Eq, Structural)]
pub enum GrammarError {
    /// The grammar has no symbols at all.
    Empty,
    /// A rule belongs to, or a slot refers to, a symbol id outside the table.
    SymbolOutOfRange,
    /// A nonterminal owns no rule, so no tree can instantiate it.
    RulelessSymbol,
    /// A nonterminal cannot derive any tree within the supported size
    /// bound (unbounded or impractically deep recursion).
    UnproductiveSymbol,
}

/// An attempted splice between incompatible tree nodes: the mutation layer's
/// contract was violated; the tree is left untouched.
#[derive(Clone, Copy, Debug, PartialEq, Eq, Structural)]
pub struct SymbolMismatchError;

/// A failure to persist or decode a chunk-store snapshot. Recoverable: a
/// failed restore degrades to an empty store rather than aborting the
/// campaign, and a failed persist is reported for retry without losing the
/// in-memory store.
#[derive(Clone, Copy, Debug, PartialEq, Eq, Structural)]
pub struct StorageError;

} // verus!
