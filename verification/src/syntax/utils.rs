use vstd::prelude::*;

verus! {

/// Classification of grammar symbols. Terminals are the symbols the scanner
/// produces; every other symbol is a nonterminal that grammar rules may
/// derive. The engine also needs a decidable equality on symbols, so the
/// trait carries one whose result is the logical equality of the values.
pub trait IsTerminal: Sized + Copy {
    /// The classification of this symbol, as seen by contracts.
    spec fn spec_is_terminal(self) -> bool;

    /// Decides whether this symbol is a terminal.
    fn is_terminal(self) -> (r: bool)
        ensures
            r == self.spec_is_terminal(),
    ;

    /// Decides equality of two symbols.
    fn sym_eq(self, other: Self) -> (r: bool)
        ensures
            r == (self == other),
    ;
}

/// A ready-made grammar symbol: an identifier plus its classification.
/// Grammars whose symbols are not already a type of their own can number
/// their terminals and nonterminals and use this.
#[derive(Clone, Copy, PartialEq, Eq, Structural, Debug, Hash)]
pub struct Symbol {
    pub id: u32,
    pub terminal: bool,
}

impl IsTerminal for Symbol {
    open spec fn spec_is_terminal(self) -> bool {
        self.terminal
    }

    fn is_terminal(self) -> (r: bool)
        ensures
            r == self.spec_is_terminal(),
    {
        self.terminal
    }

    fn sym_eq(self, other: Self) -> (r: bool)
        ensures
            r == (self == other),
    {
        self.id == other.id && self.terminal == other.terminal
    }
}

} // verus!
