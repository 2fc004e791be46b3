use vstd::prelude::*;

verus! {

/// What the scanner does with a pattern once it has matched: emit a bare
/// token, emit a token carrying the matched text, discard the match, or
/// switch comment handling on or off. Exactly one pattern should carry
/// `EndBlockComment` whenever one carries `InitBlockComment`.
#[derive(Clone, Copy, PartialEq, Eq, Structural, Debug)]
pub enum TokenUses {
    Default,
    GetLexeme,
    IgnoreThis,
    InitBlockComment,
    EndBlockComment,
    InitInlineComment,
}

/// A token produced by the scanner: its terminal symbol, and, for patterns
/// marked `GetLexeme`, the bytes of the matched lexeme.
#[derive(Clone, PartialEq, Eq, Debug)]
pub struct Token<T> {
    pub t_type: T,
    pub t_name: Option<Vec<u8>>,
}

} // verus!
