//! The parts of a prepared grammar that rendering reads.
use vstd::prelude::*;

use crate::rules::{Alias, Symbol};

verus! {

/// How a variable shows up in a syntax tree.
#[derive(Clone, Copy, Debug, PartialEq, Eq, Structural)]
pub enum VariableType {
    Hidden,
    Auxiliary,
    Anonymous,
    Named,
}

/// A variable of the lexical grammar: a token.
pub struct LexicalVariable {
    pub name: String,
    pub kind: VariableType,
}

/// The tokens of a grammar.
pub struct LexicalGrammar {
    pub variables: Vec<LexicalVariable>,
}

/// One step of a production.
pub struct ProductionStep {
    pub symbol: Symbol,
    pub alias: Option<Alias>,
}

/// One way to make up a variable.
pub struct Production {
    pub steps: Vec<ProductionStep>,
}

/// A variable of the syntax grammar: a rule.
pub struct SyntaxVariable {
    pub name: String,
    pub kind: VariableType,
    pub productions: Vec<Production>,
}

/// A token that the grammar's own tokenizer recognizes.
pub struct ExternalToken {
    pub name: String,
    pub kind: VariableType,
    pub corresponding_internal_token: Option<Symbol>,
}

/// The rules of a grammar.
pub struct SyntaxGrammar {
    pub variables: Vec<SyntaxVariable>,
    pub external_tokens: Vec<ExternalToken>,
    pub supertype_symbols: Vec<Symbol>,
    pub word_token: Option<Symbol>,
}

} // verus!
