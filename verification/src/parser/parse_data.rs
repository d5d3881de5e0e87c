//! The data that flows between the tokenizer and the evaluator.
use vstd::prelude::*;

verus! {

/// Describes an operator: the character that stands for it and its rank.
/// An operator of higher rank binds tighter.  Two descriptors are the same
/// operator exactly when both fields agree.
#[derive(PartialEq, Eq, Clone, Copy, Debug, Structural)]
pub struct SymbolData {
    pub representation: char,
    pub precedence: u8,
}

/// Why a text could not be turned into tokens.
#[derive(PartialEq, Eq, Clone, Copy, Debug, Structural)]
pub enum TokenizationError {
    /// The text is empty or its last character is an operator.
    EndOnInfixSymbol,
    /// The text holds a character that is neither a digit nor an operator.
    BadToken { token: char },
}

/// One lexical unit of an expression.
#[derive(PartialEq, Eq, Clone, Copy, Debug, Structural)]
pub enum Token {
    /// A literal operand.
    Value(i32),
    /// An operator.
    Symbol(SymbolData),
}

/// Why a token sequence could not be reduced to one value.
#[derive(PartialEq, Eq, Clone, Copy, Debug, Structural)]
pub enum EvaluationError {
    /// The right operand of a division is zero.
    DivideByZero,
    /// An operator found fewer than two operands, or there is no value at all.
    SymbolValueMismatch,
    /// The descriptor is none of the four known operators.
    UnknownSymbol(SymbolData),
    /// Every operator has been applied and more than one value is left over.
    TrailingSymbolsOrValues { leftover_symbols: usize, leftover_values: usize },
}

/// The descriptor of `*`, as contracts name it.
pub open spec fn spec_multiply_symbol() -> SymbolData {
    SymbolData { representation: '*', precedence: 2 }
}

/// The descriptor of `/`, as contracts name it.
pub open spec fn spec_divide_symbol() -> SymbolData {
    SymbolData { representation: '/', precedence: 2 }
}

/// The descriptor of `+`, as contracts name it.
pub open spec fn spec_add_symbol() -> SymbolData {
    SymbolData { representation: '+', precedence: 1 }
}

/// The descriptor of `-`, as contracts name it.
pub open spec fn spec_subtract_symbol() -> SymbolData {
    SymbolData { representation: '-', precedence: 1 }
}

/// The descriptor of `*`.
#[verifier::when_used_as_spec(spec_multiply_symbol)]
pub fn multiply_symbol() -> (symbol: SymbolData)
    ensures
        symbol == spec_multiply_symbol(),
{
    SymbolData { representation: '*', precedence: 2 }
}

/// The descriptor of `/`.
#[verifier::when_used_as_spec(spec_divide_symbol)]
pub fn divide_symbol() -> (symbol: SymbolData)
    ensures
        symbol == spec_divide_symbol(),
{
    SymbolData { representation: '/', precedence: 2 }
}

/// The descriptor of `+`.
#[verifier::when_used_as_spec(spec_add_symbol)]
pub fn add_symbol() -> (symbol: SymbolData)
    ensures
        symbol == spec_add_symbol(),
{
    SymbolData { representation: '+', precedence: 1 }
}

/// The descriptor of `-`.
#[verifier::when_used_as_spec(spec_subtract_symbol)]
pub fn subtract_symbol() -> (symbol: SymbolData)
    ensures
        symbol == spec_subtract_symbol(),
{
    SymbolData { representation: '-', precedence: 1 }
}

/// Whether `symbol` is one of the four operators that can be applied.
pub open spec fn is_known_symbol(symbol: SymbolData) -> bool {
    symbol == add_symbol() || symbol == subtract_symbol() || symbol == multiply_symbol()
        || symbol == divide_symbol()
}

} // verus!
