//! The two stacks of the evaluator and what each token does to them.
//!
//! The evaluator accepts any sequence of tokens, also one that no text gives.
//! What it returns is defined here, by the values and operators that it holds
//! after each token.
use crate::parser::arithmetic::{
    lemma_truncated_quotient_bounds, lemma_wrap, truncated_quotient, wrap,
};
use crate::parser::parse_data::{
    add_symbol, divide_symbol, multiply_symbol, subtract_symbol, EvaluationError, SymbolData,
    Token,
};
use vstd::prelude::*;

verus! {

/// The operands that wait for an operator and the operators that wait for
/// their right operand.  The top of each stack is its last element.
pub struct Stacks {
    pub values: Seq<i32>,
    pub symbols: Seq<SymbolData>,
}

/// The descriptors that a stack of borrowed descriptors refers to.
pub open spec fn descriptors(symbols: Seq<&SymbolData>) -> Seq<SymbolData> {
    symbols.map_values(|symbol: &SymbolData| *symbol)
}

/// The model of the two stacks of a running evaluation.
pub open spec fn stacks_of(values: Seq<i32>, symbols: Seq<&SymbolData>) -> Stacks {
    Stacks { values, symbols: descriptors(symbols) }
}

/// The stacks before the first token.
pub open spec fn empty_stacks() -> Stacks {
    Stacks { values: Seq::empty(), symbols: Seq::empty() }
}

/// The value of `first symbol second`.
pub open spec fn binary_result(symbol: SymbolData, first: i32, second: i32) -> Result<
    i32,
    EvaluationError,
> {
    if symbol == add_symbol() {
        Ok(wrap(first + second))
    } else if symbol == subtract_symbol() {
        Ok(wrap(first - second))
    } else if symbol == multiply_symbol() {
        Ok(wrap(first * second))
    } else if symbol == divide_symbol() {
        if second == 0 {
            Err(EvaluationError::DivideByZero)
        } else {
            Ok(wrap(truncated_quotient(first as int, second as int)))
        }
    } else {
        Err(EvaluationError::UnknownSymbol(symbol))
    }
}

/// The value of the top operator on the two top values, the upper of them
/// being the right operand.
pub open spec fn top_result(stacks: Stacks) -> Result<i32, EvaluationError>
    recommends
        stacks.symbols.len() > 0,
{
    let height = stacks.values.len() as int;
    if height < 2 {
        Err(EvaluationError::SymbolValueMismatch)
    } else {
        binary_result(stacks.symbols.last(), stacks.values[height - 2], stacks.values[height - 1])
    }
}

/// The stacks once the top operator has been tried.
///
/// With two operands there, they and the operator are gone, and the result,
/// if there is one, is the top value.  With fewer, no value is left and the
/// operator stays.
pub open spec fn stacks_after_apply(stacks: Stacks) -> Stacks
    recommends
        stacks.symbols.len() > 0,
{
    let height = stacks.values.len() as int;
    if height < 2 {
        Stacks { values: Seq::empty(), symbols: stacks.symbols }
    } else {
        let below = stacks.values.take(height - 2);
        Stacks {
            values: match top_result(stacks) {
                Ok(value) => below.push(value),
                Err(_) => below,
            },
            symbols: stacks.symbols.drop_last(),
        }
    }
}

/// Applies the top operator.
pub open spec fn apply_top(stacks: Stacks) -> Result<Stacks, EvaluationError>
    recommends
        stacks.symbols.len() > 0,
{
    match top_result(stacks) {
        Ok(_) => Ok(stacks_after_apply(stacks)),
        Err(error) => Err(error),
    }
}

/// Applies operators from the top for as long as the top one has at least
/// the rank `precedence`.
pub open spec fn reduce_to(stacks: Stacks, precedence: u8) -> Result<Stacks, EvaluationError>
    decreases stacks.symbols.len(),
{
    if stacks.symbols.len() > 0 && stacks.symbols.last().precedence >= precedence {
        match apply_top(stacks) {
            Ok(next) => reduce_to(next, precedence),
            Err(error) => Err(error),
        }
    } else {
        Ok(stacks)
    }
}

/// What one token does: a value is pushed; an operator first has the stacked
/// operators of its own or a higher rank applied and is then pushed.
pub open spec fn after_token(stacks: Stacks, token: Token) -> Result<Stacks, EvaluationError> {
    match token {
        Token::Value(value) => Ok(Stacks { values: stacks.values.push(value), ..stacks }),
        Token::Symbol(symbol) => match reduce_to(stacks, symbol.precedence) {
            Ok(reduced) => Ok(Stacks { symbols: reduced.symbols.push(symbol), ..reduced }),
            Err(error) => Err(error),
        },
    }
}

/// The stacks after the first `count` tokens, starting with empty stacks.
pub open spec fn after_tokens(tokens: Seq<Token>, count: nat) -> Result<Stacks, EvaluationError>
    recommends
        count <= tokens.len(),
    decreases count,
{
    if count == 0 {
        Ok(empty_stacks())
    } else {
        match after_tokens(tokens, (count - 1) as nat) {
            Ok(stacks) => after_token(stacks, tokens[count - 1]),
            Err(error) => Err(error),
        }
    }
}

/// What is returned once every operator has been applied.
///
/// The top value is taken off.  If a value or an operator is left then, the
/// result is the error that counts them.  Otherwise it is the value taken, or
/// a mismatch if there was none.
pub open spec fn final_result(stacks: Stacks) -> Result<i32, EvaluationError> {
    let below = if stacks.values.len() > 0 {
        stacks.values.drop_last()
    } else {
        stacks.values
    };
    if below.len() > 0 || stacks.symbols.len() > 0 {
        Err(
            EvaluationError::TrailingSymbolsOrValues {
                leftover_symbols: stacks.symbols.len() as usize,
                leftover_values: below.len() as usize,
            },
        )
    } else if stacks.values.len() > 0 {
        Ok(stacks.values.last())
    } else {
        Err(EvaluationError::SymbolValueMismatch)
    }
}

/// The result of evaluating `tokens`: the first error met while the tokens
/// are taken in order and the remaining operators are applied, or else what
/// is left at the end.
pub open spec fn evaluate_spec(tokens: Seq<Token>) -> Result<i32, EvaluationError> {
    match after_tokens(tokens, tokens.len()) {
        Ok(stacks) => match reduce_to(stacks, 0) {
            Ok(reduced) => final_result(reduced),
            Err(error) => Err(error),
        },
        Err(error) => Err(error),
    }
}

/// Where the exact result of a known operator lies in the range of `i32`,
/// it is the result: the sum, the difference, the product, or the quotient
/// rounded toward zero.  Of the quotients only that of `i32::MIN` by `-1`
/// lies outside.
pub proof fn lemma_binary_result_exact(symbol: SymbolData, first: i32, second: i32)
    ensures
        symbol == add_symbol() && i32::MIN <= first + second <= i32::MAX ==> binary_result(
            symbol,
            first,
            second,
        ) == Ok::<i32, EvaluationError>((first + second) as i32),
        symbol == subtract_symbol() && i32::MIN <= first - second <= i32::MAX ==> binary_result(
            symbol,
            first,
            second,
        ) == Ok::<i32, EvaluationError>((first - second) as i32),
        symbol == multiply_symbol() && i32::MIN <= first * second <= i32::MAX ==> binary_result(
            symbol,
            first,
            second,
        ) == Ok::<i32, EvaluationError>((first * second) as i32),
        symbol == divide_symbol() && second != 0 && !(first == i32::MIN && second == -1)
            ==> binary_result(symbol, first, second) == Ok::<i32, EvaluationError>(
            truncated_quotient(first as int, second as int) as i32,
        ),
{
    lemma_wrap(first + second);
    lemma_wrap(first - second);
    lemma_wrap(first * second);
    if second != 0 {
        lemma_truncated_quotient_bounds(first as int, second as int);
        lemma_wrap(truncated_quotient(first as int, second as int));
    }
}

/// The model of a stack of borrowed descriptors has the height of the stack,
/// the same top, and the same rest below the top.
pub proof fn lemma_descriptors(symbols: Seq<&SymbolData>)
    ensures
        descriptors(symbols).len() == symbols.len(),
        symbols.len() > 0 ==> descriptors(symbols.drop_last()) == descriptors(symbols).drop_last()
            && descriptors(symbols).last() == *symbols.last(),
{
}

/// The model of a stack of borrowed descriptors follows a push.
pub proof fn lemma_descriptors_push(symbols: Seq<&SymbolData>, symbol: &SymbolData)
    ensures
        descriptors(symbols.push(symbol)) == descriptors(symbols).push(*symbol),
{
}

/// An error met on the way is the result of the evaluation.
pub proof fn lemma_error_is_final(tokens: Seq<Token>, count: nat, error: EvaluationError)
    requires
        count <= tokens.len(),
        after_tokens(tokens, count) == Err::<Stacks, EvaluationError>(error),
    ensures
        evaluate_spec(tokens) == Err::<i32, EvaluationError>(error),
    decreases tokens.len() - count,
{
    if count < tokens.len() {
        lemma_error_is_final(tokens, count + 1, error);
    }
}

/// Whether each operator of the stack has a higher rank than those below it.
pub open spec fn ranks_increase(symbols: Seq<SymbolData>) -> bool {
    forall|lower: int, upper: int|
        0 <= lower < upper < symbols.len() ==> symbols[lower].precedence
            < symbols[upper].precedence
}

/// Reducing takes operators off the top, leaves none of the rank asked for,
/// or a higher one, on top, and adds no value.  Where it fails, the error is
/// that of an operator.
pub proof fn lemma_reduce_to_takes_from_top(stacks: Stacks, precedence: u8)
    ensures
        match reduce_to(stacks, precedence) {
            Ok(reduced) => {
                &&& reduced.symbols.len() <= stacks.symbols.len()
                &&& reduced.symbols == stacks.symbols.take(reduced.symbols.len() as int)
                &&& reduced.symbols.len() > 0 ==> reduced.symbols.last().precedence < precedence
                &&& reduced.values.len() <= stacks.values.len()
            },
            Err(error) => !(error is TrailingSymbolsOrValues),
        },
    decreases stacks.symbols.len(),
{
    if stacks.symbols.len() > 0 && stacks.symbols.last().precedence >= precedence {
        if let Ok(next) = apply_top(stacks) {
            lemma_reduce_to_takes_from_top(next, precedence);
            if let Ok(reduced) = reduce_to(next, precedence) {
            }
        }
    } else {
    }
}

/// After every token the ranks of the stacked operators increase from the
/// bottom to the top.
pub proof fn lemma_ranks_increase(tokens: Seq<Token>, count: nat)
    requires
        count <= tokens.len(),
    ensures
        match after_tokens(tokens, count) {
            Ok(stacks) => ranks_increase(stacks.symbols),
            Err(_) => true,
        },
    decreases count,
{
    if count > 0 {
        lemma_ranks_increase(tokens, (count - 1) as nat);
        if let Ok(stacks) = after_tokens(tokens, (count - 1) as nat) {
            if let Token::Symbol(symbol) = tokens[count - 1] {
                lemma_reduce_to_takes_from_top(stacks, symbol.precedence);
            }
        }
    }
}

/// The stacks hold no more than one entry for each token taken, and an error
/// met on the way is that of an operator.
pub proof fn lemma_stack_heights(tokens: Seq<Token>, count: nat)
    requires
        count <= tokens.len(),
    ensures
        match after_tokens(tokens, count) {
            Ok(stacks) => stacks.values.len() + stacks.symbols.len() <= count,
            Err(error) => !(error is TrailingSymbolsOrValues),
        },
    decreases count,
{
    if count > 0 {
        lemma_stack_heights(tokens, (count - 1) as nat);
        if let Ok(stacks) = after_tokens(tokens, (count - 1) as nat) {
            if let Token::Symbol(symbol) = tokens[count - 1] {
                lemma_reduce_to_takes_from_top(stacks, symbol.precedence);
            }
        }
    }
}

/// An evaluation never ends with an operator left over: the error that
/// counts what is left counts at least one value and no operator.
pub proof fn lemma_leftover_counts(tokens: Seq<Token>)
    requires
        tokens.len() <= usize::MAX,
    ensures
        match evaluate_spec(tokens) {
            Err(EvaluationError::TrailingSymbolsOrValues { leftover_symbols, leftover_values }) => {
                leftover_symbols == 0 && 1 <= leftover_values < tokens.len()
            },
            _ => true,
        },
{
    lemma_stack_heights(tokens, tokens.len());
    if let Ok(stacks) = after_tokens(tokens, tokens.len()) {
        lemma_reduce_to_takes_from_top(stacks, 0);
    }
}

} // verus!
