//! The value of an infix expression over the integers, where nothing wraps,
//! and the expressions on which the evaluator agrees with it.
use crate::parser::arithmetic::truncated_quotient;
use crate::parser::parse_data::{
    add_symbol, multiply_symbol, subtract_symbol, EvaluationError, SymbolData, Token,
};
use crate::parser::precedence::{
    divides_by_zero, divides_by_zero_within, expression_value, infix_value, is_infix,
    is_zero_divisor, last_additive, lemma_last_additive, term_value,
};
use crate::parser::reduction::lemma_binary_result_exact;
use vstd::prelude::*;

verus! {

/// Whether `value` is a value of an `i32`.
pub open spec fn fits(value: int) -> bool {
    i32::MIN <= value <= i32::MAX
}

/// The integer `first symbol second`, for a known operator and, where it is
/// `/`, a divisor other than zero.
pub open spec fn exact_result(symbol: SymbolData, first: int, second: int) -> int {
    if symbol == add_symbol() {
        first + second
    } else if symbol == subtract_symbol() {
        first - second
    } else if symbol == multiply_symbol() {
        first * second
    } else {
        truncated_quotient(first, second)
    }
}

/// The integer value of the term `tokens[start] .. tokens[end]`.
pub open spec fn exact_term_value(tokens: Seq<Token>, start: int, end: int) -> int
    decreases end - start,
{
    if end - start < 2 {
        tokens[start]->Value_0 as int
    } else {
        exact_result(
            tokens[end - 1]->Symbol_0,
            exact_term_value(tokens, start, end - 2),
            tokens[end]->Value_0 as int,
        )
    }
}

/// The integer value of the expression `tokens[0] .. tokens[end]`.
pub open spec fn exact_expression_value(tokens: Seq<Token>, end: int) -> int
    decreases end,
    via exact_expression_value_decreases
{
    let split = last_additive(tokens, end);
    if split <= 0 {
        exact_term_value(tokens, 0, end)
    } else {
        exact_result(
            tokens[split]->Symbol_0,
            exact_expression_value(tokens, split - 1),
            exact_term_value(tokens, split + 1, end),
        )
    }
}

#[via_fn]
proof fn exact_expression_value_decreases(tokens: Seq<Token>, end: int) {
    lemma_last_additive(tokens, end);
}

/// Whether the term `tokens[start] .. tokens[end]` and each part of it that
/// is an operand has an integer value that fits.
pub open spec fn term_fits(tokens: Seq<Token>, start: int, end: int) -> bool
    decreases end - start,
{
    end - start >= 2 ==> term_fits(tokens, start, end - 2) && fits(
        exact_term_value(tokens, start, end),
    )
}

/// Whether the expression `tokens[0] .. tokens[end]` and each part of it that
/// is an operand has an integer value that fits.
pub open spec fn expression_fits(tokens: Seq<Token>, end: int) -> bool
    decreases end,
    via expression_fits_decreases
{
    let split = last_additive(tokens, end);
    if split <= 0 {
        term_fits(tokens, 0, end)
    } else {
        &&& expression_fits(tokens, split - 1)
        &&& term_fits(tokens, split + 1, end)
        &&& fits(exact_expression_value(tokens, end))
    }
}

#[via_fn]
proof fn expression_fits_decreases(tokens: Seq<Token>, end: int) {
    lemma_last_additive(tokens, end);
}

/// A term that fits and divides by no zero has its integer value.
proof fn lemma_term_value_exact(tokens: Seq<Token>, start: int, end: int)
    requires
        is_infix(tokens),
        0 <= start <= end < tokens.len(),
        start % 2 == 0,
        end % 2 == 0,
        term_fits(tokens, start, end),
        !divides_by_zero_within(tokens, start, end),
    ensures
        term_value(tokens, start, end) == Ok::<i32, EvaluationError>(
            exact_term_value(tokens, start, end) as i32,
        ),
        fits(exact_term_value(tokens, start, end)),
    decreases end - start,
{
    if end - start >= 2 {
        assert(!divides_by_zero_within(tokens, start, end - 2)) by {
            if divides_by_zero_within(tokens, start, end - 2) {
                let at = choose|at: int| start < at <= end - 2 && is_zero_divisor(tokens, at);
                assert(is_zero_divisor(tokens, at));
            }
        }
        lemma_term_value_exact(tokens, start, end - 2);
        assert(tokens[end - 1] is Symbol && tokens[end] is Value);
        assert(!is_zero_divisor(tokens, end));
        let left = exact_term_value(tokens, start, end - 2) as i32;
        lemma_binary_result_exact(tokens[end - 1]->Symbol_0, left, tokens[end]->Value_0);
    } else {
        assert(tokens[start] is Value);
    }
}

/// An expression that fits and divides by no zero has its integer value.
proof fn lemma_expression_value_exact(tokens: Seq<Token>, end: int)
    requires
        is_infix(tokens),
        0 <= end < tokens.len(),
        end % 2 == 0,
        expression_fits(tokens, end),
        !divides_by_zero_within(tokens, 0, end),
    ensures
        expression_value(tokens, end) == Ok::<i32, EvaluationError>(
            exact_expression_value(tokens, end) as i32,
        ),
        fits(exact_expression_value(tokens, end)),
    decreases end,
{
    lemma_last_additive(tokens, end);
    let split = last_additive(tokens, end);
    if split <= 0 {
        lemma_term_value_exact(tokens, 0, end);
    } else {
        assert(tokens[split] is Symbol);
        assert(!divides_by_zero_within(tokens, 0, split - 1)) by {
            if divides_by_zero_within(tokens, 0, split - 1) {
                let at = choose|at: int| 0 < at <= split - 1 && is_zero_divisor(tokens, at);
                assert(is_zero_divisor(tokens, at));
            }
        }
        assert(!divides_by_zero_within(tokens, split + 1, end)) by {
            if divides_by_zero_within(tokens, split + 1, end) {
                let at = choose|at: int| split + 1 < at <= end && is_zero_divisor(tokens, at);
                assert(is_zero_divisor(tokens, at));
            }
        }
        lemma_expression_value_exact(tokens, split - 1);
        lemma_term_value_exact(tokens, split + 1, end);
        let left = exact_expression_value(tokens, split - 1) as i32;
        let right = exact_term_value(tokens, split + 1, end) as i32;
        lemma_binary_result_exact(tokens[split]->Symbol_0, left, right);
    }
}

/// Where no operand and no result of an infix expression leaves the range of
/// `i32` and no divisor is zero, the value of the expression is the value
/// that it has over the integers.
pub proof fn lemma_infix_value_exact(tokens: Seq<Token>)
    requires
        is_infix(tokens),
        expression_fits(tokens, tokens.len() - 1),
        !divides_by_zero(tokens),
    ensures
        fits(exact_expression_value(tokens, tokens.len() - 1)),
        infix_value(tokens) == Ok::<i32, EvaluationError>(
            exact_expression_value(tokens, tokens.len() - 1) as i32,
        ),
{
    lemma_expression_value_exact(tokens, tokens.len() - 1);
}

} // verus!
