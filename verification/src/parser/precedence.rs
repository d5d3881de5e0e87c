//! The value of an infix expression by the rules of arithmetic, and the proof
//! that the evaluator computes it.
//!
//! An infix expression reads value, operator, value, ..., value.  It is a sum
//! of terms, grouped from the left; a term is a chain of `*` and `/` over
//! values, grouped from the left as well.
use crate::parser::parse_data::{
    add_symbol, divide_symbol, is_known_symbol, subtract_symbol, EvaluationError, SymbolData,
    Token,
};
use crate::parser::reduction::{
    after_token, after_tokens, apply_top, binary_result, empty_stacks, evaluate_spec, reduce_to,
    Stacks,
};
use vstd::prelude::*;

verus! {

/// Whether `tokens` reads value, operator, value, operator and so on, each
/// operator being one of the four known ones.
pub open spec fn alternates(tokens: Seq<Token>) -> bool {
    forall|at: int|
        0 <= at < tokens.len() ==> match #[trigger] tokens[at] {
            Token::Value(_) => at % 2 == 0,
            Token::Symbol(symbol) => at % 2 == 1 && is_known_symbol(symbol),
        }
}

/// Whether `tokens` is an infix expression: it alternates and ends with a
/// value.
pub open spec fn is_infix(tokens: Seq<Token>) -> bool {
    tokens.len() % 2 == 1 && alternates(tokens)
}

/// Whether `token` is `+` or `-`.
pub open spec fn is_additive(token: Token) -> bool {
    token == Token::Symbol(add_symbol()) || token == Token::Symbol(subtract_symbol())
}

/// The value of the term `tokens[start] .. tokens[end]`, a chain of `*` and
/// `/`: what is left of its last operator is its left operand.
pub open spec fn term_value(tokens: Seq<Token>, start: int, end: int) -> Result<
    i32,
    EvaluationError,
>
    decreases end - start,
{
    if end - start < 2 {
        Ok(tokens[start]->Value_0)
    } else {
        match term_value(tokens, start, end - 2) {
            Ok(left) => binary_result(tokens[end - 1]->Symbol_0, left, tokens[end]->Value_0),
            Err(error) => Err(error),
        }
    }
}

/// The position of the last `+` or `-` before `end`, or `-1` if there is none.
pub open spec fn last_additive(tokens: Seq<Token>, end: int) -> int
    decreases end,
{
    if end <= 0 {
        -1
    } else if is_additive(tokens[end - 1]) {
        end - 1
    } else {
        last_additive(tokens, end - 1)
    }
}

/// The value of the expression `tokens[0] .. tokens[end]`.
///
/// Without `+` or `-` it is a term.  Otherwise the last `+` or `-` has the
/// expression before it as its left operand and the term after it as its
/// right operand.
pub open spec fn expression_value(tokens: Seq<Token>, end: int) -> Result<i32, EvaluationError>
    decreases end,
    via expression_value_decreases
{
    let split = last_additive(tokens, end);
    if split <= 0 {
        term_value(tokens, 0, end)
    } else {
        match expression_value(tokens, split - 1) {
            Ok(left) => match term_value(tokens, split + 1, end) {
                Ok(right) => binary_result(tokens[split]->Symbol_0, left, right),
                Err(error) => Err(error),
            },
            Err(error) => Err(error),
        }
    }
}

#[via_fn]
proof fn expression_value_decreases(tokens: Seq<Token>, end: int) {
    lemma_last_additive(tokens, end);
}

/// The value of an infix expression.
pub open spec fn infix_value(tokens: Seq<Token>) -> Result<i32, EvaluationError>
    recommends
        is_infix(tokens),
{
    expression_value(tokens, tokens.len() - 1)
}

/// `last_additive` finds a `+` or `-` before `end` that no other follows
/// before `end`, or finds none because there is none.
pub proof fn lemma_last_additive(tokens: Seq<Token>, end: int)
    ensures
        -1 <= last_additive(tokens, end),
        last_additive(tokens, end) < end || end <= 0,
        last_additive(tokens, end) >= 0 ==> is_additive(tokens[last_additive(tokens, end)]),
        forall|at: int|
            last_additive(tokens, end) < at < end && 0 <= at ==> !is_additive(
                #[trigger] tokens[at],
            ),
    decreases end,
{
    if end > 0 && !is_additive(tokens[end - 1]) {
        lemma_last_additive(tokens, end - 1);
    }
}

/// The stacks with the operand `value` pushed.
spec fn with_operand(stacks: Stacks, value: i32) -> Stacks {
    Stacks { values: stacks.values.push(value), symbols: stacks.symbols }
}

/// The stacks with the operator `symbol` pushed.
spec fn with_operator(stacks: Stacks, symbol: SymbolData) -> Stacks {
    Stacks { values: stacks.values, symbols: stacks.symbols.push(symbol) }
}

/// Where the term starts that follows the split.
spec fn term_start(split: int) -> int {
    if split <= 0 {
        0
    } else {
        split + 1
    }
}

/// What the evaluator holds of `tokens[0] .. tokens[end]` below the last
/// term: nothing without `+` or `-`, else the value of what precedes the last
/// of them, and that operator.
spec fn stacks_below_term(tokens: Seq<Token>, end: int) -> Result<Stacks, EvaluationError> {
    let split = last_additive(tokens, end);
    if split <= 0 {
        Ok(empty_stacks())
    } else {
        match expression_value(tokens, split - 1) {
            Ok(left) => Ok(
                with_operator(with_operand(empty_stacks(), left), tokens[split]->Symbol_0),
            ),
            Err(error) => Err(error),
        }
    }
}

/// What the evaluator holds after `tokens[0] .. tokens[end]`, `end` being the
/// place of a value: on top of what lies below the last term, that term with
/// its last operator still waiting.
spec fn waiting_stacks(tokens: Seq<Token>, end: int) -> Result<Stacks, EvaluationError> {
    let start = term_start(last_additive(tokens, end));
    match stacks_below_term(tokens, end) {
        Ok(below) => if end - start < 2 {
            Ok(with_operand(below, tokens[end]->Value_0))
        } else {
            match term_value(tokens, start, end - 2) {
                Ok(product) => Ok(
                    with_operand(
                        with_operator(with_operand(below, product), tokens[end - 1]->Symbol_0),
                        tokens[end]->Value_0,
                    ),
                ),
                Err(error) => Err(error),
            }
        },
        Err(error) => Err(error),
    }
}

/// What the waiting stacks become when the operators of the last term have
/// been applied: the term's value lies on top of what was below.
spec fn stacks_with_term(tokens: Seq<Token>, end: int) -> Result<Stacks, EvaluationError> {
    let start = term_start(last_additive(tokens, end));
    match stacks_below_term(tokens, end) {
        Ok(below) => match term_value(tokens, start, end) {
            Ok(product) => Ok(with_operand(below, product)),
            Err(error) => Err(error),
        },
        Err(error) => Err(error),
    }
}

/// What the waiting stacks become when every operator has been applied: the
/// value of the expression alone.
spec fn stacks_with_value(tokens: Seq<Token>, end: int) -> Result<Stacks, EvaluationError> {
    match expression_value(tokens, end) {
        Ok(value) => Ok(with_operand(empty_stacks(), value)),
        Err(error) => Err(error),
    }
}

/// Applying the top operator of stacks that end with two operands under one
/// operator.
proof fn lemma_apply_top(below: Stacks, first: i32, symbol: SymbolData, second: i32)
    ensures
        apply_top(with_operand(with_operator(with_operand(below, first), symbol), second)) == (
        match binary_result(symbol, first, second) {
            Ok(value) => Ok::<Stacks, EvaluationError>(with_operand(below, value)),
            Err(error) => Err(error),
        }),
{
    let stacks = with_operand(with_operator(with_operand(below, first), symbol), second);
    assert(stacks.values.take(stacks.values.len() - 2) =~= below.values);
    assert(stacks.symbols.drop_last() =~= below.symbols);
}

/// In an infix expression, the operators of a term have rank 2, the others
/// rank 1, and the split lies on an operator.
proof fn lemma_infix_ranks(tokens: Seq<Token>, end: int)
    requires
        is_infix(tokens),
        0 <= end < tokens.len(),
        end % 2 == 0,
    ensures
        ({
            let split = last_additive(tokens, end);
            &&& split == -1 || (0 < split < end && split % 2 == 1 && (
            tokens[split]->Symbol_0).precedence == 1)
            &&& forall|at: int|
                split < at < end && at % 2 == 1 ==> ((#[trigger] tokens[at])->Symbol_0).precedence
                    == 2
            &&& tokens[end] is Value
        }),
{
    lemma_last_additive(tokens, end);
}

/// With an operator of rank 2 next, the evaluator completes the last term.
proof fn lemma_reduce_term(tokens: Seq<Token>, end: int)
    requires
        is_infix(tokens),
        0 <= end < tokens.len(),
        end % 2 == 0,
    ensures
        match waiting_stacks(tokens, end) {
            Ok(stacks) => reduce_to(stacks, 2) == stacks_with_term(tokens, end),
            Err(error) => stacks_with_term(tokens, end) == Err::<Stacks, EvaluationError>(error),
        },
{
    lemma_infix_ranks(tokens, end);
    let split = last_additive(tokens, end);
    let start = term_start(split);
    if let Ok(below) = stacks_below_term(tokens, end) {
        if end - start >= 2 {
            if let Ok(product) = term_value(tokens, start, end - 2) {
                let symbol = tokens[end - 1]->Symbol_0;
                let stacks = with_operand(
                    with_operator(with_operand(below, product), symbol),
                    tokens[end]->Value_0,
                );
                lemma_apply_top(below, product, symbol, tokens[end]->Value_0);
                assert(symbol.precedence == 2);
                if let Ok(next) = apply_top(stacks) {
                    assert(reduce_to(next, 2) == Ok::<Stacks, EvaluationError>(next));
                }
            }
        }
    }
}

/// With an operator of rank 1 next, or none, the evaluator completes the
/// whole expression.
proof fn lemma_reduce_expression(tokens: Seq<Token>, end: int, precedence: u8)
    requires
        is_infix(tokens),
        0 <= end < tokens.len(),
        end % 2 == 0,
        precedence <= 1,
    ensures
        match waiting_stacks(tokens, end) {
            Ok(stacks) => reduce_to(stacks, precedence) == stacks_with_value(tokens, end),
            Err(error) => stacks_with_value(tokens, end) == Err::<Stacks, EvaluationError>(error),
        },
{
    lemma_infix_ranks(tokens, end);
    let split = last_additive(tokens, end);
    let start = term_start(split);
    if let Ok(below) = stacks_below_term(tokens, end) {
        // The last term first, if an operator of it is waiting.
        if end - start >= 2 {
            if let Ok(product) = term_value(tokens, start, end - 2) {
                lemma_apply_top(below, product, tokens[end - 1]->Symbol_0, tokens[end]->Value_0);
            }
        }
        // Then the operator below it, if there is one.
        if let Ok(product) = term_value(tokens, start, end) {
            let completed = with_operand(below, product);
            if split <= 0 {
                assert(reduce_to(completed, precedence) == Ok::<Stacks, EvaluationError>(
                    completed,
                ));
            } else {
                let left = expression_value(tokens, split - 1)->Ok_0;
                let symbol = tokens[split]->Symbol_0;
                lemma_apply_top(empty_stacks(), left, symbol, product);
                if let Ok(next) = apply_top(completed) {
                    assert(reduce_to(next, precedence) == Ok::<Stacks, EvaluationError>(next));
                }
            }
        }
    }
}

/// After each value of an infix expression the evaluator holds the waiting
/// stacks.
proof fn lemma_after_tokens_infix(tokens: Seq<Token>, end: int)
    requires
        is_infix(tokens),
        0 <= end < tokens.len(),
        end % 2 == 0,
    ensures
        after_tokens(tokens, (end + 1) as nat) == waiting_stacks(tokens, end),
    decreases end,
{
    lemma_infix_ranks(tokens, end);
    if end > 0 {
        let before = end - 2;
        lemma_after_tokens_infix(tokens, before);
        lemma_infix_ranks(tokens, before);
        let symbol = tokens[end - 1]->Symbol_0;
        assert(after_tokens(tokens, end as nat) == match after_tokens(tokens, (end - 1) as nat) {
            Ok(stacks) => after_token(stacks, tokens[end - 1]),
            Err(error) => Err(error),
        });
        if is_additive(tokens[end - 1]) {
            lemma_reduce_expression(tokens, before, symbol.precedence);
        } else {
            lemma_reduce_term(tokens, before);
        }
    }
}

/// On an infix expression the evaluator returns the value that the rules of
/// arithmetic give: `*` and `/` are applied before `+` and `-`, operators of
/// equal rank from the left, and a division by zero anywhere is the error
/// `DivideByZero`.
pub proof fn lemma_evaluation_follows_precedence(tokens: Seq<Token>)
    requires
        is_infix(tokens),
    ensures
        evaluate_spec(tokens) == infix_value(tokens),
{
    let end = tokens.len() - 1;
    lemma_after_tokens_infix(tokens, end);
    lemma_reduce_expression(tokens, end, 0);
}

/// Whether `tokens[at]` is the literal zero and stands to the right of a `/`.
pub open spec fn is_zero_divisor(tokens: Seq<Token>, at: int) -> bool {
    tokens[at - 1] == Token::Symbol(divide_symbol()) && tokens[at] == Token::Value(0)
}

/// Whether a `/` with the literal zero to its right stands between
/// `tokens[start]` and `tokens[end]`.
pub open spec fn divides_by_zero_within(tokens: Seq<Token>, start: int, end: int) -> bool {
    exists|at: int| start < at <= end && #[trigger] is_zero_divisor(tokens, at)
}

/// Whether some `/` in `tokens` has the literal zero to its right.
pub open spec fn divides_by_zero(tokens: Seq<Token>) -> bool {
    divides_by_zero_within(tokens, 0, tokens.len() - 1)
}

/// A term fails exactly when one of its divisors is zero.
proof fn lemma_term_value_fails(tokens: Seq<Token>, start: int, end: int)
    requires
        is_infix(tokens),
        0 <= start <= end < tokens.len(),
        start % 2 == 0,
        end % 2 == 0,
    ensures
        match term_value(tokens, start, end) {
            Ok(_) => !divides_by_zero_within(tokens, start, end),
            Err(error) => error == EvaluationError::DivideByZero && divides_by_zero_within(
                tokens,
                start,
                end,
            ),
        },
    decreases end - start,
{
    if end - start >= 2 {
        lemma_term_value_fails(tokens, start, end - 2);
        assert(tokens[end - 1] is Symbol && tokens[end] is Value);
        if divides_by_zero_within(tokens, start, end - 2) {
            let at = choose|at: int| start < at <= end - 2 && is_zero_divisor(tokens, at);
            assert(is_zero_divisor(tokens, at));
        } else if is_zero_divisor(tokens, end) {
        } else {
            assert forall|at: int| start < at <= end implies !is_zero_divisor(tokens, at) by {
                if at == end - 1 {
                    assert(tokens[at] is Symbol);
                }
            }
        }
    }
}

/// An expression fails exactly when one of its divisors is zero.
proof fn lemma_expression_value_fails(tokens: Seq<Token>, end: int)
    requires
        is_infix(tokens),
        0 <= end < tokens.len(),
        end % 2 == 0,
    ensures
        match expression_value(tokens, end) {
            Ok(_) => !divides_by_zero_within(tokens, 0, end),
            Err(error) => error == EvaluationError::DivideByZero && divides_by_zero_within(
                tokens,
                0,
                end,
            ),
        },
    decreases end,
{
    lemma_infix_ranks(tokens, end);
    let split = last_additive(tokens, end);
    if split <= 0 {
        lemma_term_value_fails(tokens, 0, end);
    } else {
        lemma_expression_value_fails(tokens, split - 1);
        lemma_term_value_fails(tokens, split + 1, end);
        assert(is_additive(tokens[split]));
        if divides_by_zero_within(tokens, 0, split - 1) {
            let at = choose|at: int| 0 < at <= split - 1 && is_zero_divisor(tokens, at);
            assert(is_zero_divisor(tokens, at));
        } else if divides_by_zero_within(tokens, split + 1, end) {
            let at = choose|at: int| split + 1 < at <= end && is_zero_divisor(tokens, at);
            assert(is_zero_divisor(tokens, at));
        } else {
            assert forall|at: int| 0 < at <= end implies !is_zero_divisor(tokens, at) by {
                if at == split {
                    assert(tokens[at] is Symbol);
                } else if at == split + 1 {
                    assert(tokens[at - 1] != Token::Symbol(divide_symbol()));
                }
            }
        }
    }
}

/// The value of an infix expression is defined unless the literal zero
/// stands to the right of a `/`, and then the error is `DivideByZero`.
pub proof fn lemma_infix_value_fails(tokens: Seq<Token>)
    requires
        is_infix(tokens),
    ensures
        match infix_value(tokens) {
            Ok(_) => !divides_by_zero(tokens),
            Err(error) => error == EvaluationError::DivideByZero && divides_by_zero(tokens),
        },
{
    lemma_expression_value_fails(tokens, tokens.len() - 1);
}

} // verus!
