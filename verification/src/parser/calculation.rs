//! From a text to its value: what tokenizing and evaluating give together.
use crate::parser::lexing::{completed_tokens, ends_in_digit, is_digit, is_operator, tokenize_spec};
use crate::parser::parse_data::EvaluationError;
use crate::parser::precedence::{
    alternates, divides_by_zero, infix_value, is_infix, lemma_evaluation_follows_precedence,
    lemma_infix_value_fails,
};
use crate::parser::reduction::evaluate_spec;
use vstd::prelude::*;

verus! {

/// Whether `text` can begin an expression: it holds digits and operators
/// only, begins with a digit if it is not empty, and a digit follows each
/// operator that is not its last character.
pub open spec fn begins_expression(text: Seq<char>) -> bool {
    &&& forall|at: int|
        0 <= at < text.len() ==> is_digit(#[trigger] text[at]) || is_operator(text[at])
    &&& text.len() > 0 ==> is_digit(text[0])
    &&& forall|at: int|
        0 < at < text.len() && is_operator(text[at - 1]) ==> is_digit(#[trigger] text[at])
}

/// Whether `text` is an expression: numbers with one operator between each
/// two of them.
pub open spec fn is_expression(text: Seq<char>) -> bool {
    begins_expression(text) && ends_in_digit(text)
}

/// The completed tokens of the beginning of an expression are pairs of a
/// value and an operator.
proof fn lemma_completed_tokens_alternate(text: Seq<char>)
    requires
        begins_expression(text),
    ensures
        alternates(completed_tokens(text)),
        completed_tokens(text).len() % 2 == 0,
    decreases text.len(),
{
    if text.len() > 0 {
        let before = text.drop_last();
        assert(begins_expression(before));
        lemma_completed_tokens_alternate(before);
        if is_operator(text.last()) && before.len() > 0 {
            assert(is_operator(before.last()) ==> is_digit(text[text.len() - 1]));
        }
    }
}

/// The tokens of an expression read value, operator, value, ..., value.
pub proof fn lemma_expression_tokens(text: Seq<char>)
    requires
        is_expression(text),
    ensures
        tokenize_spec(text) is Ok,
        is_infix(tokenize_spec(text)->Ok_0),
{
    lemma_completed_tokens_alternate(text);
}

/// Tokenizing an expression and evaluating its tokens gives the value that
/// the rules of arithmetic give, `DivideByZero` taking its place where the
/// expression divides by zero.
pub proof fn lemma_expression_is_calculated(text: Seq<char>)
    requires
        is_expression(text),
    ensures
        tokenize_spec(text) is Ok,
        evaluate_spec(tokenize_spec(text)->Ok_0) == infix_value(tokenize_spec(text)->Ok_0),
        divides_by_zero(tokenize_spec(text)->Ok_0) ==> evaluate_spec(tokenize_spec(text)->Ok_0)
            == Err::<i32, EvaluationError>(EvaluationError::DivideByZero),
{
    lemma_expression_tokens(text);
    lemma_evaluation_follows_precedence(tokenize_spec(text)->Ok_0);
    lemma_infix_value_fails(tokenize_spec(text)->Ok_0);
}

/// An expression in which no number to the right of a `/` is zero has a
/// value: neither tokenizing it nor evaluating its tokens fails.
pub proof fn lemma_expression_succeeds(text: Seq<char>)
    requires
        is_expression(text),
        !divides_by_zero(tokenize_spec(text)->Ok_0),
    ensures
        tokenize_spec(text) is Ok,
        evaluate_spec(tokenize_spec(text)->Ok_0) is Ok,
        evaluate_spec(tokenize_spec(text)->Ok_0) == infix_value(tokenize_spec(text)->Ok_0),
{
    lemma_expression_tokens(text);
    lemma_evaluation_follows_precedence(tokenize_spec(text)->Ok_0);
    lemma_infix_value_fails(tokenize_spec(text)->Ok_0);
}

} // verus!
