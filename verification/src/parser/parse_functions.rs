//! The tokenizer and the evaluator.
use crate::parser::arithmetic::{
    lemma_wrap, lemma_wrap_append_digit, wrap, wrapping_difference, wrapping_product,
    wrapping_quotient, wrapping_sum,
};
use crate::parser::lexing::{
    completed_tokens, digit_value, ends_in_digit, is_digit, is_operator, lemma_tokenize_rejects,
    token_view, tokenize_spec, trailing_number,
};
use crate::parser::parse_data::{
    add_symbol, divide_symbol, multiply_symbol, subtract_symbol, EvaluationError, SymbolData,
    Token, TokenizationError,
};
use crate::parser::precedence::{infix_value, is_infix, lemma_evaluation_follows_precedence};
use crate::parser::reduction::{
    after_tokens, empty_stacks, evaluate_spec, lemma_descriptors, lemma_descriptors_push,
    lemma_error_is_final, reduce_to, stacks_after_apply, stacks_of, top_result, Stacks,
};
use vstd::prelude::*;

verus! {

/// The number that a digit stands for.
fn digit_to_value(character: char) -> (value: i32)
    requires
        is_digit(character),
    ensures
        value == digit_value(character),
{
    (character as u32 - '0' as u32) as i32
}

/// Splits `equation` into its numbers and operators.
///
/// Scans the text once from the left.  A number is a maximal run of digits;
/// its value is its decimal value, wrapped to 32 bits.
pub fn tokenize_string(equation: &String) -> (result: Result<Vec<Token>, TokenizationError>)
    ensures
        token_view(result) == tokenize_spec(equation@),
{
    broadcast use vstd::string::axiom_spec_iter;

    let mut token_vec: Vec<Token> = Vec::new();
    let mut value_being_built: Option<i32> = None;
    let text = equation.as_str();

    for character in scan: text.chars()
        invariant
            scan.seq() == equation@,
            forall|before: int|
                0 <= before < scan.index() ==> is_digit(#[trigger] equation@[before])
                    || is_operator(equation@[before]),
            token_vec@ == completed_tokens(equation@.take(scan.index() as int)),
            value_being_built == if ends_in_digit(equation@.take(scan.index() as int)) {
                Some(wrap(trailing_number(equation@.take(scan.index() as int)) as int))
            } else {
                None
            },
    {
        let ghost read = equation@.take(scan.index() as int);
        let ghost next = equation@.take(scan.index() + 1);
        assert(next.drop_last() == read);
        if '0' <= character && character <= '9' {
            let digit = digit_to_value(character);
            proof {
                lemma_wrap_append_digit(trailing_number(read) as int, digit as int);
                lemma_wrap(digit as int);
            }
            value_being_built = match value_being_built {
                Some(current_value) => Some(
                    wrapping_sum(wrapping_product(current_value, 10), digit),
                ),
                None => Some(digit),
            };
        } else if character == '+' || character == '-' || character == '*' || character == '/' {
            if let Some(constructed_value) = value_being_built {
                token_vec.push(Token::Value(constructed_value));
                value_being_built = None;
            }
            if character == '+' {
                token_vec.push(Token::Symbol(add_symbol()));
            } else if character == '-' {
                token_vec.push(Token::Symbol(subtract_symbol()));
            } else if character == '*' {
                token_vec.push(Token::Symbol(multiply_symbol()));
            } else {
                token_vec.push(Token::Symbol(divide_symbol()));
            }
        } else {
            proof {
                lemma_tokenize_rejects(equation@, scan.index() as int);
            }
            return Err(TokenizationError::BadToken { token: character });
        }
    }

    assert(equation@.take(equation@.len() as int) == equation@);
    if let Some(constructed_value) = value_being_built {
        token_vec.push(Token::Value(constructed_value));
    } else {
        return Err(TokenizationError::EndOnInfixSymbol);
    }
    Ok(token_vec)
}

/// Reduces `expression` to one value.
///
/// Values go onto a stack.  An operator first has every stacked operator of
/// its own or a higher rank applied, then goes onto a stack of its own.  At
/// the end the operators that are left are applied from the top.
pub fn evaluate_expression(expression: &Vec<Token>) -> (result: Result<i32, EvaluationError>)
    ensures
        result == evaluate_spec(expression@),
        is_infix(expression@) ==> result == infix_value(expression@),
{
    proof {
        if is_infix(expression@) {
            lemma_evaluation_follows_precedence(expression@);
        }
    }
    let mut value_stack: Vec<i32> = Vec::new();
    let mut symbol_stack: Vec<&SymbolData> = Vec::new();
    assert(stacks_of(value_stack@, symbol_stack@).symbols =~= empty_stacks().symbols);

    let length = expression.len();
    for position in 0..length
        invariant
            length == expression@.len(),
            is_infix(expression@) ==> evaluate_spec(expression@) == infix_value(expression@),
            after_tokens(expression@, position as nat) == Ok::<Stacks, EvaluationError>(
                stacks_of(value_stack@, symbol_stack@),
            ),
    {
        let ghost before = stacks_of(value_stack@, symbol_stack@);
        match &expression[position] {
            Token::Value(raw_value) => {
                value_stack.push(*raw_value);
            },
            Token::Symbol(symbol_value) => {
                loop
                    invariant_except_break
                        reduce_to(before, symbol_value.precedence) == reduce_to(
                            stacks_of(value_stack@, symbol_stack@),
                            symbol_value.precedence,
                        ),
                    invariant
                        position < expression@.len(),
                        is_infix(expression@) ==> evaluate_spec(expression@) == infix_value(
                            expression@,
                        ),
                        expression@[position as int] == Token::Symbol(*symbol_value),
                        after_tokens(expression@, position as nat) == Ok::<
                            Stacks,
                            EvaluationError,
                        >(before),
                    ensures
                        after_tokens(expression@, (position + 1) as nat) == Ok::<
                            Stacks,
                            EvaluationError,
                        >(stacks_of(value_stack@, symbol_stack@)),
                    decreases symbol_stack@.len(),
                {
                    let ghost current = stacks_of(value_stack@, symbol_stack@);
                    proof {
                        lemma_descriptors(symbol_stack@);
                    }
                    let waiting = symbol_stack.len();
                    if waiting > 0 && symbol_stack[waiting - 1].precedence
                        >= symbol_value.precedence {
                        proof {
                            if let Err(error) = top_result(current) {
                                lemma_error_is_final(expression@, (position + 1) as nat, error);
                            }
                        }
                        execute_symbol(&mut value_stack, &mut symbol_stack)?;
                    } else {
                        proof {
                            lemma_descriptors_push(symbol_stack@, symbol_value);
                        }
                        symbol_stack.push(symbol_value);
                        break ;
                    }
                }
            },
        }
    }

    while symbol_stack.len() > 0
        invariant
            is_infix(expression@) ==> evaluate_spec(expression@) == infix_value(expression@),
            after_tokens(expression@, expression@.len()) matches Ok(stacks) && reduce_to(stacks, 0)
                == reduce_to(stacks_of(value_stack@, symbol_stack@), 0),
        decreases symbol_stack@.len(),
    {
        proof {
            lemma_descriptors(symbol_stack@);
        }
        execute_symbol(&mut value_stack, &mut symbol_stack)?;
    }

    proof {
        lemma_descriptors(symbol_stack@);
    }
    let final_value = value_stack.pop();
    if value_stack.len() > 0 || symbol_stack.len() > 0 {
        Err(
            EvaluationError::TrailingSymbolsOrValues {
                leftover_values: value_stack.len(),
                leftover_symbols: symbol_stack.len(),
            },
        )
    } else {
        match final_value {
            Some(value) => Ok(value),
            None => Err(EvaluationError::SymbolValueMismatch),
        }
    }
}

/// Applies the operator on top of `symbol_stack` to the two values on top of
/// `value_stack`, the upper one being the right operand, and replaces the
/// three by the result.
///
/// Where it fails, the values it had taken are gone, and so is the operator
/// unless a value was missing.
pub fn execute_symbol<'a>(
    value_stack: &mut Vec<i32>,
    symbol_stack: &mut Vec<&'a SymbolData>,
) -> (result: Result<(), EvaluationError>)
    requires
        old(symbol_stack)@.len() > 0,
    ensures
        match top_result(stacks_of(old(value_stack)@, old(symbol_stack)@)) {
            Ok(_) => result is Ok,
            Err(error) => result == Err::<(), EvaluationError>(error),
        },
        stacks_of(final(value_stack)@, final(symbol_stack)@) == stacks_after_apply(
            stacks_of(old(value_stack)@, old(symbol_stack)@),
        ),
{
    let ghost before = stacks_of(value_stack@, symbol_stack@);
    proof {
        lemma_descriptors(symbol_stack@);
    }
    let second_value = match value_stack.pop() {
        Some(value) => value,
        None => {
            assert(value_stack@ =~= Seq::empty());
            return Err(EvaluationError::SymbolValueMismatch);
        },
    };
    let first_value = match value_stack.pop() {
        Some(value) => value,
        None => {
            assert(value_stack@ =~= Seq::empty());
            return Err(EvaluationError::SymbolValueMismatch);
        },
    };
    let the_top_symbol = symbol_stack.pop().unwrap();
    assert(value_stack@ =~= before.values.take(before.values.len() - 2));

    if *the_top_symbol == add_symbol() {
        value_stack.push(wrapping_sum(first_value, second_value));
    } else if *the_top_symbol == subtract_symbol() {
        value_stack.push(wrapping_difference(first_value, second_value));
    } else if *the_top_symbol == multiply_symbol() {
        value_stack.push(wrapping_product(first_value, second_value));
    } else if *the_top_symbol == divide_symbol() {
        if second_value == 0 {
            return Err(EvaluationError::DivideByZero);
        }
        value_stack.push(wrapping_quotient(first_value, second_value));
    } else {
        return Err(EvaluationError::UnknownSymbol(*the_top_symbol));
    }
    Ok(())
}

/// Tokenizing depends on the characters of the text alone: two runs on the
/// same text end alike, with the same tokens or the same error.
pub proof fn lemma_tokenize_string_is_deterministic(
    first_text: Seq<char>,
    second_text: Seq<char>,
    first: Result<Vec<Token>, TokenizationError>,
    second: Result<Vec<Token>, TokenizationError>,
)
    requires
        first_text == second_text,
        token_view(first) == tokenize_spec(first_text),
        token_view(second) == tokenize_spec(second_text),
    ensures
        token_view(first) == token_view(second),
{
}

/// Evaluating depends on the tokens alone: two runs on the same tokens end
/// alike, with the same value or the same error.
pub proof fn lemma_evaluate_expression_is_deterministic(
    first_tokens: Seq<Token>,
    second_tokens: Seq<Token>,
    first: Result<i32, EvaluationError>,
    second: Result<i32, EvaluationError>,
)
    requires
        first_tokens == second_tokens,
        first == evaluate_spec(first_tokens),
        second == evaluate_spec(second_tokens),
    ensures
        first == second,
{
}

} // verus!
