use infix_calc::parser::parse_data::{
    add_symbol, divide_symbol, multiply_symbol, subtract_symbol, EvaluationError, SymbolData,
    Token,
};
use infix_calc::parser::parse_functions::{evaluate_expression, execute_symbol, tokenize_string};

fn value_of(text: &str) -> Result<i32, EvaluationError> {
    let tokens = tokenize_string(&String::from(text)).unwrap();
    evaluate_expression(&tokens)
}

#[test]
fn multiplication_comes_before_addition() {
    assert_eq!(value_of("1+2*3"), Ok(7));
    assert_eq!(value_of("2*3+1"), Ok(7));
    assert_eq!(value_of("2+3*4+5"), Ok(19));
    assert_eq!(value_of("2*3+4*5"), Ok(26));
}

#[test]
fn division_comes_before_subtraction() {
    assert_eq!(value_of("10-6/2"), Ok(7));
    assert_eq!(value_of("6/2-10"), Ok(-7));
}

#[test]
fn equal_ranks_group_from_the_left() {
    assert_eq!(value_of("8-3-2"), Ok(3));
    assert_eq!(value_of("8-3+2"), Ok(7));
    assert_eq!(value_of("100/10/5"), Ok(2));
    assert_eq!(value_of("100/10*5"), Ok(50));
    assert_eq!(value_of("2*7/4"), Ok(3));
    assert_eq!(value_of("7/4*2"), Ok(2));
}

#[test]
fn the_example_expression_has_value_three() {
    assert_eq!(value_of("1+2*3-4"), Ok(3));
}

#[test]
fn division_truncates() {
    assert_eq!(value_of("7/2"), Ok(3));
    assert_eq!(value_of("1/2"), Ok(0));
    assert_eq!(value_of("9/3"), Ok(3));
}

#[test]
fn division_truncates_toward_zero() {
    let divide = Token::Symbol(divide_symbol());
    assert_eq!(evaluate_expression(&vec![Token::Value(-7), divide, Token::Value(2)]), Ok(-3));
    assert_eq!(evaluate_expression(&vec![Token::Value(7), divide, Token::Value(-2)]), Ok(-3));
    assert_eq!(evaluate_expression(&vec![Token::Value(-7), divide, Token::Value(-2)]), Ok(3));
    assert_eq!(evaluate_expression(&vec![Token::Value(-1), divide, Token::Value(2)]), Ok(0));
    assert_eq!(evaluate_expression(&vec![Token::Value(-8), divide, Token::Value(-1)]), Ok(8));
    assert_eq!(
        evaluate_expression(&vec![Token::Value(i32::MIN), divide, Token::Value(2)]),
        Ok(-1073741824)
    );
    assert_eq!(
        evaluate_expression(&vec![Token::Value(i32::MIN), divide, Token::Value(1)]),
        Ok(i32::MIN)
    );
    assert_eq!(
        evaluate_expression(&vec![Token::Value(i32::MAX), divide, Token::Value(-1)]),
        Ok(-i32::MAX)
    );
}

#[test]
fn division_by_zero_is_an_error() {
    assert_eq!(value_of("5/0"), Err(EvaluationError::DivideByZero));
    assert_eq!(value_of("1+5/0"), Err(EvaluationError::DivideByZero));
    assert_eq!(value_of("5/0*3"), Err(EvaluationError::DivideByZero));
    assert_eq!(value_of("5/00+1/0"), Err(EvaluationError::DivideByZero));
    assert_eq!(value_of("0/0"), Err(EvaluationError::DivideByZero));
    assert_eq!(value_of("7/4294967296"), Err(EvaluationError::DivideByZero));
}

#[test]
fn only_a_literal_zero_divisor_fails() {
    assert_eq!(value_of("5/1-1"), Ok(4));
    assert_eq!(value_of("0/5"), Ok(0));
    assert_eq!(value_of("5*0"), Ok(0));
    assert_eq!(value_of("5-0"), Ok(5));
    assert_eq!(value_of("5/10"), Ok(0));
}

#[test]
fn a_single_value_is_its_own_result() {
    assert_eq!(value_of("42"), Ok(42));
    assert_eq!(evaluate_expression(&vec![Token::Value(-5)]), Ok(-5));
}

#[test]
fn subtraction_can_go_below_zero() {
    assert_eq!(value_of("3-5"), Ok(-2));
    assert_eq!(value_of("0-7/2"), Ok(-3));
    assert_eq!(value_of("0-7*2"), Ok(-14));
}

#[test]
fn results_wrap_around() {
    assert_eq!(value_of("2147483647+1"), Ok(i32::MIN));
    assert_eq!(value_of("0-2147483647-2"), Ok(i32::MAX));
    assert_eq!(value_of("65536*65536"), Ok(0));
    assert_eq!(value_of("65536*32768"), Ok(i32::MIN));
    assert_eq!(value_of("46341*46341"), Ok(-2147479015));
    assert_eq!(value_of("2147483648/4294967295"), Ok(i32::MIN));
    assert_eq!(
        evaluate_expression(&vec![
            Token::Value(i32::MIN),
            Token::Symbol(divide_symbol()),
            Token::Value(-1),
        ]),
        Ok(i32::MIN)
    );
}

#[test]
fn no_tokens_is_a_mismatch() {
    assert_eq!(evaluate_expression(&Vec::new()), Err(EvaluationError::SymbolValueMismatch));
}

#[test]
fn an_operator_short_of_operands_is_a_mismatch() {
    let add = Token::Symbol(add_symbol());
    assert_eq!(evaluate_expression(&vec![add]), Err(EvaluationError::SymbolValueMismatch));
    assert_eq!(
        evaluate_expression(&vec![Token::Value(1), add]),
        Err(EvaluationError::SymbolValueMismatch)
    );
    assert_eq!(
        evaluate_expression(&vec![add, Token::Value(1)]),
        Err(EvaluationError::SymbolValueMismatch)
    );
    assert_eq!(value_of("3++4"), Err(EvaluationError::SymbolValueMismatch));
    assert_eq!(value_of("+3"), Err(EvaluationError::SymbolValueMismatch));
    assert_eq!(value_of("3*-4"), Err(EvaluationError::SymbolValueMismatch));
}

#[test]
fn values_without_operators_are_left_over() {
    assert_eq!(
        evaluate_expression(&vec![Token::Value(1), Token::Value(2)]),
        Err(EvaluationError::TrailingSymbolsOrValues { leftover_symbols: 0, leftover_values: 1 })
    );
    assert_eq!(
        evaluate_expression(&vec![Token::Value(1), Token::Value(2), Token::Value(3)]),
        Err(EvaluationError::TrailingSymbolsOrValues { leftover_symbols: 0, leftover_values: 2 })
    );
    assert_eq!(
        evaluate_expression(&vec![
            Token::Value(1),
            Token::Value(2),
            Token::Value(3),
            Token::Symbol(add_symbol()),
        ]),
        Err(EvaluationError::TrailingSymbolsOrValues { leftover_symbols: 0, leftover_values: 1 })
    );
}

#[test]
fn operands_may_come_before_their_operator() {
    let add = Token::Symbol(add_symbol());
    let subtract = Token::Symbol(subtract_symbol());
    assert_eq!(evaluate_expression(&vec![Token::Value(1), Token::Value(2), add]), Ok(3));
    assert_eq!(evaluate_expression(&vec![subtract, Token::Value(5), Token::Value(2)]), Ok(3));
}

#[test]
fn an_unknown_symbol_is_reported() {
    let power = SymbolData { representation: '^', precedence: 3 };
    assert_eq!(
        evaluate_expression(&vec![Token::Value(2), Token::Symbol(power), Token::Value(3)]),
        Err(EvaluationError::UnknownSymbol(power))
    );
    let strong_add = SymbolData { representation: '+', precedence: 5 };
    assert_eq!(
        evaluate_expression(&vec![Token::Value(2), Token::Symbol(strong_add), Token::Value(3)]),
        Err(EvaluationError::UnknownSymbol(strong_add))
    );
}

#[test]
fn an_unknown_symbol_is_ranked_by_its_precedence() {
    let weak = SymbolData { representation: '?', precedence: 0 };
    let tokens = vec![
        Token::Value(1),
        Token::Symbol(weak),
        Token::Value(4),
        Token::Symbol(divide_symbol()),
        Token::Value(0),
    ];
    assert_eq!(evaluate_expression(&tokens), Err(EvaluationError::DivideByZero));
    let strong = SymbolData { representation: '?', precedence: 9 };
    let tokens = vec![
        Token::Value(1),
        Token::Symbol(strong),
        Token::Value(4),
        Token::Symbol(divide_symbol()),
        Token::Value(0),
    ];
    assert_eq!(evaluate_expression(&tokens), Err(EvaluationError::UnknownSymbol(strong)));
}

#[test]
fn the_first_error_met_is_returned() {
    let power = SymbolData { representation: '^', precedence: 2 };
    let tokens = vec![
        Token::Value(1),
        Token::Symbol(divide_symbol()),
        Token::Value(0),
        Token::Symbol(power),
        Token::Value(2),
    ];
    assert_eq!(evaluate_expression(&tokens), Err(EvaluationError::DivideByZero));
    let tokens = vec![
        Token::Value(1),
        Token::Symbol(power),
        Token::Value(0),
        Token::Symbol(divide_symbol()),
        Token::Value(0),
    ];
    assert_eq!(evaluate_expression(&tokens), Err(EvaluationError::UnknownSymbol(power)));
}

#[test]
fn evaluating_twice_gives_the_same() {
    for text in ["1+2*3-4", "5/0", "3++4", "7", "2147483647+1"] {
        assert_eq!(value_of(text), value_of(text));
    }
    let loose = vec![Token::Value(1), Token::Value(2)];
    assert_eq!(evaluate_expression(&loose), evaluate_expression(&loose));
}

#[test]
fn well_formed_expressions_evaluate() {
    assert_eq!(value_of("1"), Ok(1));
    assert_eq!(value_of("12*3-4/2+7"), Ok(41));
    assert_eq!(value_of("100-7*8/3*2+50/7/2-1"), Ok(66));
    assert_eq!(value_of("1-2-3-4*5*6/7/2"), Ok(-12));
    assert_eq!(value_of("9/2*2+9-9/2*2"), Ok(9));
    assert_eq!(value_of("1+1+1+1+1+1+1+1+1+1"), Ok(10));
    assert_eq!(value_of("2*2*2*2*2*2*2*2*2*2"), Ok(1024));
}

#[test]
fn execute_symbol_adds() {
    let symbol = add_symbol();
    let mut values = vec![9, 4, 3];
    let mut symbols = vec![&symbol];
    assert_eq!(execute_symbol(&mut values, &mut symbols), Ok(()));
    assert_eq!(values, vec![9, 7]);
    assert!(symbols.is_empty());
}

#[test]
fn execute_symbol_takes_the_upper_value_as_right_operand() {
    let subtract = subtract_symbol();
    let divide = divide_symbol();
    let multiply = multiply_symbol();
    let mut values = vec![20, 6];
    let mut symbols = vec![&multiply, &subtract];
    assert_eq!(execute_symbol(&mut values, &mut symbols), Ok(()));
    assert_eq!(values, vec![14]);
    assert_eq!(symbols, vec![&multiply]);

    let mut values = vec![20, 6];
    let mut symbols = vec![&divide];
    assert_eq!(execute_symbol(&mut values, &mut symbols), Ok(()));
    assert_eq!(values, vec![3]);

    let mut values = vec![20, 6];
    let mut symbols = vec![&multiply];
    assert_eq!(execute_symbol(&mut values, &mut symbols), Ok(()));
    assert_eq!(values, vec![120]);
}

#[test]
fn execute_symbol_without_values_keeps_the_symbol() {
    let symbol = add_symbol();
    let mut values: Vec<i32> = Vec::new();
    let mut symbols = vec![&symbol];
    assert_eq!(
        execute_symbol(&mut values, &mut symbols),
        Err(EvaluationError::SymbolValueMismatch)
    );
    assert!(values.is_empty());
    assert_eq!(symbols, vec![&symbol]);
}

#[test]
fn execute_symbol_with_one_value_uses_it_up() {
    let symbol = multiply_symbol();
    let mut values = vec![5];
    let mut symbols = vec![&symbol];
    assert_eq!(
        execute_symbol(&mut values, &mut symbols),
        Err(EvaluationError::SymbolValueMismatch)
    );
    assert!(values.is_empty());
    assert_eq!(symbols, vec![&symbol]);
}

#[test]
fn execute_symbol_dividing_by_zero_uses_up_its_operands() {
    let symbol = divide_symbol();
    let mut values = vec![1, 5, 0];
    let mut symbols = vec![&symbol];
    assert_eq!(execute_symbol(&mut values, &mut symbols), Err(EvaluationError::DivideByZero));
    assert_eq!(values, vec![1]);
    assert!(symbols.is_empty());
}

#[test]
fn execute_symbol_reports_an_unknown_symbol() {
    let symbol = SymbolData { representation: '%', precedence: 2 };
    let below = add_symbol();
    let mut values = vec![1, 5, 2];
    let mut symbols = vec![&below, &symbol];
    assert_eq!(
        execute_symbol(&mut values, &mut symbols),
        Err(EvaluationError::UnknownSymbol(symbol))
    );
    assert_eq!(values, vec![1]);
    assert_eq!(symbols, vec![&below]);
}

#[test]
fn execute_symbol_wraps() {
    let add = add_symbol();
    let mut values = vec![i32::MAX, 1];
    let mut symbols = vec![&add];
    assert_eq!(execute_symbol(&mut values, &mut symbols), Ok(()));
    assert_eq!(values, vec![i32::MIN]);

    let subtract = subtract_symbol();
    let mut values = vec![i32::MIN, 1];
    let mut symbols = vec![&subtract];
    assert_eq!(execute_symbol(&mut values, &mut symbols), Ok(()));
    assert_eq!(values, vec![i32::MAX]);

    let divide = divide_symbol();
    let mut values = vec![i32::MIN, -1];
    let mut symbols = vec![&divide];
    assert_eq!(execute_symbol(&mut values, &mut symbols), Ok(()));
    assert_eq!(values, vec![i32::MIN]);
}
