//! What the tokenizer makes of a text, stated on its characters.
//!
//! Digits and operators are the only characters of an expression, and nothing
//! separates them: a number is a maximal run of digits.
use crate::parser::arithmetic::{lemma_wrap, wrap};
use crate::parser::parse_data::{
    add_symbol, divide_symbol, is_known_symbol, multiply_symbol, subtract_symbol, SymbolData,
    Token, TokenizationError,
};
use vstd::prelude::*;

verus! {

/// Whether `c` is one of the ten decimal digits.
pub open spec fn is_digit(c: char) -> bool {
    '0' <= c && c <= '9'
}

/// Whether `c` is one of the four operator characters.
pub open spec fn is_operator(c: char) -> bool {
    c == '+' || c == '-' || c == '*' || c == '/'
}

/// The number that the digit `c` stands for.
pub open spec fn digit_value(c: char) -> int
    recommends
        is_digit(c),
{
    c as int - '0' as int
}

/// The descriptor of the operator that `c` stands for.
pub open spec fn symbol_of(c: char) -> SymbolData
    recommends
        is_operator(c),
{
    if c == '+' {
        add_symbol()
    } else if c == '-' {
        subtract_symbol()
    } else if c == '*' {
        multiply_symbol()
    } else {
        divide_symbol()
    }
}

/// Whether `text[at]` is the first character of `text` that is neither a
/// digit nor an operator.
pub open spec fn is_first_rejected(text: Seq<char>, at: int) -> bool {
    &&& 0 <= at < text.len()
    &&& !is_digit(text[at])
    &&& !is_operator(text[at])
    &&& forall|before: int|
        0 <= before < at ==> is_digit(#[trigger] text[before]) || is_operator(text[before])
}

/// Whether the last character of `text` is a digit.
pub open spec fn ends_in_digit(text: Seq<char>) -> bool {
    text.len() > 0 && is_digit(text.last())
}

/// The decimal value of the digits that `text` ends with, zero if it ends
/// with none.
pub open spec fn trailing_number(text: Seq<char>) -> nat
    decreases text.len(),
{
    if ends_in_digit(text) {
        (trailing_number(text.drop_last()) * 10 + digit_value(text.last())) as nat
    } else {
        0
    }
}

/// The tokens of `text` up to the digits that it ends with: one `Symbol` for
/// each operator and, for each run of digits that an operator follows, one
/// `Value` with the run's decimal value, wrapped.
pub open spec fn completed_tokens(text: Seq<char>) -> Seq<Token>
    decreases text.len(),
{
    if text.len() == 0 {
        Seq::empty()
    } else if is_operator(text.last()) {
        let before = text.drop_last();
        let earlier = completed_tokens(before);
        let operands = if ends_in_digit(before) {
            earlier.push(Token::Value(wrap(trailing_number(before) as int)))
        } else {
            earlier
        };
        operands.push(Token::Symbol(symbol_of(text.last())))
    } else {
        completed_tokens(text.drop_last())
    }
}

/// The result of tokenizing `text`.
///
/// A character that is neither digit nor operator is an error, and the first
/// such character is reported.  Otherwise the text must end with a digit, and
/// its tokens are the completed ones followed by the last number.
pub open spec fn tokenize_spec(text: Seq<char>) -> Result<Seq<Token>, TokenizationError> {
    if exists|at: int| is_first_rejected(text, at) {
        let at = choose|at: int| is_first_rejected(text, at);
        Err(TokenizationError::BadToken { token: text[at] })
    } else if !ends_in_digit(text) {
        Err(TokenizationError::EndOnInfixSymbol)
    } else {
        Ok(completed_tokens(text).push(Token::Value(wrap(trailing_number(text) as int))))
    }
}

/// A result of the tokenizer with the tokens as a sequence.
pub open spec fn token_view(result: Result<Vec<Token>, TokenizationError>) -> Result<
    Seq<Token>,
    TokenizationError,
> {
    match result {
        Ok(tokens) => Ok(tokens@),
        Err(error) => Err(error),
    }
}

/// Whether no two values stand side by side in `tokens` and every operator
/// is one of the four known ones.
pub open spec fn is_separated(tokens: Seq<Token>) -> bool {
    &&& forall|at: int|
        0 < at < tokens.len() && tokens[at - 1] is Value ==> #[trigger] tokens[at] is Symbol
    &&& forall|at: int|
        0 <= at < tokens.len() ==> match #[trigger] tokens[at] {
            Token::Value(_) => true,
            Token::Symbol(symbol) => is_known_symbol(symbol),
        }
}

/// The completed tokens are separated and end with an operator.
proof fn lemma_completed_tokens_shape(text: Seq<char>)
    ensures
        is_separated(completed_tokens(text)),
        completed_tokens(text).len() > 0 ==> completed_tokens(text).last() is Symbol,
    decreases text.len(),
{
    if text.len() > 0 {
        lemma_completed_tokens_shape(text.drop_last());
    }
}

/// The tokens of a text are never empty, never end with an operator, hold one
/// value for a whole run of digits, and hold known operators only.
pub proof fn lemma_tokens_shape(text: Seq<char>)
    requires
        tokenize_spec(text) is Ok,
    ensures
        ({
            let tokens = tokenize_spec(text)->Ok_0;
            &&& tokens.len() > 0
            &&& tokens.last() is Value
            &&& is_separated(tokens)
        }),
{
    lemma_completed_tokens_shape(text);
}

/// A text of digits alone is one value: the number that the digits spell in
/// base ten, wrapped, which is that number itself where it fits.
pub proof fn lemma_tokenize_number(text: Seq<char>)
    requires
        text.len() > 0,
        forall|at: int| 0 <= at < text.len() ==> is_digit(#[trigger] text[at]),
    ensures
        tokenize_spec(text) == Ok::<Seq<Token>, TokenizationError>(
            seq![Token::Value(wrap(trailing_number(text) as int))],
        ),
        trailing_number(text) <= i32::MAX ==> wrap(trailing_number(text) as int)
            == trailing_number(text),
{
    lemma_wrap(trailing_number(text) as int);
    lemma_digits_complete_nothing(text);
    assert(completed_tokens(text).push(Token::Value(wrap(trailing_number(text) as int)))
        =~= seq![Token::Value(wrap(trailing_number(text) as int))]);
}

/// Without an operator no token is completed.
proof fn lemma_digits_complete_nothing(text: Seq<char>)
    requires
        forall|at: int| 0 <= at < text.len() ==> is_digit(#[trigger] text[at]),
    ensures
        completed_tokens(text) == Seq::<Token>::empty(),
    decreases text.len(),
{
    if text.len() > 0 {
        lemma_digits_complete_nothing(text.drop_last());
    }
}

/// The first rejected character is reported, whatever follows it.
pub proof fn lemma_tokenize_rejects(text: Seq<char>, at: int)
    requires
        is_first_rejected(text, at),
    ensures
        tokenize_spec(text) == Err::<Seq<Token>, TokenizationError>(
            TokenizationError::BadToken { token: text[at] },
        ),
{
}

} // verus!
