//! Tokens: the lexical units of a JSON text, and which text denotes which.

use crate::chars::{chars_of, string_of};
use crate::number::{integer_of, is_float, is_float_literal, parse_integer};
use vstd::prelude::*;

verus! {

/// Why a text could not be cut into tokens.
#[derive(Debug)]
pub enum JsonLexError {
    /// The text held here is not a token.
    InvalidSyntax(String),
}

impl View for JsonLexError {
    type V = Seq<char>;

    /// The text that failed to classify as a token.
    open spec fn view(&self) -> Seq<char> {
        match self {
            JsonLexError::InvalidSyntax(snippet) => snippet@,
        }
    }
}

/// A scalar JSON value.
#[derive(Debug)]
pub enum Constant {
    /// A floating-point number, held as the literal's text: the number is the
    /// double nearest to what the text denotes.
    Float(String),
    Int(isize),
    /// The characters between the quotes, escapes left as they were written.
    StringLiteral(String),
    Null,
    Boolean(bool),
}

/// A [`Constant`] as a mathematical value.
pub ghost enum ConstantView {
    Float(Seq<char>),
    Int(int),
    StringLiteral(Seq<char>),
    Null,
    Boolean(bool),
}

impl View for Constant {
    type V = ConstantView;

    open spec fn view(&self) -> ConstantView {
        match self {
            Constant::Float(text) => ConstantView::Float(text@),
            Constant::Int(i) => ConstantView::Int(*i as int),
            Constant::StringLiteral(text) => ConstantView::StringLiteral(text@),
            Constant::Null => ConstantView::Null,
            Constant::Boolean(b) => ConstantView::Boolean(*b),
        }
    }
}

impl Clone for Constant {
    fn clone(&self) -> (c: Self)
        ensures
            c == *self,
    {
        match self {
            Constant::Float(text) => Constant::Float(text.clone()),
            Constant::Int(i) => Constant::Int(*i),
            Constant::StringLiteral(text) => Constant::StringLiteral(text.clone()),
            Constant::Null => Constant::Null,
            Constant::Boolean(b) => Constant::Boolean(*b),
        }
    }
}

impl PartialEq for Constant {
    /// Two constants are equal when they are of one kind and hold the same
    /// value; two floats, when their texts are the same.
    fn eq(&self, other: &Self) -> (b: bool) {
        match (self, other) {
            (Constant::Float(x), Constant::Float(y)) => *x == *y,
            (Constant::Int(x), Constant::Int(y)) => *x == *y,
            (Constant::StringLiteral(x), Constant::StringLiteral(y)) => *x == *y,
            (Constant::Null, Constant::Null) => true,
            (Constant::Boolean(x), Constant::Boolean(y)) => *x == *y,
            _ => false,
        }
    }
}

impl vstd::std_specs::cmp::PartialEqSpecImpl for Constant {
    open spec fn obeys_eq_spec() -> bool {
        true
    }

    open spec fn eq_spec(&self, other: &Self) -> bool {
        self@ == other@
    }
}

/// One lexical unit of a JSON text.
#[derive(Debug)]
pub enum Token {
    StartOfDict,
    StartOfList,
    EndOfDict,
    EndOfList,
    Constant(Constant),
    Colon,
    Comma,
}

/// A [`Token`] as a mathematical value.
pub ghost enum TokenView {
    StartOfDict,
    StartOfList,
    EndOfDict,
    EndOfList,
    Constant(ConstantView),
    Colon,
    Comma,
}

impl View for Token {
    type V = TokenView;

    open spec fn view(&self) -> TokenView {
        match self {
            Token::StartOfDict => TokenView::StartOfDict,
            Token::StartOfList => TokenView::StartOfList,
            Token::EndOfDict => TokenView::EndOfDict,
            Token::EndOfList => TokenView::EndOfList,
            Token::Constant(c) => TokenView::Constant(c@),
            Token::Colon => TokenView::Colon,
            Token::Comma => TokenView::Comma,
        }
    }
}

impl Clone for Token {
    fn clone(&self) -> (t: Self)
        ensures
            t == *self,
    {
        match self {
            Token::StartOfDict => Token::StartOfDict,
            Token::StartOfList => Token::StartOfList,
            Token::EndOfDict => Token::EndOfDict,
            Token::EndOfList => Token::EndOfList,
            Token::Constant(c) => Token::Constant(c.clone()),
            Token::Colon => Token::Colon,
            Token::Comma => Token::Comma,
        }
    }
}

impl PartialEq for Token {
    fn eq(&self, other: &Self) -> (b: bool) {
        match (self, other) {
            (Token::StartOfDict, Token::StartOfDict) => true,
            (Token::StartOfList, Token::StartOfList) => true,
            (Token::EndOfDict, Token::EndOfDict) => true,
            (Token::EndOfList, Token::EndOfList) => true,
            (Token::Constant(x), Token::Constant(y)) => *x == *y,
            (Token::Colon, Token::Colon) => true,
            (Token::Comma, Token::Comma) => true,
            _ => false,
        }
    }
}

impl vstd::std_specs::cmp::PartialEqSpecImpl for Token {
    open spec fn obeys_eq_spec() -> bool {
        true
    }

    open spec fn eq_spec(&self, other: &Self) -> bool {
        self@ == other@
    }
}

/// The views of a sequence of tokens, in the same order.
pub open spec fn tokens_view(tokens: Seq<Token>) -> Seq<TokenView> {
    tokens.map_values(|t: Token| t@)
}

/// The token that a structural character stands for.
pub open spec fn symbol_token(c: char) -> Option<TokenView> {
    if c == '{' {
        Some(TokenView::StartOfDict)
    } else if c == '}' {
        Some(TokenView::EndOfDict)
    } else if c == '[' {
        Some(TokenView::StartOfList)
    } else if c == ']' {
        Some(TokenView::EndOfList)
    } else if c == ':' {
        Some(TokenView::Colon)
    } else if c == ',' {
        Some(TokenView::Comma)
    } else {
        None
    }
}

/// The constant that a text denotes, if any. In order of precedence: a text
/// in double quotes is a string literal (the quotes stripped); `null`; an
/// integer that fits the machine; a floating-point literal; `true` and
/// `false`.
pub open spec fn constant_of(text: Seq<char>) -> Option<ConstantView> {
    if text.len() >= 2 && text.first() == '"' && text.last() == '"' {
        Some(ConstantView::StringLiteral(text.subrange(1, text.len() - 1)))
    } else if text == "null"@ {
        Some(ConstantView::Null)
    } else if let Some(i) = integer_of(text) {
        Some(ConstantView::Int(i))
    } else if is_float_literal(text) {
        Some(ConstantView::Float(text))
    } else if text == "true"@ {
        Some(ConstantView::Boolean(true))
    } else if text == "false"@ {
        Some(ConstantView::Boolean(false))
    } else {
        None
    }
}

/// The token that a text denotes, if any: a structural token for each of the
/// six symbols, and else the constant that the text denotes.
pub open spec fn token_of(text: Seq<char>) -> Option<TokenView> {
    if text.len() == 1 && symbol_token(text[0]) is Some {
        symbol_token(text[0])
    } else {
        match constant_of(text) {
            Some(c) => Some(TokenView::Constant(c)),
            None => None,
        }
    }
}

/// What converting `text` to a token comes to: the token it denotes, or the
/// text itself as the syntax error.
pub open spec fn conversion_of(text: Seq<char>) -> Result<TokenView, Seq<char>> {
    match token_of(text) {
        Some(t) => Ok(t),
        None => Err(text),
    }
}

/// Tells whether `text` is exactly `word`.
fn is_word(text: &Vec<char>, word: &str) -> (b: bool)
    ensures
        b == (text@ == word@),
{
    let w = chars_of(word);
    if text.len() != w.len() {
        return false;
    }
    let mut i: usize = 0;
    while i < w.len()
        invariant
            text.len() == w.len(),
            w@ == word@,
            0 <= i <= w.len(),
            forall|k: int| 0 <= k < i ==> text@[k] == w@[k],
        decreases w.len() - i,
    {
        if text[i] != w[i] {
            return false;
        }
        i += 1;
    }
    assert(text@ =~= w@);
    true
}

/// Converts the characters of a constant.
fn constant_from_chars(text: &Vec<char>) -> (r: Result<Constant, JsonLexError>)
    ensures
        match constant_of(text@) {
            Some(c) => r matches Ok(k) && k@ == c,
            None => r matches Err(e) && e@ == text@,
        },
{
    let n = text.len();
    if n >= 2 && text[0] == '"' && text[n - 1] == '"' {
        return Ok(Constant::StringLiteral(string_of(text, 1, n - 1)));
    }
    if is_word(text, "null") {
        return Ok(Constant::Null);
    }
    if let Some(i) = parse_integer(text) {
        return Ok(Constant::Int(i));
    }
    assert(text@.subrange(0, n as int) == text@);
    if is_float(text) {
        return Ok(Constant::Float(string_of(text, 0, n)));
    }
    if is_word(text, "true") {
        return Ok(Constant::Boolean(true));
    }
    if is_word(text, "false") {
        return Ok(Constant::Boolean(false));
    }
    Err(JsonLexError::InvalidSyntax(string_of(text, 0, n)))
}

/// Converts the characters of a token.
pub(crate) fn token_from_chars(text: &Vec<char>) -> (r: Result<Token, JsonLexError>)
    ensures
        match conversion_of(text@) {
            Ok(t) => r matches Ok(k) && k@ == t,
            Err(snippet) => r matches Err(e) && e@ == snippet,
        },
{
    if text.len() == 1 {
        let c = text[0];
        if c == '{' {
            return Ok(Token::StartOfDict);
        } else if c == '}' {
            return Ok(Token::EndOfDict);
        } else if c == '[' {
            return Ok(Token::StartOfList);
        } else if c == ']' {
            return Ok(Token::EndOfList);
        } else if c == ':' {
            return Ok(Token::Colon);
        } else if c == ',' {
            return Ok(Token::Comma);
        }
    }
    match constant_from_chars(text) {
        Ok(c) => Ok(Token::Constant(c)),
        Err(e) => Err(e),
    }
}

impl Constant {
    /// Reads a constant from its text.
    ///
    /// Returns the constant that `s` denotes, and `InvalidSyntax` holding `s`
    /// where it denotes none.
    pub fn from_str(s: &str) -> (r: Result<Constant, JsonLexError>)
        ensures
            match constant_of(s@) {
                Some(c) => r matches Ok(k) && k@ == c,
                None => r matches Err(e) && e@ == s@,
            },
    {
        let text = chars_of(s);
        constant_from_chars(&text)
    }
}

impl Token {
    /// Reads a token from its text.
    ///
    /// Returns the token that `s` denotes, and `InvalidSyntax` holding `s`
    /// where it denotes none.
    pub fn from_str(s: &str) -> (r: Result<Token, JsonLexError>)
        ensures
            match conversion_of(s@) {
                Ok(t) => r matches Ok(k) && k@ == t,
                Err(snippet) => r matches Err(e) && e@ == snippet,
            },
    {
        let text = chars_of(s);
        token_from_chars(&text)
    }
}

} // verus!
