//! The parser: from JSON text, or from its tokens, to a tree.

use crate::grammar::{
    closing, dict_body, dict_entries, document, list_body, list_items, value_at, value_end,
    ParseErrorView,
};
use crate::lexer::{lex, tokenize};
use crate::token::{tokens_view, Constant, JsonLexError, Token};
use crate::nesting::{balanced, lemma_document_well_nested, lemma_unbalanced_fails, well_nested};
use crate::value::{jsons_view, lemma_list_view, pairs_map};
pub use crate::value::{Json, JsonDict, JsonView};
use vstd::prelude::*;
use vstd::slice::slice_subrange;

verus! {

/// Why a sequence of tokens is no document.
#[derive(Debug)]
pub enum JsonParseError {
    /// A token that may not stand where it stands.
    UnexpectedToken(Token),
    /// The tokens ended inside a structure.
    UnexpectedEndOfInput,
}

impl View for JsonParseError {
    type V = ParseErrorView;

    open spec fn view(&self) -> ParseErrorView {
        match self {
            JsonParseError::UnexpectedToken(token) => ParseErrorView::UnexpectedToken(token@),
            JsonParseError::UnexpectedEndOfInput => ParseErrorView::UnexpectedEndOfInput,
        }
    }
}

/// Why a text is no document: it could not be cut into tokens, or its tokens
/// are no document.
#[derive(Debug)]
pub enum JsonError {
    JsonLexError(JsonLexError),
    JsonParseError(JsonParseError),
}

/// A [`JsonError`] as a mathematical value.
pub ghost enum JsonErrorView {
    /// The text that is no token.
    JsonLexError(Seq<char>),
    JsonParseError(ParseErrorView),
}

impl View for JsonError {
    type V = JsonErrorView;

    open spec fn view(&self) -> JsonErrorView {
        match self {
            JsonError::JsonLexError(e) => JsonErrorView::JsonLexError(e@),
            JsonError::JsonParseError(e) => JsonErrorView::JsonParseError(e@),
        }
    }
}

/// The tree that a text denotes: that of its tokens, unless it has a syntax
/// error.
pub open spec fn parse_text(text: Seq<char>) -> Result<JsonView, JsonErrorView> {
    match lex(text) {
        Err(snippet) => Err(JsonErrorView::JsonLexError(snippet)),
        Ok(tokens) => match document(tokens) {
            Ok(tree) => Ok(tree),
            Err(e) => Err(JsonErrorView::JsonParseError(e)),
        },
    }
}

/// Whatever text is parsed, its tokens have their brackets properly nested
/// and balanced.
pub proof fn lemma_parsed_text_is_balanced(text: Seq<char>)
    requires
        parse_text(text) is Ok,
    ensures
        lex(text) is Ok,
        well_nested(lex(text)->Ok_0),
        balanced(lex(text)->Ok_0),
{
    lemma_document_well_nested(lex(text)->Ok_0);
}

/// A text whose tokens have unbalanced brackets is never parsed: it fails
/// with a parse error.
pub proof fn lemma_unbalanced_text_fails(text: Seq<char>)
    requires
        lex(text) is Ok,
        !balanced(lex(text)->Ok_0),
    ensures
        parse_text(text) matches Err(JsonErrorView::JsonParseError(_)),
{
    lemma_unbalanced_fails(lex(text)->Ok_0);
}

/// `result` is `expected`, view for view.
pub open spec fn parsed_as(
    result: Result<Json, JsonParseError>,
    expected: Result<JsonView, ParseErrorView>,
) -> bool {
    match expected {
        Ok(tree) => result matches Ok(json) && json@ == tree,
        Err(e) => result matches Err(error) && error@ == e,
    }
}

/// Finds the closing token that matches an opening token just before `from`,
/// by counting the open structures of that kind.
fn find_closing(tokens: &[Token], open: &Token, close: &Token, from: usize) -> (end: Option<usize>)
    requires
        1 <= from <= tokens@.len(),
    ensures
        closing(tokens_view(tokens@), open@, close@, from as int, 1) == match end {
            Some(at) => Some(at as int),
            None => None,
        },
        end matches Some(at) ==> from <= at < tokens@.len(),
{
    let mut depth: usize = 1;
    let mut at: usize = from;
    while at < tokens.len()
        invariant
            from <= at <= tokens@.len(),
            1 <= from,
            1 <= depth <= at - from + 1,
            closing(tokens_view(tokens@), open@, close@, from as int, 1) == closing(
                tokens_view(tokens@),
                open@,
                close@,
                at as int,
                depth as nat,
            ),
        decreases tokens@.len() - at,
    {
        if tokens[at] == *close {
            if depth <= 1 {
                return Some(at);
            }
            depth -= 1;
        } else if tokens[at] == *open {
            depth += 1;
        }
        at += 1;
    }
    None
}

/// Parses the value that begins at `at`, and tells where it ends.
fn parse_value(tokens: &[Token], at: usize) -> (r: Result<(Json, usize), JsonParseError>)
    requires
        at < tokens@.len(),
    ensures
        match value_at(tokens_view(tokens@), at as int) {
            Ok(tree) => r matches Ok((json, next)) && json@ == tree && next == value_end(
                tokens_view(tokens@),
                at as int,
            ) && at < next <= tokens@.len(),
            Err(e) => r matches Err(error) && error@ == e,
        },
    decreases tokens@.len(), 0nat,
{
    let ghost all = tokens_view(tokens@);
    match &tokens[at] {
        Token::Constant(constant) => Ok((Json::Value(constant.clone()), at + 1)),
        Token::StartOfDict => {
            match find_closing(tokens, &Token::StartOfDict, &Token::EndOfDict, at + 1) {
                Some(end) => {
                    let inner = slice_subrange(tokens, at + 1, end);
                    assert(tokens_view(inner@) == all.subrange(at + 1, end as int));
                    match parse_dict(inner) {
                        Ok(json) => Ok((json, end + 1)),
                        Err(e) => Err(e),
                    }
                },
                None => Err(JsonParseError::UnexpectedEndOfInput),
            }
        },
        Token::StartOfList => {
            match find_closing(tokens, &Token::StartOfList, &Token::EndOfList, at + 1) {
                Some(end) => {
                    let inner = slice_subrange(tokens, at + 1, end);
                    assert(tokens_view(inner@) == all.subrange(at + 1, end as int));
                    match parse_list(inner) {
                        Ok(json) => Ok((json, end + 1)),
                        Err(e) => Err(e),
                    }
                },
                None => Err(JsonParseError::UnexpectedEndOfInput),
            }
        },
        other => Err(JsonParseError::UnexpectedToken(other.clone())),
    }
}

/// Parses the body of a dictionary: the tokens between its braces.
///
/// Returns the dictionary that the body denotes. Fails with
/// `UnexpectedToken` at the first token that may not stand where it stands,
/// and with `UnexpectedEndOfInput` where the tokens end while a key, a colon,
/// a value or a closing bracket is still expected.
pub fn parse_dict(tokens: &[Token]) -> (r: Result<Json, JsonParseError>)
    ensures
        parsed_as(r, dict_body(tokens_view(tokens@))),
    decreases tokens@.len(), 1nat,
{
    let ghost all = tokens_view(tokens@);
    let mut dict = JsonDict::new();
    if tokens.len() == 0 {
        return Ok(Json::Dict(dict));
    }
    let ghost mut entries: Seq<(Seq<char>, JsonView)> = Seq::empty();
    let mut at: usize = 0;
    loop
        invariant
            all == tokens_view(tokens@),
            0 <= at <= tokens@.len(),
            tokens@.len() > 0,
            dict@ == pairs_map(entries),
            dict_entries(all, 0, Seq::empty()) == dict_entries(all, at as int, entries),
        decreases tokens@.len() - at,
    {
        if at >= tokens.len() {
            return Err(JsonParseError::UnexpectedEndOfInput);
        }
        let key = match &tokens[at] {
            Token::Constant(Constant::StringLiteral(key)) => key.clone(),
            other => {
                return Err(JsonParseError::UnexpectedToken(other.clone()));
            },
        };
        if at + 1 >= tokens.len() {
            return Err(JsonParseError::UnexpectedEndOfInput);
        }
        match &tokens[at + 1] {
            Token::Colon => {},
            other => {
                return Err(JsonParseError::UnexpectedToken(other.clone()));
            },
        }
        if at + 2 >= tokens.len() {
            return Err(JsonParseError::UnexpectedEndOfInput);
        }
        let (value, next) = match parse_value(tokens, at + 2) {
            Ok(found) => found,
            Err(e) => {
                return Err(e);
            },
        };
        proof {
            assert(entries.push((key@, value@)).drop_last() == entries);
            entries = entries.push((key@, value@));
        }
        dict.insert(key, value);
        if next >= tokens.len() {
            return Ok(Json::Dict(dict));
        }
        match &tokens[next] {
            Token::Comma => {},
            other => {
                return Err(JsonParseError::UnexpectedToken(other.clone()));
            },
        }
        at = next + 1;
    }
}

/// Parses the body of a list: the tokens between its brackets.
///
/// Returns the list that the body denotes, its items in source order. Fails
/// with `UnexpectedToken` at the first token that may not stand where it
/// stands, and with `UnexpectedEndOfInput` where the tokens end while a value
/// or a closing bracket is still expected.
pub fn parse_list(tokens: &[Token]) -> (r: Result<Json, JsonParseError>)
    ensures
        parsed_as(r, list_body(tokens_view(tokens@))),
    decreases tokens@.len(), 1nat,
{
    let ghost all = tokens_view(tokens@);
    let mut items: Vec<Json> = Vec::new();
    if tokens.len() == 0 {
        proof {
            lemma_list_view(items);
            assert(jsons_view(items@) == Seq::<JsonView>::empty());
        }
        return Ok(Json::List(items));
    }
    let mut at: usize = 0;
    assert(jsons_view(items@) == Seq::<JsonView>::empty());
    loop
        invariant
            all == tokens_view(tokens@),
            0 <= at <= tokens@.len(),
            tokens@.len() > 0,
            list_items(all, 0, Seq::empty()) == list_items(all, at as int, jsons_view(items@)),
        decreases tokens@.len() - at,
    {
        if at >= tokens.len() {
            return Err(JsonParseError::UnexpectedEndOfInput);
        }
        let (value, next) = match parse_value(tokens, at) {
            Ok(found) => found,
            Err(e) => {
                return Err(e);
            },
        };
        assert(jsons_view(items@.push(value)) == jsons_view(items@).push(value@));
        items.push(value);
        if next >= tokens.len() {
            proof {
                lemma_list_view(items);
            }
            return Ok(Json::List(items));
        }
        match &tokens[next] {
            Token::Comma => {},
            other => {
                return Err(JsonParseError::UnexpectedToken(other.clone()));
            },
        }
        at = next + 1;
    }
}

/// Parses the tokens of a whole document.
///
/// Returns the tree that the tokens denote. Fails with
/// `UnexpectedEndOfInput` on fewer than two tokens, with `UnexpectedToken`
/// where the first token opens neither a dictionary nor a list or the last
/// token is not the closing token for the first, and as the body fails.
pub fn parse_tokens(tokens: &[Token]) -> (r: Result<Json, JsonParseError>)
    ensures
        parsed_as(r, document(tokens_view(tokens@))),
{
    let n = tokens.len();
    if n < 2 {
        return Err(JsonParseError::UnexpectedEndOfInput);
    }
    let body = slice_subrange(tokens, 1, n - 1);
    assert(tokens_view(body@) == tokens_view(tokens@).subrange(1, n - 1));
    match &tokens[0] {
        Token::StartOfDict => match &tokens[n - 1] {
            Token::EndOfDict => parse_dict(body),
            last => Err(JsonParseError::UnexpectedToken(last.clone())),
        },
        Token::StartOfList => match &tokens[n - 1] {
            Token::EndOfList => parse_list(body),
            last => Err(JsonParseError::UnexpectedToken(last.clone())),
        },
        first => Err(JsonParseError::UnexpectedToken(first.clone())),
    }
}

/// Parses a JSON text.
///
/// Returns the tree that the text denotes. Fails with the lexical error of
/// the text if it has one, and else with the parse error of its tokens.
pub fn parse(json: &str) -> (r: Result<Json, JsonError>)
    ensures
        match parse_text(json@) {
            Ok(tree) => r matches Ok(parsed) && parsed@ == tree,
            Err(e) => r matches Err(error) && error@ == e,
        },
{
    let tokens = match tokenize(json) {
        Ok(tokens) => tokens,
        Err(e) => {
            return Err(JsonError::JsonLexError(e));
        },
    };
    match parse_tokens(tokens.as_slice()) {
        Ok(tree) => Ok(tree),
        Err(e) => Err(JsonError::JsonParseError(e)),
    }
}

} // verus!
