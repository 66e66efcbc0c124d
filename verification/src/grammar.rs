//! What a sequence of tokens means: the grammar of documents, stated as
//! functions on sequences of tokens.
//!
//! A document is a dictionary or a list: an opening token, a body, and the
//! matching closing token. The body of a dictionary is a run of
//! `key : value` entries with commas between them; the body of a list is a
//! run of values with commas between them. A value is a constant or a nested
//! dictionary or list, whose own body reaches to the closing token that a
//! count of the open brackets of its kind finds.

use crate::token::{ConstantView, TokenView};
use crate::value::{pairs_map, JsonView};
use vstd::prelude::*;

verus! {

/// Why a sequence of tokens is no document, as a mathematical value.
pub ghost enum ParseErrorView {
    /// A token that may not stand where it stands.
    UnexpectedToken(TokenView),
    /// The tokens ended inside a structure.
    UnexpectedEndOfInput,
}

/// The position of the closing token that matches an opening token before
/// `from`, with `depth` structures of the kind open at `from`: each `open`
/// on the way adds one to the depth, each `close` takes one away, and the
/// `close` that takes the last one away is the match. `None` where the
/// tokens end before that.
pub open spec fn closing(
    tokens: Seq<TokenView>,
    open: TokenView,
    close: TokenView,
    from: int,
    depth: nat,
) -> Option<int>
    decreases tokens.len() - from,
{
    if from < 0 || from >= tokens.len() {
        None
    } else if tokens[from] == close {
        if depth <= 1 {
            Some(from)
        } else {
            closing(tokens, open, close, from + 1, (depth - 1) as nat)
        }
    } else if tokens[from] == open {
        closing(tokens, open, close, from + 1, depth + 1)
    } else {
        closing(tokens, open, close, from + 1, depth)
    }
}

/// The tokens strictly between the opening token at `at` and the closing
/// token that matches it; `None` where nothing closes it.
pub open spec fn enclosed(tokens: Seq<TokenView>, at: int, open: TokenView, close: TokenView)
    -> Option<Seq<TokenView>> {
    match closing(tokens, open, close, at + 1, 1) {
        Some(end) if at < end < tokens.len() => Some(tokens.subrange(at + 1, end)),
        _ => None,
    }
}

/// Where the value that begins at `at` ends: the position after a constant,
/// or after the closing token of a nested structure.
pub open spec fn value_end(tokens: Seq<TokenView>, at: int) -> int {
    match tokens[at] {
        TokenView::StartOfDict => match enclosed(
            tokens,
            at,
            TokenView::StartOfDict,
            TokenView::EndOfDict,
        ) {
            Some(inner) => at + inner.len() + 2,
            None => at + 1,
        },
        TokenView::StartOfList => match enclosed(
            tokens,
            at,
            TokenView::StartOfList,
            TokenView::EndOfList,
        ) {
            Some(inner) => at + inner.len() + 2,
            None => at + 1,
        },
        _ => at + 1,
    }
}

/// The value that begins at `at`: a constant, or a nested dictionary or list
/// whose body is what its brackets enclose. An opening bracket that nothing
/// closes is an unexpected end; any other token is unexpected there.
pub open spec fn value_at(tokens: Seq<TokenView>, at: int) -> Result<JsonView, ParseErrorView>
    recommends
        0 <= at < tokens.len(),
    decreases tokens.len(), 0nat,
{
    match tokens[at] {
        TokenView::Constant(c) => Ok(JsonView::Value(c)),
        TokenView::StartOfDict => match enclosed(
            tokens,
            at,
            TokenView::StartOfDict,
            TokenView::EndOfDict,
        ) {
            Some(inner) => dict_body(inner),
            None => Err(ParseErrorView::UnexpectedEndOfInput),
        },
        TokenView::StartOfList => match enclosed(
            tokens,
            at,
            TokenView::StartOfList,
            TokenView::EndOfList,
        ) {
            Some(inner) => list_body(inner),
            None => Err(ParseErrorView::UnexpectedEndOfInput),
        },
        other => Err(ParseErrorView::UnexpectedToken(other)),
    }
}

/// The entries of a dictionary body from position `at` on, where a key is
/// expected, added in source order to the entries `before`.
///
/// The body is read in four states that follow one another: a key is
/// expected, which must be a string literal; then a colon; then a value; then
/// a comma, which leads back to the first state, or the end of the body.
/// Tokens that end where a key, a colon or a value is still expected are an
/// unexpected end; a token that the state does not expect is unexpected.
pub open spec fn dict_entries(
    tokens: Seq<TokenView>,
    at: int,
    before: Seq<(Seq<char>, JsonView)>,
) -> Result<Seq<(Seq<char>, JsonView)>, ParseErrorView>
    decreases tokens.len(), tokens.len() - at + 1,
{
    if at < 0 || at >= tokens.len() {
        Err(ParseErrorView::UnexpectedEndOfInput)
    } else if let TokenView::Constant(ConstantView::StringLiteral(key)) = tokens[at] {
        if at + 1 >= tokens.len() {
            Err(ParseErrorView::UnexpectedEndOfInput)
        } else if tokens[at + 1] != TokenView::Colon {
            Err(ParseErrorView::UnexpectedToken(tokens[at + 1]))
        } else if at + 2 >= tokens.len() {
            Err(ParseErrorView::UnexpectedEndOfInput)
        } else {
            match value_at(tokens, at + 2) {
                Err(e) => Err(e),
                Ok(value) => {
                    let entries = before.push((key, value));
                    let next = value_end(tokens, at + 2);
                    if next >= tokens.len() {
                        Ok(entries)
                    } else if tokens[next] == TokenView::Comma {
                        dict_entries(tokens, next + 1, entries)
                    } else {
                        Err(ParseErrorView::UnexpectedToken(tokens[next]))
                    }
                },
            }
        }
    } else {
        Err(ParseErrorView::UnexpectedToken(tokens[at]))
    }
}

/// The items of a list body from position `at` on, where a value is
/// expected, added in source order to the items `before`.
///
/// The body is read in two states that follow one another: a value is
/// expected; then a comma, which leads back to the first state, or the end of
/// the body. Tokens that end where a value is still expected are an
/// unexpected end; a token that the state does not expect is unexpected.
pub open spec fn list_items(tokens: Seq<TokenView>, at: int, before: Seq<JsonView>) -> Result<
    Seq<JsonView>,
    ParseErrorView,
>
    decreases tokens.len(), tokens.len() - at + 1,
{
    if at < 0 || at >= tokens.len() {
        Err(ParseErrorView::UnexpectedEndOfInput)
    } else {
        match value_at(tokens, at) {
            Err(e) => Err(e),
            Ok(value) => {
                let items = before.push(value);
                let next = value_end(tokens, at);
                if next >= tokens.len() {
                    Ok(items)
                } else if tokens[next] == TokenView::Comma {
                    list_items(tokens, next + 1, items)
                } else {
                    Err(ParseErrorView::UnexpectedToken(tokens[next]))
                }
            },
        }
    }
}

/// The top-level entries of a dictionary body, in source order. An empty body
/// has none.
pub open spec fn dict_pairs(tokens: Seq<TokenView>) -> Result<
    Seq<(Seq<char>, JsonView)>,
    ParseErrorView,
>
    decreases tokens.len(), tokens.len() + 2,
{
    if tokens.len() == 0 {
        Ok(Seq::empty())
    } else {
        dict_entries(tokens, 0, Seq::empty())
    }
}

/// The dictionary that a body denotes: its entries written into a mapping in
/// source order, so that of two entries with one key the later one stays.
pub open spec fn dict_body(tokens: Seq<TokenView>) -> Result<JsonView, ParseErrorView>
    decreases tokens.len(), tokens.len() + 3,
{
    match dict_pairs(tokens) {
        Ok(entries) => Ok(JsonView::Dict(pairs_map(entries))),
        Err(e) => Err(e),
    }
}

/// The list that a body denotes: its values in source order. An empty body
/// denotes the empty list.
pub open spec fn list_body(tokens: Seq<TokenView>) -> Result<JsonView, ParseErrorView>
    decreases tokens.len(), tokens.len() + 2,
{
    if tokens.len() == 0 {
        Ok(JsonView::List(Seq::empty()))
    } else {
        match list_items(tokens, 0, Seq::empty()) {
            Ok(items) => Ok(JsonView::List(items)),
            Err(e) => Err(e),
        }
    }
}

/// The tree that a whole sequence of tokens denotes.
///
/// There must be at least two tokens. The first one opens a dictionary or a
/// list, the last one must be the closing token of that kind, and the tokens
/// between them are the body.
pub open spec fn document(tokens: Seq<TokenView>) -> Result<JsonView, ParseErrorView> {
    if tokens.len() < 2 {
        Err(ParseErrorView::UnexpectedEndOfInput)
    } else {
        let body = tokens.subrange(1, tokens.len() - 1);
        match tokens.first() {
            TokenView::StartOfDict => if tokens.last() == TokenView::EndOfDict {
                dict_body(body)
            } else {
                Err(ParseErrorView::UnexpectedToken(tokens.last()))
            },
            TokenView::StartOfList => if tokens.last() == TokenView::EndOfList {
                list_body(body)
            } else {
                Err(ParseErrorView::UnexpectedToken(tokens.last()))
            },
            other => Err(ParseErrorView::UnexpectedToken(other)),
        }
    }
}

/// The positions at which the top-level items of a list body begin, from the
/// item at `at` on.
pub open spec fn item_starts(tokens: Seq<TokenView>, at: int) -> Seq<int>
    decreases tokens.len() - at,
{
    if at < 0 || at >= tokens.len() {
        Seq::empty()
    } else if value_end(tokens, at) >= tokens.len() {
        seq![at]
    } else {
        seq![at] + item_starts(tokens, value_end(tokens, at) + 1)
    }
}

/// The positions of the keys of the top-level entries of a dictionary body,
/// from the entry at `at` on.
pub open spec fn entry_starts(tokens: Seq<TokenView>, at: int) -> Seq<int>
    decreases tokens.len() - at,
{
    if at < 0 || at >= tokens.len() {
        Seq::empty()
    } else if value_end(tokens, at + 2) >= tokens.len() {
        seq![at]
    } else {
        seq![at] + entry_starts(tokens, value_end(tokens, at + 2) + 1)
    }
}

} // verus!
