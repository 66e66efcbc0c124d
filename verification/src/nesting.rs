//! Brackets: in what the grammar accepts they are balanced and properly
//! nested, and a document nested inside another structure is found again by
//! the count of open brackets, whatever the depth.

use crate::grammar::{
    closing, dict_body, dict_entries, document, enclosed, list_body, list_items, value_at,
    value_end, ParseErrorView,
};
use crate::token::{ConstantView, TokenView};
use crate::value::{pairs_map, JsonView};
use vstd::prelude::*;

verus! {

/// What one token adds to the number of open structures of a kind.
pub open spec fn step(token: TokenView, open: TokenView, close: TokenView) -> int {
    if token == close {
        -1
    } else if token == open {
        1
    } else {
        0
    }
}

/// By how much the structures of a kind opened among `tokens[lo..hi]`
/// outnumber those closed there.
pub open spec fn rise(tokens: Seq<TokenView>, open: TokenView, close: TokenView, lo: int, hi: int)
    -> int
    decreases hi - lo,
{
    if hi <= lo {
        0
    } else {
        rise(tokens, open, close, lo, hi - 1) + step(tokens[hi - 1], open, close)
    }
}

/// The brackets of a kind are properly nested in `tokens[lo..hi]`: none is
/// closed before it is opened, and none is left open.
pub open spec fn nested(tokens: Seq<TokenView>, open: TokenView, close: TokenView, lo: int, hi: int)
    -> bool {
    &&& rise(tokens, open, close, lo, hi) == 0
    &&& forall|k: int| lo <= k <= hi ==> #[trigger] rise(tokens, open, close, lo, k) >= 0
}

/// The braces and the square brackets are each properly nested in all of
/// `tokens`.
pub open spec fn well_nested(tokens: Seq<TokenView>) -> bool {
    &&& nested(tokens, TokenView::StartOfDict, TokenView::EndOfDict, 0, tokens.len() as int)
    &&& nested(tokens, TokenView::StartOfList, TokenView::EndOfList, 0, tokens.len() as int)
}

/// How many of the tokens are `token`.
pub open spec fn count(tokens: Seq<TokenView>, token: TokenView) -> nat
    decreases tokens.len(),
{
    if tokens.len() == 0 {
        0
    } else if tokens.last() == token {
        count(tokens.drop_last(), token) + 1
    } else {
        count(tokens.drop_last(), token)
    }
}

/// There are as many opening braces as closing ones, and as many opening
/// square brackets as closing ones.
pub open spec fn balanced(tokens: Seq<TokenView>) -> bool {
    &&& count(tokens, TokenView::StartOfDict) == count(tokens, TokenView::EndOfDict)
    &&& count(tokens, TokenView::StartOfList) == count(tokens, TokenView::EndOfList)
}

/// The rise over a range is the sum of the rises over its two parts.
pub proof fn lemma_rise_split(
    tokens: Seq<TokenView>,
    open: TokenView,
    close: TokenView,
    lo: int,
    mid: int,
    hi: int,
)
    requires
        lo <= mid <= hi,
    ensures
        rise(tokens, open, close, lo, hi) == rise(tokens, open, close, lo, mid) + rise(
            tokens,
            open,
            close,
            mid,
            hi,
        ),
    decreases hi - mid,
{
    if mid < hi {
        lemma_rise_split(tokens, open, close, lo, mid, hi - 1);
    }
}

/// The rise depends only on the tokens of the range: two sequences that agree
/// there, place for place, have the same rise.
pub proof fn lemma_rise_shift(
    tokens: Seq<TokenView>,
    other: Seq<TokenView>,
    open: TokenView,
    close: TokenView,
    lo: int,
    hi: int,
    shift: int,
)
    requires
        forall|k: int| lo <= k < hi ==> tokens[k] == other[k + shift],
    ensures
        rise(tokens, open, close, lo, hi) == rise(other, open, close, lo + shift, hi + shift),
    decreases hi - lo,
{
    if lo < hi {
        lemma_rise_shift(tokens, other, open, close, lo, hi - 1, shift);
    }
}

/// The rise over all the tokens is the difference of the two counts.
pub proof fn lemma_rise_counts(tokens: Seq<TokenView>, open: TokenView, close: TokenView)
    requires
        open != close,
    ensures
        rise(tokens, open, close, 0, tokens.len() as int) == count(tokens, open) - count(
            tokens,
            close,
        ),
    decreases tokens.len(),
{
    if tokens.len() > 0 {
        let front = tokens.drop_last();
        lemma_rise_counts(front, open, close);
        lemma_rise_shift(front, tokens, open, close, 0, front.len() as int, 0);
    }
}

/// What `closing` finds is a closing token at or after the start of the
/// search.
pub proof fn lemma_closing_found(
    tokens: Seq<TokenView>,
    open: TokenView,
    close: TokenView,
    from: int,
    depth: nat,
)
    requires
        closing(tokens, open, close, from, depth) is Some,
    ensures
        from <= closing(tokens, open, close, from, depth)->0 < tokens.len(),
        tokens[closing(tokens, open, close, from, depth)->0] == close,
    decreases tokens.len() - from,
{
    if 0 <= from < tokens.len() {
        if tokens[from] == close {
            if depth > 1 {
                lemma_closing_found(tokens, open, close, from + 1, (depth - 1) as nat);
            }
        } else if tokens[from] == open {
            lemma_closing_found(tokens, open, close, from + 1, depth + 1);
        } else {
            lemma_closing_found(tokens, open, close, from + 1, depth);
        }
    }
}

/// Where the open structures stay at one or more up to a closing token that
/// takes the last one away, `closing` finds that token.
pub proof fn lemma_closing_finds(
    tokens: Seq<TokenView>,
    open: TokenView,
    close: TokenView,
    from: int,
    depth: nat,
    end: int,
)
    requires
        0 <= from <= end < tokens.len(),
        depth >= 1,
        forall|k: int| from <= k <= end ==> depth + #[trigger] rise(tokens, open, close, from, k) >= 1,
        depth + rise(tokens, open, close, from, end) == 1,
        tokens[end] == close,
    ensures
        closing(tokens, open, close, from, depth) == Some(end),
    decreases end - from,
{
    if from < end {
        let next = (depth + step(tokens[from], open, close)) as nat;
        assert(rise(tokens, open, close, from, from + 1) == step(tokens[from], open, close)) by {
            assert(rise(tokens, open, close, from, from) == 0);
        }
        assert forall|k: int| from + 1 <= k <= end implies next + #[trigger] rise(
            tokens,
            open,
            close,
            from + 1,
            k,
        ) >= 1 by {
            lemma_rise_split(tokens, open, close, from, from + 1, k);
            assert(depth + rise(tokens, open, close, from, k) >= 1);
        }
        lemma_rise_split(tokens, open, close, from, from + 1, end);
        assert(depth + rise(tokens, open, close, from, from + 1) >= 1);
        lemma_closing_finds(tokens, open, close, from + 1, next, end);
    } else {
        assert(rise(tokens, open, close, from, end) == 0);
    }
}

/// One of the two kinds of brackets: braces, or square brackets.
pub open spec fn is_bracket_pair(open: TokenView, close: TokenView) -> bool {
    ||| open == TokenView::StartOfDict && close == TokenView::EndOfDict
    ||| open == TokenView::StartOfList && close == TokenView::EndOfList
}

/// Two properly nested ranges, one after the other, make a properly nested
/// range.
pub proof fn lemma_nested_join(
    tokens: Seq<TokenView>,
    open: TokenView,
    close: TokenView,
    lo: int,
    mid: int,
    hi: int,
)
    requires
        lo <= mid <= hi,
        nested(tokens, open, close, lo, mid),
        nested(tokens, open, close, mid, hi),
    ensures
        nested(tokens, open, close, lo, hi),
{
    lemma_rise_split(tokens, open, close, lo, mid, hi);
    assert forall|k: int| lo <= k <= hi implies #[trigger] rise(tokens, open, close, lo, k)
        >= 0 by {
        if k > mid {
            lemma_rise_split(tokens, open, close, lo, mid, k);
            assert(rise(tokens, open, close, mid, k) >= 0);
        }
    }
}

/// A token that is no bracket of the kind is a properly nested range.
pub proof fn lemma_nested_plain(tokens: Seq<TokenView>, open: TokenView, close: TokenView, at: int)
    requires
        tokens[at] != open,
        tokens[at] != close,
    ensures
        nested(tokens, open, close, at, at + 1),
{
    assert(rise(tokens, open, close, at, at) == 0);
    assert(rise(tokens, open, close, at, at + 1) == 0);
    assert forall|k: int| at <= k <= at + 1 implies #[trigger] rise(tokens, open, close, at, k)
        >= 0 by {
        if k == at {
        } else {
            assert(k == at + 1);
        }
    }
}

/// A properly nested range between an opening bracket and a closing one is,
/// with the two, a properly nested range.
pub proof fn lemma_nested_wrapped(
    tokens: Seq<TokenView>,
    open: TokenView,
    close: TokenView,
    lo: int,
    hi: int,
)
    requires
        lo + 2 <= hi,
        open != close,
        tokens[lo] == open,
        tokens[hi - 1] == close,
        nested(tokens, open, close, lo + 1, hi - 1),
    ensures
        nested(tokens, open, close, lo, hi),
{
    assert(rise(tokens, open, close, lo, lo) == 0);
    assert(rise(tokens, open, close, lo, lo + 1) == 1);
    assert forall|k: int| lo <= k <= hi implies #[trigger] rise(tokens, open, close, lo, k)
        >= 0 by {
        if lo < k {
            lemma_rise_split(tokens, open, close, lo, lo + 1, k);
            if k < hi {
                assert(rise(tokens, open, close, lo + 1, k) >= 0);
            } else {
                assert(rise(tokens, open, close, lo + 1, hi - 1) == 0);
            }
        }
    }
    lemma_rise_split(tokens, open, close, lo, lo + 1, hi);
}

/// Proper nesting depends only on the tokens of the range.
pub proof fn lemma_nested_shift(
    tokens: Seq<TokenView>,
    other: Seq<TokenView>,
    open: TokenView,
    close: TokenView,
    lo: int,
    hi: int,
    shift: int,
)
    requires
        forall|k: int| lo <= k < hi ==> tokens[k] == other[k + shift],
        nested(tokens, open, close, lo, hi),
    ensures
        nested(other, open, close, lo + shift, hi + shift),
{
    lemma_rise_shift(tokens, other, open, close, lo, hi, shift);
    assert forall|k: int| lo + shift <= k <= hi + shift implies #[trigger] rise(
        other,
        open,
        close,
        lo + shift,
        k,
    ) >= 0 by {
        lemma_rise_shift(tokens, other, open, close, lo, k - shift, shift);
        assert(rise(tokens, open, close, lo, k - shift) >= 0);
    }
}

/// A value that the grammar accepts ends within the tokens, and its brackets
/// are properly nested.
pub proof fn lemma_value_nested(
    tokens: Seq<TokenView>,
    at: int,
    open: TokenView,
    close: TokenView,
)
    requires
        is_bracket_pair(open, close),
        0 <= at < tokens.len(),
        value_at(tokens, at) is Ok,
    ensures
        at < value_end(tokens, at) <= tokens.len(),
        nested(tokens, open, close, at, value_end(tokens, at)),
    decreases tokens.len(), 0nat,
{
    match tokens[at] {
        TokenView::StartOfDict => {
            lemma_closing_found(tokens, TokenView::StartOfDict, TokenView::EndOfDict, at + 1, 1);
            let inner = enclosed(tokens, at, TokenView::StartOfDict, TokenView::EndOfDict)->0;
            lemma_dict_nested(inner, open, close);
            lemma_nested_shift(inner, tokens, open, close, 0, inner.len() as int, at + 1);
            let end = at + inner.len() + 2;
            if open == TokenView::StartOfDict {
                lemma_nested_wrapped(tokens, open, close, at, end);
            } else {
                lemma_nested_plain(tokens, open, close, at);
                lemma_nested_plain(tokens, open, close, end - 1);
                lemma_nested_join(tokens, open, close, at, at + 1, end - 1);
                lemma_nested_join(tokens, open, close, at, end - 1, end);
            }
        },
        TokenView::StartOfList => {
            lemma_closing_found(tokens, TokenView::StartOfList, TokenView::EndOfList, at + 1, 1);
            let inner = enclosed(tokens, at, TokenView::StartOfList, TokenView::EndOfList)->0;
            lemma_list_nested(inner, open, close);
            lemma_nested_shift(inner, tokens, open, close, 0, inner.len() as int, at + 1);
            let end = at + inner.len() + 2;
            if open == TokenView::StartOfList {
                lemma_nested_wrapped(tokens, open, close, at, end);
            } else {
                lemma_nested_plain(tokens, open, close, at);
                lemma_nested_plain(tokens, open, close, end - 1);
                lemma_nested_join(tokens, open, close, at, at + 1, end - 1);
                lemma_nested_join(tokens, open, close, at, end - 1, end);
            }
        },
        _ => {
            lemma_nested_plain(tokens, open, close, at);
        },
    }
}

/// The entries that the grammar accepts from `at` on reach to the end of the
/// tokens, and their brackets are properly nested.
pub proof fn lemma_entries_nested(
    tokens: Seq<TokenView>,
    at: int,
    before: Seq<(Seq<char>, JsonView)>,
    open: TokenView,
    close: TokenView,
)
    requires
        is_bracket_pair(open, close),
        dict_entries(tokens, at, before) is Ok,
    ensures
        0 <= at < tokens.len(),
        nested(tokens, open, close, at, tokens.len() as int),
    decreases tokens.len(), tokens.len() - at + 1,
{
    let key = tokens[at]->Constant_0->StringLiteral_0;
    let value = value_at(tokens, at + 2)->Ok_0;
    let next = value_end(tokens, at + 2);
    lemma_nested_plain(tokens, open, close, at);
    lemma_nested_plain(tokens, open, close, at + 1);
    lemma_value_nested(tokens, at + 2, open, close);
    lemma_nested_join(tokens, open, close, at, at + 1, at + 2);
    lemma_nested_join(tokens, open, close, at, at + 2, next);
    if next < tokens.len() {
        lemma_entries_nested(tokens, next + 1, before.push((key, value)), open, close);
        lemma_nested_plain(tokens, open, close, next);
        lemma_nested_join(tokens, open, close, at, next, next + 1);
        lemma_nested_join(tokens, open, close, at, next + 1, tokens.len() as int);
    }
}

/// The items that the grammar accepts from `at` on reach to the end of the
/// tokens, and their brackets are properly nested.
pub proof fn lemma_items_nested(
    tokens: Seq<TokenView>,
    at: int,
    before: Seq<JsonView>,
    open: TokenView,
    close: TokenView,
)
    requires
        is_bracket_pair(open, close),
        list_items(tokens, at, before) is Ok,
    ensures
        0 <= at < tokens.len(),
        nested(tokens, open, close, at, tokens.len() as int),
    decreases tokens.len(), tokens.len() - at + 1,
{
    let value = value_at(tokens, at)->Ok_0;
    let next = value_end(tokens, at);
    lemma_value_nested(tokens, at, open, close);
    if next < tokens.len() {
        lemma_items_nested(tokens, next + 1, before.push(value), open, close);
        lemma_nested_plain(tokens, open, close, next);
        lemma_nested_join(tokens, open, close, at, next, next + 1);
        lemma_nested_join(tokens, open, close, at, next + 1, tokens.len() as int);
    }
}

/// In the body of a dictionary that the grammar accepts, the brackets are
/// properly nested.
pub proof fn lemma_dict_nested(tokens: Seq<TokenView>, open: TokenView, close: TokenView)
    requires
        is_bracket_pair(open, close),
        dict_body(tokens) is Ok,
    ensures
        nested(tokens, open, close, 0, tokens.len() as int),
    decreases tokens.len(), tokens.len() + 3,
{
    if tokens.len() > 0 {
        lemma_entries_nested(tokens, 0, Seq::empty(), open, close);
    } else {
        assert(rise(tokens, open, close, 0, 0) == 0);
    }
}

/// In the body of a list that the grammar accepts, the brackets are properly
/// nested.
pub proof fn lemma_list_nested(tokens: Seq<TokenView>, open: TokenView, close: TokenView)
    requires
        is_bracket_pair(open, close),
        list_body(tokens) is Ok,
    ensures
        nested(tokens, open, close, 0, tokens.len() as int),
    decreases tokens.len(), tokens.len() + 3,
{
    if tokens.len() > 0 {
        lemma_items_nested(tokens, 0, Seq::empty(), open, close);
    } else {
        assert(rise(tokens, open, close, 0, 0) == 0);
    }
}

/// The brackets of a document are properly nested, and so balanced.
pub proof fn lemma_document_well_nested(tokens: Seq<TokenView>)
    requires
        document(tokens) is Ok,
    ensures
        well_nested(tokens),
        balanced(tokens),
{
    let n = tokens.len() as int;
    let body = tokens.subrange(1, n - 1);
    assert forall|open: TokenView, close: TokenView| is_bracket_pair(open, close) implies nested(
        tokens,
        open,
        close,
        0,
        n,
    ) by {
        if tokens.first() == TokenView::StartOfDict {
            lemma_dict_nested(body, open, close);
        } else {
            lemma_list_nested(body, open, close);
        }
        lemma_nested_shift(body, tokens, open, close, 0, n - 2, 1);
        if tokens.first() == open {
            lemma_nested_wrapped(tokens, open, close, 0, n);
        } else {
            lemma_nested_plain(tokens, open, close, 0);
            lemma_nested_plain(tokens, open, close, n - 1);
            lemma_nested_join(tokens, open, close, 0, 1, n - 1);
            lemma_nested_join(tokens, open, close, 0, n - 1, n);
        }
    }
    assert(is_bracket_pair(TokenView::StartOfDict, TokenView::EndOfDict));
    assert(is_bracket_pair(TokenView::StartOfList, TokenView::EndOfList));
    lemma_rise_counts(tokens, TokenView::StartOfDict, TokenView::EndOfDict);
    lemma_rise_counts(tokens, TokenView::StartOfList, TokenView::EndOfList);
}

/// Tokens whose brackets are not balanced are never a document: parsing them
/// fails, with an unexpected token or an unexpected end.
pub proof fn lemma_unbalanced_fails(tokens: Seq<TokenView>)
    requires
        !balanced(tokens),
    ensures
        document(tokens) is Err,
{
    if document(tokens) is Ok {
        lemma_document_well_nested(tokens);
    }
}

/// A document that stands inside other tokens, as a value there, is found
/// whole: the count of open brackets ends it at its own closing token, and
/// it denotes the tree that it denotes alone.
pub proof fn lemma_embedded_document(context: Seq<TokenView>, at: int, doc: Seq<TokenView>)
    requires
        document(doc) is Ok,
        0 <= at,
        at + doc.len() <= context.len(),
        context.subrange(at, at + doc.len()) == doc,
    ensures
        value_at(context, at) == document(doc),
        value_end(context, at) == at + doc.len(),
{
    let n = doc.len() as int;
    let body = doc.subrange(1, n - 1);
    let open = doc.first();
    let close = doc.last();
    assert(context[at] == doc[0]);
    assert(context[at + n - 1] == doc[n - 1]);
    if open == TokenView::StartOfDict {
        lemma_dict_nested(body, open, close);
    } else {
        lemma_list_nested(body, open, close);
    }
    assert forall|k: int| 0 <= k < n - 2 implies body[k] == context[k + at + 1] by {
        assert(body[k] == doc[k + 1]);
        assert(doc[k + 1] == context[at + k + 1]);
    }
    lemma_nested_shift(body, context, open, close, 0, n - 2, at + 1);
    lemma_closing_finds(context, open, close, at + 1, 1, at + n - 1);
    assert(context.subrange(at + 1, at + n - 1) == body);
}

/// The tokens of a list that holds the document and nothing else.
pub open spec fn in_list(doc: Seq<TokenView>) -> Seq<TokenView> {
    seq![TokenView::StartOfList] + doc + seq![TokenView::EndOfList]
}

/// The tokens of a dictionary that holds the document under `key` and
/// nothing else.
pub open spec fn in_dict(key: Seq<char>, doc: Seq<TokenView>) -> Seq<TokenView> {
    seq![
        TokenView::StartOfDict,
        TokenView::Constant(ConstantView::StringLiteral(key)),
        TokenView::Colon,
    ] + doc + seq![TokenView::EndOfDict]
}

/// One more level of nesting: a document put into a list is a document, and
/// denotes the list that holds the tree of the inner one.
pub proof fn lemma_document_in_list(doc: Seq<TokenView>)
    requires
        document(doc) is Ok,
    ensures
        document(in_list(doc)) == Ok::<JsonView, ParseErrorView>(
            JsonView::List(seq![document(doc)->Ok_0]),
        ),
{
    let outer = in_list(doc);
    let body = outer.subrange(1, outer.len() - 1);
    assert(body == doc);
    assert(doc.subrange(0, doc.len() as int) == doc);
    lemma_embedded_document(doc, 0, doc);
    assert(Seq::<JsonView>::empty().push(document(doc)->Ok_0) == seq![document(doc)->Ok_0]);
}

/// One more level of nesting: a document put into a dictionary under a key
/// is a document, and denotes the dictionary that holds the tree of the inner
/// one under that key.
pub proof fn lemma_document_in_dict(key: Seq<char>, doc: Seq<TokenView>)
    requires
        document(doc) is Ok,
    ensures
        document(in_dict(key, doc)) == Ok::<JsonView, ParseErrorView>(
            JsonView::Dict(Map::<Seq<char>, JsonView>::empty().insert(key, document(doc)->Ok_0)),
        ),
{
    let outer = in_dict(key, doc);
    let body = outer.subrange(1, outer.len() - 1);
    assert(body.subrange(2, 2 + doc.len() as int) == doc);
    lemma_embedded_document(body, 2, doc);
    let entries = Seq::<(Seq<char>, JsonView)>::empty().push((key, document(doc)->Ok_0));
    assert(dict_entries(body, 0, Seq::empty()) == Ok::<
        Seq<(Seq<char>, JsonView)>,
        ParseErrorView,
    >(entries));
    assert(entries.drop_last() == Seq::<(Seq<char>, JsonView)>::empty());
    assert(pairs_map(entries.drop_last()) == Map::<Seq<char>, JsonView>::empty());
    assert(pairs_map(entries) == Map::<Seq<char>, JsonView>::empty().insert(
        key,
        document(doc)->Ok_0,
    ));
}

/// What a document is nested in: a list, or a dictionary that holds it under
/// a key.
pub ghost enum Layer {
    List,
    Dict(Seq<char>),
}

/// The document with the layers put around it, the first layer innermost.
pub open spec fn wrapped(doc: Seq<TokenView>, layers: Seq<Layer>) -> Seq<TokenView>
    decreases layers.len(),
{
    if layers.len() == 0 {
        doc
    } else {
        match layers.last() {
            Layer::List => in_list(wrapped(doc, layers.drop_last())),
            Layer::Dict(key) => in_dict(key, wrapped(doc, layers.drop_last())),
        }
    }
}

/// The tree with the layers put around it, the first layer innermost.
pub open spec fn wrapped_tree(tree: JsonView, layers: Seq<Layer>) -> JsonView
    decreases layers.len(),
{
    if layers.len() == 0 {
        tree
    } else {
        match layers.last() {
            Layer::List => JsonView::List(seq![wrapped_tree(tree, layers.drop_last())]),
            Layer::Dict(key) => JsonView::Dict(
                Map::<Seq<char>, JsonView>::empty().insert(
                    key,
                    wrapped_tree(tree, layers.drop_last()),
                ),
            ),
        }
    }
}

/// Nesting to any depth: a document inside any number of lists and
/// dictionaries is a document, and denotes the tree of the inner one inside
/// as many lists and dictionaries.
pub proof fn lemma_nesting(doc: Seq<TokenView>, layers: Seq<Layer>)
    requires
        document(doc) is Ok,
    ensures
        document(wrapped(doc, layers)) == Ok::<JsonView, ParseErrorView>(
            wrapped_tree(document(doc)->Ok_0, layers),
        ),
    decreases layers.len(),
{
    if layers.len() > 0 {
        lemma_nesting(doc, layers.drop_last());
        match layers.last() {
            Layer::List => lemma_document_in_list(wrapped(doc, layers.drop_last())),
            Layer::Dict(key) => lemma_document_in_dict(key, wrapped(doc, layers.drop_last())),
        }
    }
}

} // verus!
