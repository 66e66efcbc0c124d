//! Source order: the items of a list come out in the order in which the text
//! has them, and a dictionary holds one entry for each of its keys, the last
//! one written.

use crate::grammar::{
    dict_body, dict_entries, dict_pairs, entry_starts, item_starts, list_body, list_items,
    value_at, value_end, ParseErrorView,
};
use crate::token::{ConstantView, TokenView};
use crate::value::{lemma_pairs_map_keys, lemma_pairs_map_lookup, JsonView};
use vstd::prelude::*;

verus! {

/// The items that the grammar collects from `at` on are those collected
/// before, and then the values at the item positions, one after the other.
pub proof fn lemma_items_follow_starts(tokens: Seq<TokenView>, at: int, before: Seq<JsonView>)
    requires
        list_items(tokens, at, before) is Ok,
    ensures
        ({
            let items = list_items(tokens, at, before)->Ok_0;
            let starts = item_starts(tokens, at);
            &&& items.len() == before.len() + starts.len()
            &&& forall|k: int| 0 <= k < before.len() ==> items[k] == before[k]
            &&& forall|k: int|
                0 <= k < starts.len() ==> at <= #[trigger] starts[k] < tokens.len() && value_at(
                    tokens,
                    starts[k],
                ) == Ok::<JsonView, ParseErrorView>(items[before.len() + k])
            &&& forall|j: int, k: int| 0 <= j < k < starts.len() ==> starts[j] < starts[k]
        }),
    decreases tokens.len() - at,
{
    let value = value_at(tokens, at)->Ok_0;
    let next = value_end(tokens, at);
    let later = item_starts(tokens, next + 1);
    let items = list_items(tokens, at, before)->Ok_0;
    let starts = item_starts(tokens, at);
    if next < tokens.len() {
        lemma_items_follow_starts(tokens, next + 1, before.push(value));
    } else {
        assert(later.len() == 0);
    }
    assert(starts.len() == later.len() + 1);
    assert forall|k: int| 0 <= k < starts.len() implies at <= #[trigger] starts[k] < tokens.len()
        && value_at(tokens, starts[k]) == Ok::<JsonView, ParseErrorView>(
        items[before.len() + k],
    ) by {
        if k > 0 {
            assert(starts[k] == later[k - 1]);
        } else {
            assert(items[before.len() as int] == before.push(value)[before.len() as int]);
        }
    }
    assert forall|k: int| 0 <= k < before.len() implies items[k] == before[k] by {
        assert(before.push(value)[k] == before[k]);
    }
    assert forall|j: int, k: int| 0 <= j < k < starts.len() implies starts[j] < starts[k] by {
        assert(starts[k] == later[k - 1]);
        if j > 0 {
            assert(starts[j] == later[j - 1]);
        }
    }
}

/// The order of the items of a list is the order of the source: the items
/// are the values at the item positions of the body, which go up from one
/// item to the next.
pub proof fn lemma_list_keeps_source_order(tokens: Seq<TokenView>)
    requires
        list_body(tokens) is Ok,
    ensures
        list_body(tokens)->Ok_0 is List,
        ({
            let items = list_body(tokens)->Ok_0->List_0;
            let starts = item_starts(tokens, 0);
            &&& items.len() == starts.len()
            &&& forall|k: int|
                0 <= k < starts.len() ==> 0 <= #[trigger] starts[k] < tokens.len() && value_at(
                    tokens,
                    starts[k],
                ) == Ok::<JsonView, ParseErrorView>(items[k])
            &&& forall|j: int, k: int| 0 <= j < k < starts.len() ==> starts[j] < starts[k]
        }),
{
    if tokens.len() > 0 {
        lemma_items_follow_starts(tokens, 0, Seq::empty());
    }
}

/// The entries that the grammar collects from `at` on are those collected
/// before, and then, for each key position in turn, the key there with the
/// value behind its colon.
pub proof fn lemma_entries_follow_starts(
    tokens: Seq<TokenView>,
    at: int,
    before: Seq<(Seq<char>, JsonView)>,
)
    requires
        dict_entries(tokens, at, before) is Ok,
    ensures
        ({
            let entries = dict_entries(tokens, at, before)->Ok_0;
            let starts = entry_starts(tokens, at);
            &&& entries.len() == before.len() + starts.len()
            &&& forall|k: int| 0 <= k < before.len() ==> entries[k] == before[k]
            &&& forall|k: int|
                0 <= k < starts.len() ==> {
                    &&& at <= #[trigger] starts[k] < tokens.len() - 2
                    &&& tokens[starts[k]] == TokenView::Constant(
                        ConstantView::StringLiteral(entries[before.len() + k].0),
                    )
                    &&& value_at(tokens, starts[k] + 2) == Ok::<JsonView, ParseErrorView>(
                        entries[before.len() + k].1,
                    )
                }
            &&& forall|j: int, k: int| 0 <= j < k < starts.len() ==> starts[j] < starts[k]
        }),
    decreases tokens.len() - at,
{
    let key = tokens[at]->Constant_0->StringLiteral_0;
    let value = value_at(tokens, at + 2)->Ok_0;
    let next = value_end(tokens, at + 2);
    let later = entry_starts(tokens, next + 1);
    let entries = dict_entries(tokens, at, before)->Ok_0;
    let starts = entry_starts(tokens, at);
    if next < tokens.len() {
        lemma_entries_follow_starts(tokens, next + 1, before.push((key, value)));
    } else {
        assert(later.len() == 0);
    }
    assert(starts.len() == later.len() + 1);
    assert forall|k: int| 0 <= k < starts.len() implies {
        &&& at <= #[trigger] starts[k] < tokens.len() - 2
        &&& tokens[starts[k]] == TokenView::Constant(
            ConstantView::StringLiteral(entries[before.len() + k].0),
        )
        &&& value_at(tokens, starts[k] + 2) == Ok::<JsonView, ParseErrorView>(
            entries[before.len() + k].1,
        )
    } by {
        if k > 0 {
            assert(starts[k] == later[k - 1]);
        } else {
            assert(entries[before.len() as int] == before.push((key, value))[before.len() as int]);
        }
    }
    assert forall|k: int| 0 <= k < before.len() implies entries[k] == before[k] by {
        assert(before.push((key, value))[k] == before[k]);
    }
    assert forall|j: int, k: int| 0 <= j < k < starts.len() implies starts[j] < starts[k] by {
        assert(starts[k] == later[k - 1]);
        if j > 0 {
            assert(starts[j] == later[j - 1]);
        }
    }
}

/// A dictionary has exactly one entry for each key of its body, and it is
/// the last one written: its keys are the keys of the top-level entries, and
/// each key maps to the value of the last entry that has it.
pub proof fn lemma_dict_last_write_wins(tokens: Seq<TokenView>)
    requires
        dict_body(tokens) is Ok,
    ensures
        dict_pairs(tokens) is Ok,
        dict_body(tokens)->Ok_0 is Dict,
        ({
            let entries = dict_pairs(tokens)->Ok_0;
            let map = dict_body(tokens)->Ok_0->Dict_0;
            &&& map.dom().finite()
            &&& forall|key: Seq<char>| #[trigger]
                map.contains_key(key) <==> exists|i: int|
                    0 <= i < entries.len() && #[trigger] entries[i].0 == key
            &&& forall|i: int|
                0 <= i < entries.len() && (forall|j: int|
                    i < j < entries.len() ==> entries[j].0 != entries[i].0) ==> map[(
                #[trigger] entries[i]).0] == entries[i].1
        }),
{
    let entries = dict_pairs(tokens)->Ok_0;
    lemma_pairs_map_keys(entries);
    assert forall|i: int|
        0 <= i < entries.len() && (forall|j: int|
            i < j < entries.len() ==> entries[j].0 != entries[i].0) implies dict_body(
        tokens,
    )->Ok_0->Dict_0[(#[trigger] entries[i]).0] == entries[i].1 by {
        lemma_pairs_map_lookup(entries, i);
    }
}

/// The top-level entries of a dictionary body are, in source order, the keys
/// at its key positions with the values behind their colons.
pub proof fn lemma_dict_entries_in_source_order(tokens: Seq<TokenView>)
    requires
        dict_body(tokens) is Ok,
    ensures
        ({
            let entries = dict_pairs(tokens)->Ok_0;
            let starts = entry_starts(tokens, 0);
            &&& entries.len() == starts.len()
            &&& forall|k: int|
                0 <= k < starts.len() ==> {
                    &&& 0 <= #[trigger] starts[k] < tokens.len() - 2
                    &&& tokens[starts[k]] == TokenView::Constant(
                        ConstantView::StringLiteral(entries[k].0),
                    )
                    &&& value_at(tokens, starts[k] + 2) == Ok::<JsonView, ParseErrorView>(
                        entries[k].1,
                    )
                }
            &&& forall|j: int, k: int| 0 <= j < k < starts.len() ==> starts[j] < starts[k]
        }),
{
    if tokens.len() > 0 {
        lemma_entries_follow_starts(tokens, 0, Seq::empty());
    }
}

} // verus!
