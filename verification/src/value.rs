//! The tree that parsing builds: dictionaries, lists and scalar values.

use crate::token::{Constant, ConstantView};
use vstd::prelude::*;

verus! {

/// A JSON tree as a mathematical value.
pub ghost enum JsonView {
    Dict(Map<Seq<char>, JsonView>),
    List(Seq<JsonView>),
    Value(ConstantView),
}

/// The mapping that a sequence of key-value pairs builds up when each pair in
/// turn is written into it: of two pairs with one key the later one stays.
pub open spec fn pairs_map(pairs: Seq<(Seq<char>, JsonView)>) -> Map<Seq<char>, JsonView>
    decreases pairs.len(),
{
    if pairs.len() == 0 {
        Map::empty()
    } else {
        pairs_map(pairs.drop_last()).insert(pairs.last().0, pairs.last().1)
    }
}

/// No key occurs twice among the pairs.
pub open spec fn distinct_keys(pairs: Seq<(Seq<char>, JsonView)>) -> bool {
    forall|i: int, j: int| 0 <= i < j < pairs.len() ==> pairs[i].0 != pairs[j].0
}

/// The keys of the mapping are the keys of the pairs, and there are finitely
/// many.
pub proof fn lemma_pairs_map_keys(pairs: Seq<(Seq<char>, JsonView)>)
    ensures
        pairs_map(pairs).dom().finite(),
        forall|k: Seq<char>| #[trigger]
            pairs_map(pairs).contains_key(k) <==> exists|i: int|
                0 <= i < pairs.len() && #[trigger] pairs[i].0 == k,
    decreases pairs.len(),
{
    if pairs.len() > 0 {
        let front = pairs.drop_last();
        lemma_pairs_map_keys(front);
        assert forall|k: Seq<char>| #[trigger]
            pairs_map(pairs).contains_key(k) <==> exists|i: int|
                0 <= i < pairs.len() && #[trigger] pairs[i].0 == k by {
            if pairs_map(pairs).contains_key(k) {
                if k == pairs.last().0 {
                    assert(pairs[pairs.len() - 1].0 == k);
                } else {
                    let i = choose|i: int| 0 <= i < front.len() && #[trigger] front[i].0 == k;
                    assert(pairs[i].0 == k);
                }
            }
            if exists|i: int| 0 <= i < pairs.len() && #[trigger] pairs[i].0 == k {
                let i = choose|i: int| 0 <= i < pairs.len() && #[trigger] pairs[i].0 == k;
                if i < pairs.len() - 1 {
                    assert(front[i].0 == k);
                }
            }
        }
    }
}

/// A key maps to the value of the last pair that holds it.
pub proof fn lemma_pairs_map_lookup(pairs: Seq<(Seq<char>, JsonView)>, i: int)
    requires
        0 <= i < pairs.len(),
        forall|j: int| i < j < pairs.len() ==> pairs[j].0 != pairs[i].0,
    ensures
        pairs_map(pairs).contains_key(pairs[i].0),
        pairs_map(pairs)[pairs[i].0] == pairs[i].1,
    decreases pairs.len(),
{
    if i < pairs.len() - 1 {
        lemma_pairs_map_lookup(pairs.drop_last(), i);
    }
}

/// Writing a new value over the last pair of a key is writing that key into
/// the mapping.
pub proof fn lemma_pairs_map_update(pairs: Seq<(Seq<char>, JsonView)>, i: int, value: JsonView)
    requires
        0 <= i < pairs.len(),
        forall|j: int| i < j < pairs.len() ==> pairs[j].0 != pairs[i].0,
    ensures
        pairs_map(pairs.update(i, (pairs[i].0, value))) == pairs_map(pairs).insert(
            pairs[i].0,
            value,
        ),
    decreases pairs.len(),
{
    let updated = pairs.update(i, (pairs[i].0, value));
    if i < pairs.len() - 1 {
        lemma_pairs_map_update(pairs.drop_last(), i, value);
        assert(updated.drop_last() == pairs.drop_last().update(i, (pairs[i].0, value)));
        assert(pairs_map(updated) =~= pairs_map(pairs).insert(pairs[i].0, value));
    } else {
        assert(updated.drop_last() == pairs.drop_last());
        assert(pairs_map(updated) =~= pairs_map(pairs).insert(pairs[i].0, value));
    }
}

/// With no key twice, the mapping has as many entries as there are pairs.
pub proof fn lemma_pairs_map_len(pairs: Seq<(Seq<char>, JsonView)>)
    requires
        distinct_keys(pairs),
    ensures
        pairs_map(pairs).dom().finite(),
        pairs_map(pairs).dom().len() == pairs.len(),
    decreases pairs.len(),
{
    lemma_pairs_map_keys(pairs);
    if pairs.len() > 0 {
        let front = pairs.drop_last();
        lemma_pairs_map_len(front);
        lemma_pairs_map_keys(front);
        if pairs_map(front).contains_key(pairs.last().0) {
            let i = choose|i: int| 0 <= i < front.len() && #[trigger] front[i].0 == pairs.last().0;
            assert(pairs[i].0 == pairs[pairs.len() - 1].0);
        }
        assert(pairs_map(pairs).dom() == pairs_map(front).dom().insert(pairs.last().0));
    } else {
        assert(pairs_map(pairs).dom() == Set::<Seq<char>>::empty());
    }
}

/// A mapping from text keys to JSON trees. No key occurs twice; writing a key
/// that is there replaces its value.
#[derive(Debug)]
pub struct JsonDict {
    entries: Vec<(String, Json)>,
}

/// A JSON tree.
#[derive(Debug)]
pub enum Json {
    Dict(JsonDict),
    List(Vec<Json>),
    Value(Constant),
}

/// The view of a tree.
pub open spec fn json_view(json: Json) -> JsonView
    decreases json,
{
    match json {
        Json::Dict(dict) => JsonView::Dict(pairs_map(entries_view(dict))),
        Json::List(items) => JsonView::List(
            Seq::new(
                items@.len(),
                |i: int|
                    if 0 <= i < items@.len() {
                        json_view(items@[i])
                    } else {
                        arbitrary()
                    },
            ),
        ),
        Json::Value(constant) => JsonView::Value(constant@),
    }
}

/// The keys that a dictionary holds with the views of their values, in the
/// order in which it holds them.
pub closed spec fn entries_view(dict: JsonDict) -> Seq<(Seq<char>, JsonView)>
    decreases dict,
{
    Seq::new(
        dict.entries@.len(),
        |i: int|
            if 0 <= i < dict.entries@.len() {
                (dict.entries@[i].0@, json_view(dict.entries@[i].1))
            } else {
                arbitrary()
            },
    )
}

impl View for JsonDict {
    type V = Map<Seq<char>, JsonView>;

    open spec fn view(&self) -> Map<Seq<char>, JsonView> {
        pairs_map(entries_view(*self))
    }
}

impl View for Json {
    type V = JsonView;

    open spec fn view(&self) -> JsonView {
        json_view(*self)
    }
}

/// The keys of a sequence of entries with the views of their values, in the
/// same order.
pub open spec fn pairs_view(entries: Seq<(String, Json)>) -> Seq<(Seq<char>, JsonView)> {
    entries.map_values(|entry: (String, Json)| (entry.0@, entry.1@))
}

/// The views of a sequence of trees, in the same order.
pub open spec fn jsons_view(items: Seq<Json>) -> Seq<JsonView> {
    items.map_values(|item: Json| item@)
}

/// The view of a list is the list of its items' views.
pub proof fn lemma_list_view(items: Vec<Json>)
    ensures
        Json::List(items)@ == JsonView::List(jsons_view(items@)),
{
    assert(Json::List(items)@->List_0 =~= jsons_view(items@));
}

impl JsonDict {
    #[verifier::type_invariant]
    spec fn well_formed(self) -> bool {
        distinct_keys(entries_view(self))
    }

    /// The empty mapping.
    pub fn new() -> (dict: Self)
        ensures
            dict@ == Map::<Seq<char>, JsonView>::empty(),
    {
        JsonDict { entries: Vec::new() }
    }

    /// How many keys the mapping holds.
    pub fn len(&self) -> (n: usize)
        ensures
            self@.dom().finite(),
            n == self@.dom().len(),
    {
        proof {
            use_type_invariant(self);
            lemma_pairs_map_len(entries_view(*self));
        }
        self.entries.len()
    }

    /// Hands out the entries: each key once with its value.
    pub fn into_entries(self) -> (entries: Vec<(String, Json)>)
        ensures
            distinct_keys(pairs_view(entries@)),
            pairs_map(pairs_view(entries@)) == self@,
    {
        proof {
            use_type_invariant(&self);
            assert(pairs_view(self.entries@) =~= entries_view(self));
        }
        let JsonDict { entries } = self;
        entries
    }

    /// Where `key` is held, if anywhere.
    fn position(&self, key: &str) -> (place: Option<usize>)
        ensures
            match place {
                Some(i) => i < self.entries@.len() && self.entries@[i as int].0@ == key@,
                None => forall|j: int| 0 <= j < self.entries@.len() ==> self.entries@[j].0@ != key@,
            },
    {
        let wanted = key.to_owned();
        let mut i: usize = 0;
        while i < self.entries.len()
            invariant
                0 <= i <= self.entries@.len(),
                wanted@ == key@,
                forall|j: int| 0 <= j < i ==> self.entries@[j].0@ != key@,
            decreases self.entries@.len() - i,
        {
            if self.entries[i].0 == wanted {
                return Some(i);
            }
            i += 1;
        }
        None
    }

    /// The value that `key` maps to, if the mapping holds the key.
    pub fn get(&self, key: &str) -> (value: Option<&Json>)
        ensures
            match value {
                Some(v) => self@.contains_key(key@) && self@[key@] == v@,
                None => !self@.contains_key(key@),
            },
    {
        proof {
            use_type_invariant(self);
            lemma_pairs_map_keys(entries_view(*self));
        }
        match self.position(key) {
            Some(i) => {
                proof {
                    lemma_pairs_map_lookup(entries_view(*self), i as int);
                }
                Some(&self.entries[i].1)
            },
            None => None,
        }
    }

    /// Writes `value` under `key`, in place of the value that the key had, if
    /// it had one.
    pub fn insert(&mut self, key: String, value: Json)
        ensures
            final(self)@ == old(self)@.insert(key@, value@),
    {
        proof {
            use_type_invariant(&*self);
        }
        let place = self.position(key.as_str());
        let mut taken = JsonDict { entries: Vec::new() };
        core::mem::swap(self, &mut taken);
        let ghost before = entries_view(taken);
        let JsonDict { entries } = taken;
        let mut entries = entries;
        match place {
            Some(i) => {
                proof {
                    lemma_pairs_map_update(before, i as int, value@);
                }
                entries.set(i, (key, value));
                assert(entries_view(JsonDict { entries }) =~= before.update(
                    i as int,
                    (key@, value@),
                ));
            },
            None => {
                entries.push((key, value));
                assert(entries_view(JsonDict { entries }) =~= before.push((key@, value@)));
                assert(entries_view(JsonDict { entries }).drop_last() =~= before);
            },
        }
        *self = JsonDict { entries };
    }
}

impl JsonDict {
    /// Tells whether the two mappings hold the same keys with equal values.
    pub fn equals(&self, other: &JsonDict) -> (b: bool)
        ensures
            b == (self@ == other@),
        decreases self,
    {
        proof {
            use_type_invariant(self);
            use_type_invariant(other);
            lemma_pairs_map_len(entries_view(*self));
            lemma_pairs_map_len(entries_view(*other));
            lemma_pairs_map_keys(entries_view(*self));
        }
        if self.entries.len() != other.entries.len() {
            return false;
        }
        let mut i: usize = 0;
        while i < self.entries.len()
            invariant
                0 <= i <= self.entries@.len(),
                self@ == pairs_map(entries_view(*self)),
                distinct_keys(entries_view(*self)),
                forall|k: int|
                    0 <= k < i ==> other@.contains_key(#[trigger] entries_view(*self)[k].0)
                        && other@[entries_view(*self)[k].0] == entries_view(*self)[k].1,
            decreases self.entries@.len() - i,
        {
            proof {
                lemma_pairs_map_lookup(entries_view(*self), i as int);
            }
            let same = match other.get(self.entries[i].0.as_str()) {
                Some(theirs) => self.entries[i].1.equals(theirs),
                None => false,
            };
            if !same {
                return false;
            }
            i += 1;
        }
        proof {
            assert forall|k: Seq<char>| self@.contains_key(k) implies other@.contains_key(k)
                && other@[k] == self@[k] by {
                let at = choose|at: int|
                    0 <= at < entries_view(*self).len() && #[trigger] entries_view(*self)[at].0 == k;
                lemma_pairs_map_lookup(entries_view(*self), at);
            }
            assert(self@.dom().subset_of(other@.dom()));
            vstd::set_lib::lemma_subset_equality(self@.dom(), other@.dom());
            assert(self@ =~= other@);
        }
        true
    }
}

impl Json {
    /// Tells whether the two trees are the same value: dictionaries with the
    /// same keys and equal values, lists with equal items in the same order,
    /// or equal constants.
    pub fn equals(&self, other: &Json) -> (b: bool)
        ensures
            b == (self@ == other@),
        decreases self,
    {
        match self {
            Json::Dict(mine) => match other {
                Json::Dict(theirs) => mine.equals(theirs),
                _ => false,
            },
            Json::List(mine) => match other {
                Json::List(theirs) => {
                    if mine.len() != theirs.len() {
                        assert(self@->List_0.len() != other@->List_0.len());
                        return false;
                    }
                    let mut i: usize = 0;
                    while i < mine.len()
                        invariant
                            *self == Json::List(*mine),
                            *other == Json::List(*theirs),
                            mine@.len() == theirs@.len(),
                            0 <= i <= mine@.len(),
                            forall|k: int| 0 <= k < i ==> mine@[k]@ == theirs@[k]@,
                        decreases mine@.len() - i,
                    {
                        if !mine[i].equals(&theirs[i]) {
                            assert(self@->List_0[i as int] != other@->List_0[i as int]);
                            return false;
                        }
                        i += 1;
                    }
                    assert(self@->List_0 =~= other@->List_0);
                    true
                },
                _ => false,
            },
            Json::Value(mine) => match other {
                Json::Value(theirs) => *mine == *theirs,
                _ => false,
            },
        }
    }
}

impl PartialEq for JsonDict {
    fn eq(&self, other: &Self) -> (b: bool) {
        self.equals(other)
    }
}

impl vstd::std_specs::cmp::PartialEqSpecImpl for JsonDict {
    open spec fn obeys_eq_spec() -> bool {
        true
    }

    open spec fn eq_spec(&self, other: &Self) -> bool {
        self@ == other@
    }
}

impl PartialEq for Json {
    fn eq(&self, other: &Self) -> (b: bool) {
        self.equals(other)
    }
}

impl vstd::std_specs::cmp::PartialEqSpecImpl for Json {
    open spec fn obeys_eq_spec() -> bool {
        true
    }

    open spec fn eq_spec(&self, other: &Self) -> bool {
        self@ == other@
    }
}

} // verus!
