//! JSON-like trees keyed by field number.
//!
//! `JsonValue` is the executable tree that the projector builds; `JsonModel`
//! is its mathematical shadow, used by every contract. An object keeps its
//! entries in first-encounter order with one entry per key; a key seen again
//! folds its values into an array.

use vstd::prelude::*;

verus! {

/// Mathematical model of a JSON-like tree.
#[verifier::ext_equal]
pub enum JsonModel {
    /// Numeric leaf.
    Num(u64),
    /// Text leaf.
    Text(Seq<char>),
    /// Array of values.
    Arr(Seq<JsonModel>),
    /// Object: entries keyed by field number, one entry per key.
    Obj(Seq<(u64, JsonModel)>),
}

/// JSON-like tree assembled by the projector.
///
/// Object keys are the decoded field numbers; a standard JSON writer renders
/// them as decimal strings.
#[derive(Debug, PartialEq, Eq)]
pub enum JsonValue {
    /// Numeric leaf.
    Number(u64),
    /// Text leaf.
    String(String),
    /// Array of values.
    Array(Vec<JsonValue>),
    /// Object: entries keyed by field number, in first-encounter order.
    Object(Vec<(u64, JsonValue)>),
}

impl JsonValue {
    /// The mathematical tree this value stands for.
    pub open spec fn deep_view(&self) -> JsonModel
        decreases self,
    {
        match self {
            JsonValue::Number(n) => JsonModel::Num(*n),
            JsonValue::String(s) => JsonModel::Text(s@),
            JsonValue::Array(items) => {
                proof {
                    assert(decreases_to!(self => items));
                    assert(decreases_to!(items => items@));
                }
                JsonModel::Arr(item_models(items@))
            },
            JsonValue::Object(entries) => {
                proof {
                    assert(decreases_to!(self => entries));
                    assert(decreases_to!(entries => entries@));
                }
                JsonModel::Obj(entry_models_rec(entries@))
            },
        }
    }
}

/// The models of a sequence of values.
pub open spec fn item_models(items: Seq<JsonValue>) -> Seq<JsonModel>
    decreases items,
{
    if items.len() == 0 {
        Seq::empty()
    } else {
        seq![items[0].deep_view()] + item_models(items.drop_first())
    }
}

/// The models of an object's entries, built front to back.
pub open spec fn entry_models_rec(entries: Seq<(u64, JsonValue)>) -> Seq<(u64, JsonModel)>
    decreases entries,
{
    if entries.len() == 0 {
        Seq::empty()
    } else {
        seq![(entries[0].0, entries[0].1.deep_view())] + entry_models_rec(entries.drop_first())
    }
}

/// The models of an object's entries.
pub open spec fn entries_model(entries: Seq<(u64, JsonValue)>) -> Seq<(u64, JsonModel)> {
    Seq::new(entries.len(), |i: int| (entries[i].0, entries[i].1.deep_view()))
}

/// The models of a sequence of values, element by element.
pub proof fn lemma_item_models(items: Seq<JsonValue>)
    ensures
        item_models(items).len() == items.len(),
        forall|i: int| 0 <= i < items.len() ==> item_models(items)[i] == items[i].deep_view(),
    decreases items.len(),
{
    if items.len() > 0 {
        lemma_item_models(items.drop_first());
    }
}

/// The two renderings of an object's entry models agree.
pub proof fn lemma_entries_model(entries: Seq<(u64, JsonValue)>)
    ensures
        entry_models_rec(entries) == entries_model(entries),
    decreases entries.len(),
{
    if entries.len() > 0 {
        lemma_entries_model(entries.drop_first());
        assert(entry_models_rec(entries) =~= entries_model(entries));
    } else {
        assert(entry_models_rec(entries) =~= entries_model(entries));
    }
}

/// Index of the entry holding `key`, if any; keys are unique, so it is the
/// first such index.
pub open spec fn find_key(entries: Seq<(u64, JsonModel)>, key: u64) -> Option<int>
    decreases entries.len(),
{
    if entries.len() == 0 {
        None
    } else if entries[0].0 == key {
        Some(0)
    } else {
        match find_key(entries.drop_first(), key) {
            Some(i) => Some(i + 1),
            None => None,
        }
    }
}

/// Recording one more value under `key`: a fresh key is appended; a key seen
/// before turns its entry into an array of the values in encounter order
/// (pushing onto an existing array rather than nesting).
pub open spec fn group_insert(
    entries: Seq<(u64, JsonModel)>,
    key: u64,
    value: JsonModel,
) -> Seq<(u64, JsonModel)> {
    match find_key(entries, key) {
        None => entries.push((key, value)),
        Some(i) => entries.update(
            i,
            (
                key,
                match entries[i].1 {
                    JsonModel::Arr(items) => JsonModel::Arr(items.push(value)),
                    old_value => JsonModel::Arr(seq![old_value, value]),
                },
            ),
        ),
    }
}

/// The object entries that recording a sequence of keyed values in order
/// produces, grouping repeated keys into arrays.
pub open spec fn group_all(pairs: Seq<(u64, JsonModel)>) -> Seq<(u64, JsonModel)>
    decreases pairs.len(),
{
    if pairs.len() == 0 {
        Seq::empty()
    } else {
        group_insert(group_all(pairs.drop_last()), pairs.last().0, pairs.last().1)
    }
}

/// Record `value` under `key` in an object's entry list, grouping repeated
/// keys into arrays.
#[verifier::loop_isolation(false)]
pub fn object_insert(entries: &mut Vec<(u64, JsonValue)>, key: u64, value: JsonValue)
    ensures
        entries_model(final(entries)@) == group_insert(
            entries_model(old(entries)@),
            key,
            value.deep_view(),
        ),
{
    let ghost old_entries = entries@;
    proof {
        lemma_find_key_from_zero(entries_model(entries@), key);
    }
    let n = entries.len();
    let mut idx: usize = 0;
    loop
        invariant
            entries@ == old_entries,
            n == entries@.len(),
            idx <= n,
            find_key_from(entries_model(entries@), key, idx as int) == find_key(
                entries_model(entries@),
                key,
            ),
        decreases n - idx,
    {
        if idx >= n {
            proof {
                lemma_find_key_from_end(entries_model(entries@), key, idx as int);
            }
            let ghost value_model = value.deep_view();
            entries.push((key, value));
            proof {
                assert(entries_model(entries@) =~~= entries_model(old_entries).push(
                    (key, value_model),
                ));
                assert(old_entries == old(entries)@);
                assert(entries_model(entries@) == group_insert(
                    entries_model(old_entries),
                    key,
                    value_model,
                ));
            }
            return ;
        }
        if entries[idx].0 == key {
            proof {
                lemma_find_key_from_here(entries_model(entries@), key, idx as int);
            }
            let ghost old_model = entries_model(old_entries);
            let ghost value_model = value.deep_view();
            let (k, old_value) = entries.remove(idx);
            let ghost old_value_model = old_value.deep_view();
            let folded = match old_value {
                JsonValue::Array(mut items) => {
                    let ghost items_before = items@;
                    items.push(value);
                    proof {
                        lemma_item_models(items_before);
                        lemma_item_models(items@);
                        assert(item_models(items@) =~= item_models(items_before).push(value_model));
                    }
                    JsonValue::Array(items)
                },
                other => {
                    let ghost other_model = other.deep_view();
                    let mut items: Vec<JsonValue> = Vec::new();
                    items.push(other);
                    items.push(value);
                    proof {
                        lemma_item_models(items@);
                        assert(item_models(items@) =~= seq![other_model, value_model]);
                        assert(!(other_model is Arr));
                    }
                    JsonValue::Array(items)
                },
            };
            proof {
                assert(folded.deep_view() == (match old_value_model {
                    JsonModel::Arr(items) => JsonModel::Arr(items.push(value_model)),
                    old_leaf => JsonModel::Arr(seq![old_leaf, value_model]),
                }));
            }
            entries.insert(idx, (k, folded));
            proof {
                assert(entries@ =~= old_entries.update(idx as int, (k, folded)));
                assert(old_model[idx as int] == (key, old_value_model));
                assert(entries_model(entries@) =~~= group_insert(old_model, key, value_model));
            }
            return ;
        }
        idx = idx + 1;
    }
}

/// The value held under `key` in an entry list, if any.
pub open spec fn lookup(entries: Seq<(u64, JsonModel)>, key: u64) -> Option<JsonModel> {
    match find_key(entries, key) {
        Some(i) => Some(entries[i].1),
        None => None,
    }
}

/// The values recorded under `key`, in encounter order.
pub open spec fn values_of(pairs: Seq<(u64, JsonModel)>, key: u64) -> Seq<JsonModel>
    decreases pairs.len(),
{
    if pairs.len() == 0 {
        Seq::empty()
    } else {
        let front = values_of(pairs.drop_last(), key);
        if pairs.last().0 == key {
            front.push(pairs.last().1)
        } else {
            front
        }
    }
}

/// `find_key` points at an entry that holds the key; `None` means no entry
/// does.
proof fn lemma_find_key_valid(entries: Seq<(u64, JsonModel)>, key: u64)
    ensures
        find_key(entries, key) matches Some(i) ==> 0 <= i < entries.len() && entries[i].0 == key,
        find_key(entries, key) is None ==> forall|j: int|
            0 <= j < entries.len() ==> (#[trigger] entries[j]).0 != key,
    decreases entries.len(),
{
    if entries.len() > 0 && entries[0].0 != key {
        lemma_find_key_valid(entries.drop_first(), key);
        if find_key(entries.drop_first(), key) is None {
            assert forall|j: int| 0 <= j < entries.len() implies (#[trigger] entries[j]).0
                != key by {
                if j > 0 {
                    assert(entries[j] == entries.drop_first()[j - 1]);
                }
            }
        }
    }
}

/// Appending an entry does not move the first occurrence of a key; a fresh
/// key is found at the end.
proof fn lemma_find_key_push(entries: Seq<(u64, JsonModel)>, p: (u64, JsonModel), key: u64)
    ensures
        find_key(entries.push(p), key) == match find_key(entries, key) {
            Some(i) => Some(i),
            None => if p.0 == key {
                Some(entries.len() as int)
            } else {
                None
            },
        },
    decreases entries.len(),
{
    if entries.len() == 0 {
        assert(entries.push(p)[0] == p);
        assert(entries.push(p).drop_first() =~= Seq::<(u64, JsonModel)>::empty());
        assert(find_key(Seq::<(u64, JsonModel)>::empty(), key) is None);
    } else {
        lemma_find_key_push(entries.drop_first(), p, key);
        assert(entries.push(p)[0] == entries[0]);
        assert(entries.push(p).drop_first() =~= entries.drop_first().push(p));
    }
}

/// Replacing an entry with one under the same key does not move any first
/// occurrence.
proof fn lemma_find_key_update(
    entries: Seq<(u64, JsonModel)>,
    i: int,
    x: (u64, JsonModel),
    key: u64,
)
    requires
        0 <= i < entries.len(),
        x.0 == entries[i].0,
    ensures
        find_key(entries.update(i, x), key) == find_key(entries, key),
    decreases entries.len(),
{
    let updated = entries.update(i, x);
    assert(updated[0].0 == entries[0].0);
    if entries[0].0 != key {
        if i == 0 {
            assert(updated.drop_first() =~= entries.drop_first());
        } else {
            assert(updated.drop_first() =~= entries.drop_first().update(i - 1, x));
            lemma_find_key_update(entries.drop_first(), i - 1, x, key);
        }
    }
}

/// What one recording step leaves under the recorded key.
proof fn lemma_group_insert_same(entries: Seq<(u64, JsonModel)>, key: u64, value: JsonModel)
    ensures
        lookup(group_insert(entries, key, value), key) == Some(
            match lookup(entries, key) {
                None => value,
                Some(JsonModel::Arr(items)) => JsonModel::Arr(items.push(value)),
                Some(old_leaf) => JsonModel::Arr(seq![old_leaf, value]),
            },
        ),
{
    lemma_find_key_valid(entries, key);
    match find_key(entries, key) {
        None => {
            lemma_find_key_push(entries, (key, value), key);
        },
        Some(i) => {
            let folded = (
                key,
                match entries[i].1 {
                    JsonModel::Arr(items) => JsonModel::Arr(items.push(value)),
                    old_leaf => JsonModel::Arr(seq![old_leaf, value]),
                },
            );
            lemma_find_key_update(entries, i, folded, key);
        },
    }
}

/// One recording step leaves every other key alone.
proof fn lemma_group_insert_other(
    entries: Seq<(u64, JsonModel)>,
    key: u64,
    value: JsonModel,
    k: u64,
)
    requires
        k != key,
    ensures
        lookup(group_insert(entries, key, value), k) == lookup(entries, k),
{
    lemma_find_key_valid(entries, key);
    lemma_find_key_valid(entries, k);
    match find_key(entries, key) {
        None => {
            lemma_find_key_push(entries, (key, value), k);
        },
        Some(i) => {
            let folded = (
                key,
                match entries[i].1 {
                    JsonModel::Arr(items) => JsonModel::Arr(items.push(value)),
                    old_leaf => JsonModel::Arr(seq![old_leaf, value]),
                },
            );
            lemma_find_key_update(entries, i, folded, k);
            lemma_find_key_valid(entries.update(i, folded), k);
        },
    }
}

/// What grouping a whole recording leaves under each key: nothing when the
/// key never occurs, the value itself when it occurs once, and the array of
/// its values in encounter order when it occurs more than once and its
/// first value is not itself an array (an array first value would be
/// extended instead).
proof fn lemma_group_all_lookup(pairs: Seq<(u64, JsonModel)>, key: u64)
    ensures
        ({
            let vs = values_of(pairs, key);
            &&& (vs.len() == 0 <==> lookup(group_all(pairs), key) is None)
            &&& (vs.len() == 1 ==> lookup(group_all(pairs), key) == Some(vs[0]))
            &&& (vs.len() >= 2 && !(vs[0] is Arr) ==> lookup(group_all(pairs), key) == Some(
                JsonModel::Arr(vs),
            ))
        }),
    decreases pairs.len(),
{
    if pairs.len() > 0 {
        let front = pairs.drop_last();
        let last = pairs.last();
        lemma_group_all_lookup(front, key);
        let vs_front = values_of(front, key);
        let vs = values_of(pairs, key);
        if last.0 == key {
            lemma_group_insert_same(group_all(front), key, last.1);
            if vs_front.len() >= 1 {
                assert(vs[0] == vs_front[0]);
            }
            if vs_front.len() == 1 && !(vs[0] is Arr) {
                assert(seq![vs_front[0], last.1] =~= vs);
            }
            if vs_front.len() >= 2 && !(vs[0] is Arr) {
                assert(vs_front.push(last.1) =~= vs);
            }
        } else {
            lemma_group_insert_other(group_all(front), last.0, last.1, key);
        }
    }
}

/// Law: a field number recorded exactly once holds its value directly, not
/// wrapped in an array.
pub proof fn lemma_grouping_single(pairs: Seq<(u64, JsonModel)>, key: u64)
    requires
        values_of(pairs, key).len() == 1,
    ensures
        lookup(group_all(pairs), key) == Some(values_of(pairs, key)[0]),
{
    lemma_group_all_lookup(pairs, key);
}

/// Law: a field number recorded exactly twice, with a first value that is
/// not itself an array, holds the two values as a two-element array in
/// encounter order.
pub proof fn lemma_grouping_pair(pairs: Seq<(u64, JsonModel)>, key: u64)
    requires
        values_of(pairs, key).len() == 2,
        !(values_of(pairs, key)[0] is Arr),
    ensures
        lookup(group_all(pairs), key) == Some(JsonModel::Arr(values_of(pairs, key))),
{
    lemma_group_all_lookup(pairs, key);
}

/// `find_key` restricted to entries at or after `from`.
spec fn find_key_from(entries: Seq<(u64, JsonModel)>, key: u64, from: int) -> Option<int>
    decreases entries.len() - from,
{
    if from < 0 || from >= entries.len() {
        None
    } else if entries[from].0 == key {
        Some(from)
    } else {
        find_key_from(entries, key, from + 1)
    }
}

proof fn lemma_find_key_from_zero(entries: Seq<(u64, JsonModel)>, key: u64)
    ensures
        find_key_from(entries, key, 0) == find_key(entries, key),
    decreases entries.len(),
{
    if entries.len() > 0 && entries[0].0 != key {
        lemma_find_key_from_zero(entries.drop_first(), key);
        lemma_find_key_from_shift(entries, key, 0);
    }
}

/// Scanning the tail of `entries` from `from` is scanning the dropped
/// sequence one position earlier.
proof fn lemma_find_key_from_shift(entries: Seq<(u64, JsonModel)>, key: u64, from: int)
    requires
        entries.len() > 0,
        0 <= from,
    ensures
        find_key_from(entries, key, from + 1) == match find_key_from(
            entries.drop_first(),
            key,
            from,
        ) {
            Some(i) => Some(i + 1),
            None => None,
        },
    decreases entries.len() - from,
{
    if from < entries.len() - 1 {
        if entries.drop_first()[from].0 != key {
            lemma_find_key_from_shift(entries, key, from + 1);
        }
    }
}

proof fn lemma_find_key_from_end(entries: Seq<(u64, JsonModel)>, key: u64, from: int)
    requires
        from >= entries.len(),
    ensures
        find_key_from(entries, key, from) is None,
{
}

proof fn lemma_find_key_from_here(entries: Seq<(u64, JsonModel)>, key: u64, from: int)
    requires
        0 <= from < entries.len(),
        entries[from].0 == key,
    ensures
        find_key_from(entries, key, from) == Some(from),
{
}

} // verus!
