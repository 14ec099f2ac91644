//! Laws of JSON values.

use vstd::prelude::*;

use crate::json::{
    entry, keys_ordered, lemma_precedes_irreflexive, lemma_with_entry_get, Json, Tree,
};

verus! {

proof fn lemma_entry_at(entries: Seq<(Seq<char>, Tree)>, i: int)
    requires
        keys_ordered(entries),
        0 <= i < entries.len(),
    ensures
        entry(entries, entries[i].0) == Some(entries[i].1),
    decreases entries.len(),
{
    if i > 0 {
        let rest = entries.skip(1);
        assert(crate::json::precedes(entries[0].0, entries[i].0));
        lemma_precedes_irreflexive(entries[i].0);
        assert forall|a: int, b: int| 0 <= a < b < rest.len() implies crate::json::precedes(
            #[trigger] rest[a].0,
            #[trigger] rest[b].0,
        ) by {
            assert(rest[a] == entries[a + 1] && rest[b] == entries[b + 1]);
        }
        lemma_entry_at(rest, i - 1);
        assert(rest[i - 1] == entries[i]);
    }
}

proof fn lemma_no_entry(entries: Seq<(Seq<char>, Tree)>, key: Seq<char>)
    requires
        forall|i: int| 0 <= i < entries.len() ==> (#[trigger] entries[i]).0 != key,
    ensures
        entry(entries, key) is None,
    decreases entries.len(),
{
    if entries.len() > 0 {
        let rest = entries.skip(1);
        assert(entries[0].0 != key);
        assert forall|i: int| 0 <= i < rest.len() implies (#[trigger] rest[i]).0 != key by {
            assert(rest[i] == entries[i + 1]);
        }
        lemma_no_entry(rest, key);
    }
}

/// An object has under each of its keys the value that stands there, and under
/// no other key a value.
pub proof fn lemma_get(entries: Seq<(Seq<char>, Tree)>, i: int, other: Seq<char>)
    requires
        keys_ordered(entries),
        0 <= i < entries.len(),
    ensures
        Tree::Object(entries).get(entries[i].0) == Some(entries[i].1),
        (forall|k: int| 0 <= k < entries.len() ==> (#[trigger] entries[k]).0 != other)
            ==> Tree::Object(entries).get(other) is None,
{
    lemma_entry_at(entries, i);
    if forall|k: int| 0 <= k < entries.len() ==> (#[trigger] entries[k]).0 != other {
        lemma_no_entry(entries, other);
    }
}

/// An array has at each place the item that stands there, a text is the text
/// that it holds, and nothing else has either.
pub proof fn lemma_at_and_text(items: Seq<Tree>, i: int, s: Seq<char>, t: Tree)
    ensures
        Tree::Array(items).at(i) == (if 0 <= i < items.len() {
            Some(items[i])
        } else {
            None
        }),
        Tree::Text(s).as_text() == Some(s),
        !(t is Array) ==> t.at(i) is None,
        !(t is Text) ==> t.as_text() is None,
        !(t is Object) ==> t.get(s) is None,
{
}

/// A JSON value of one text has that text for its model, and one truth value
/// that truth value.
pub proof fn lemma_leaf_view(s: String, b: bool)
    ensures
        Json::Text(s)@ == Tree::Text(s@),
        Json::Bool(b)@ == Tree::Bool(b),
        Json::Null@ == Tree::Null,
{
}

/// An object to which an entry is added has that value under that key, and all
/// else as before.
pub proof fn lemma_with(t: Tree, key: Seq<char>, value: Tree, other: Seq<char>)
    requires
        t is Object,
    ensures
        t.with(key, value) is Object,
        t.with(key, value).get(key) == Some(value),
        other != key ==> t.with(key, value).get(other) == t.get(other),
        crate::json::empty_object() is Object,
        crate::json::empty_object().get(other) is None,
{
    lemma_with_entry_get(t->Object_0, key, value, other);
}

} // verus!
