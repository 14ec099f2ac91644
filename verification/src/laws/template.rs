//! Laws of templates.

use vstd::prelude::*;

use crate::json::Tree;
use crate::laws::text::{
    lacks, lemma_find_first, lemma_not_mentioned, lemma_pair_behind, lemma_pair_free, pair_free,
};
use crate::template::{
    lemma_variables_among, placeholders, substituted, substituted_tree, variables, variables_among,
};

verus! {

proof fn lemma_split_at_placeholder(a: Seq<char>, name: Seq<char>, b: Seq<char>)
    requires
        pair_free(a, '{'),
        pair_free(name, '}'),
    ensures
        ({
            let open = seq!['{', '{'];
            let close = seq!['}', '}'];
            let s = a + open + name + close + b;
            let after = s.skip(a.len() as int + 2);
            &&& crate::text::find(s, open) == Some(a.len() as int)
            &&& crate::text::find(after, close) == Some(name.len() as int)
            &&& s.take(a.len() as int) == a
            &&& after.take(name.len() as int) == name
            &&& after.skip(name.len() as int + 2) == b
        }),
{
    let open = seq!['{', '{'];
    let close = seq!['}', '}'];
    let s = a + open + name + close + b;
    let rest = name + close + b;
    assert(s =~= a + open + rest);
    lemma_pair_behind(a, '{', rest);
    lemma_find_first(a, open, rest);
    let after = s.skip(a.len() as int + 2);
    assert(after =~= rest);
    lemma_pair_behind(name, '}', b);
    lemma_find_first(name, close, b);
    assert(s.take(a.len() as int) =~= a);
    assert(after.take(name.len() as int) =~= name);
    assert(after.skip(name.len() as int + 2) =~= b);
}

/// The first placeholder of a text gives way to its value, whatever the value
/// is, the empty text too; one without a value stays as it is. What stands
/// before it stays, and what stands behind it is substituted on its own.
pub proof fn lemma_substituted(
    a: Seq<char>,
    name: Seq<char>,
    b: Seq<char>,
    values: Map<Seq<char>, Seq<char>>,
)
    requires
        pair_free(a, '{'),
        pair_free(name, '}'),
    ensures
        ({
            let s = a + seq!['{', '{'] + name + seq!['}', '}'] + b;
            &&& values.contains_key(name) ==> substituted(s, values) == a + values[name]
                + substituted(b, values)
            &&& !values.contains_key(name) ==> substituted(s, values) == a + seq!['{', '{'] + name
                + seq!['}', '}'] + substituted(b, values)
        }),
{
    lemma_split_at_placeholder(a, name, b);
    let s = a + seq!['{', '{'] + name + seq!['}', '}'] + b;
    if !values.contains_key(name) {
        assert(substituted(s, values) =~= a + seq!['{', '{'] + name + seq!['}', '}'] + substituted(
            b,
            values,
        ));
    }
}

/// A text without a placeholder stays: one without an opening pair of braces, and
/// one with no closing pair behind the first opening pair.
pub proof fn lemma_nothing_substituted(
    a: Seq<char>,
    b: Seq<char>,
    values: Map<Seq<char>, Seq<char>>,
)
    ensures
        lacks(a, seq!['{', '{']) ==> substituted(a, values) == a,
        pair_free(a, '{') && lacks(b, seq!['}', '}']) ==> substituted(
            a + seq!['{', '{'] + b,
            values,
        ) == a + seq!['{', '{'] + b,
{
    let open = seq!['{', '{'];
    let close = seq!['}', '}'];
    lemma_not_mentioned(a, open);
    if pair_free(a, '{') && lacks(b, close) {
        lemma_pair_behind(a, '{', b);
        lemma_find_first(a, open, b);
        lemma_not_mentioned(b, close);
        assert((a + open + b).skip(a.len() as int + 2) =~= b);
    }
}

/// A placeholder that has a value becomes just that value.
pub proof fn lemma_substituted_alone(name: Seq<char>, values: Map<Seq<char>, Seq<char>>)
    requires
        values.contains_key(name),
        !name.contains('}'),
    ensures
        substituted(seq!['{', '{'] + name + seq!['}', '}'], values) == values[name],
{
    let none = Seq::<char>::empty();
    lemma_pair_free(none, '{');
    lemma_pair_free(name, '}');
    lemma_substituted(none, name, none, values);
    lemma_nothing_substituted(none, none, values);
    assert(none + seq!['{', '{'] + name + seq!['}', '}'] + none =~= seq!['{', '{'] + name
        + seq!['}', '}']);
    assert(none + values[name] + none =~= values[name]);
}

/// The placeholders of a text are the first one and those of what stands behind
/// it.
pub proof fn lemma_placeholders(a: Seq<char>, name: Seq<char>, b: Seq<char>)
    requires
        pair_free(a, '{'),
        pair_free(name, '}'),
    ensures
        placeholders(a + seq!['{', '{'] + name + seq!['}', '}'] + b) == seq![name] + placeholders(
            b,
        ),
{
    lemma_split_at_placeholder(a, name, b);
}

/// A text without a closed pair of braces has no placeholders.
pub proof fn lemma_no_placeholders(a: Seq<char>, b: Seq<char>)
    ensures
        lacks(a, seq!['{', '{']) ==> placeholders(a).len() == 0,
        pair_free(a, '{') && lacks(b, seq!['}', '}']) ==> placeholders(
            a + seq!['{', '{'] + b,
        ).len() == 0,
{
    let open = seq!['{', '{'];
    let close = seq!['}', '}'];
    lemma_not_mentioned(a, open);
    if pair_free(a, '{') && lacks(b, close) {
        lemma_pair_behind(a, '{', b);
        lemma_find_first(a, open, b);
        lemma_not_mentioned(b, close);
        assert((a + open + b).skip(a.len() as int + 2) =~= b);
    }
}

/// A name between braces is a variable if and only if it is made of capital
/// letters and underscores, and is listed once.
pub proof fn lemma_variable_names(s: Seq<char>)
    ensures
        variables(s).no_duplicates(),
        forall|name: Seq<char>| #[trigger]
            variables(s).contains(name) <==> placeholders(s).contains(name) && name.len() > 0 && (
            forall|i: int| 0 <= i < name.len() ==> 'A' <= #[trigger] name[i] <= 'Z' || name[i]
                == '_'),
{
    lemma_variables_among(placeholders(s));
    assert forall|name: Seq<char>| #[trigger] variables(s).contains(name) <==> placeholders(
        s,
    ).contains(name) && name.len() > 0 && (forall|i: int|
        0 <= i < name.len() ==> 'A' <= #[trigger] name[i] <= 'Z' || name[i] == '_') by {
        if crate::json_text::shouted(name) {
            assert forall|i: int| 0 <= i < name.len() implies 'A' <= #[trigger] name[i] <= 'Z'
                || name[i] == '_' by {
                assert(crate::json_text::shout(name[i]));
            }
        }
    }
}

/// Of two variables, the one that is listed first is named before the other is
/// ever named.
pub proof fn lemma_variables_ordered(s: Seq<char>, i: int, j: int)
    requires
        0 <= i < j < variables(s).len(),
    ensures
        exists|k: int|
            0 <= k < placeholders(s).len() && #[trigger] placeholders(s)[k] == variables(s)[i] && (
            forall|m: int| 0 <= m <= k ==> #[trigger] placeholders(s)[m] != variables(s)[j]),
{
    lemma_ordered_among(placeholders(s), i, j);
}

proof fn lemma_ordered_among(names: Seq<Seq<char>>, i: int, j: int)
    requires
        0 <= i < j < variables_among(names).len(),
    ensures
        exists|k: int|
            0 <= k < names.len() && #[trigger] names[k] == variables_among(names)[i] && (forall|
                m: int,
            |
                0 <= m <= k ==> #[trigger] names[m] != variables_among(names)[j]),
    decreases names.len(),
{
    let shorter = names.drop_last();
    let before = variables_among(shorter);
    let all = variables_among(names);
    lemma_variables_among(shorter);
    if j < before.len() {
        lemma_ordered_among(shorter, i, j);
        let k = choose|k: int|
            0 <= k < shorter.len() && #[trigger] shorter[k] == before[i] && (forall|m: int|
                0 <= m <= k ==> #[trigger] shorter[m] != before[j]);
        assert(names[k] == all[i]);
        assert forall|m: int| 0 <= m <= k implies #[trigger] names[m] != all[j] by {
            assert(shorter[m] == names[m]);
        }
    } else {
        assert(before.contains(before[i]));
        assert(shorter.contains(before[i]));
        let k = shorter.index_of(before[i]);
        assert(names[k] == all[i]);
        assert forall|m: int| 0 <= m <= k implies #[trigger] names[m] != all[j] by {
            assert(shorter[m] == names[m]);
            assert(shorter.contains(shorter[m]));
        }
    }
}

/// Substituting in a tree substitutes in each of its texts, wherever they stand,
/// and changes neither the keys nor anything else.
pub proof fn lemma_substituted_in_tree(
    t: Tree,
    items: Seq<Tree>,
    entries: Seq<(Seq<char>, Tree)>,
    s: Seq<char>,
    values: Map<Seq<char>, Seq<char>>,
)
    ensures
        substituted_tree(Tree::Text(s), values) == Tree::Text(substituted(s, values)),
        substituted_tree(Tree::Array(items), values) matches Tree::Array(out) && out.len()
            == items.len() && (forall|i: int|
            0 <= i < items.len() ==> #[trigger] out[i] == substituted_tree(items[i], values)),
        substituted_tree(Tree::Object(entries), values) matches Tree::Object(out) && out.len()
            == entries.len() && (forall|i: int|
            0 <= i < entries.len() ==> (#[trigger] out[i]).0 == entries[i].0 && out[i].1
                == substituted_tree(entries[i].1, values)),
        !(t is Text) && !(t is Array) && !(t is Object) ==> substituted_tree(t, values) == t,
{
    let array = Tree::Array(items);
    assert(array->Array_0 == items);
    let object = Tree::Object(entries);
    assert(object->Object_0 == entries);
}

} // verus!
