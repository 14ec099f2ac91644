//! Templates with `{{NAME}}` placeholders: which variables a template names,
//! and what comes of it when their values are put in.

use vstd::prelude::*;

use crate::json::{entry_trees, lemma_array_view, lemma_object_view, trees, Json, Tree};
use crate::json_text::{placeholder, shout, shouted};
use crate::string_map::{texts, StringMap};
use crate::text::{chars_of, find, find_chars, find_from, lemma_find_from, lemma_find_in_rest, same_text, slice_text, views};

verus! {

/// What opens a placeholder.
pub open spec fn opening() -> Seq<char> {
    seq!['{', '{']
}

/// What closes a placeholder.
pub open spec fn closing() -> Seq<char> {
    seq!['}', '}']
}

/// What stands between an opening pair of braces and the next closing pair,
/// from the left.
pub open spec fn placeholders(s: Seq<char>) -> Seq<Seq<char>>
    decreases s.len(),
{
    match find(s, opening()) {
        Some(i) if 0 <= i && i + 2 <= s.len() => {
            let after = s.skip(i + 2);
            match find(after, closing()) {
                Some(j) if 0 <= j && j + 2 <= after.len() => seq![after.take(j)] + placeholders(
                    after.skip(j + 2),
                ),
                _ => Seq::empty(),
            }
        },
        _ => Seq::empty(),
    }
}

/// The names that are variables, each where it comes first.
pub open spec fn variables_among(names: Seq<Seq<char>>) -> Seq<Seq<char>>
    decreases names.len(),
{
    if names.len() == 0 {
        Seq::empty()
    } else {
        let before = variables_among(names.drop_last());
        if shouted(names.last()) && !before.contains(names.last()) {
            before.push(names.last())
        } else {
            before
        }
    }
}

/// The variables of a template.
pub open spec fn variables(s: Seq<char>) -> Seq<Seq<char>> {
    variables_among(placeholders(s))
}

/// A template with the values of its placeholders put in; a placeholder
/// without a value stays.
pub open spec fn substituted(s: Seq<char>, values: Map<Seq<char>, Seq<char>>) -> Seq<char>
    decreases s.len(),
{
    match find(s, opening()) {
        Some(i) if 0 <= i && i + 2 <= s.len() => {
            let after = s.skip(i + 2);
            match find(after, closing()) {
                Some(j) if 0 <= j && j + 2 <= after.len() => {
                    let name = after.take(j);
                    s.take(i) + (if values.contains_key(name) {
                        values[name]
                    } else {
                        placeholder(name)
                    }) + substituted(after.skip(j + 2), values)
                },
                _ => s,
            }
        },
        _ => s,
    }
}

fn is_variable(name: &str) -> (r: bool)
    ensures
        r == shouted(name@),
{
    let v = chars_of(name);
    let mut i: usize = 0;
    while i < v.len()
        invariant
            v@ == name@,
            i <= v@.len(),
            forall|j: int| 0 <= j < i ==> shout(#[trigger] v@[j]),
        decreases v@.len() - i,
    {
        let c = v[i];
        if !(('A' <= c && c <= 'Z') || c == '_') {
            assert(!shout(name@[i as int]));
            return false;
        }
        i = i + 1;
    }
    v.len() > 0
}

fn is_among(v: &Vec<String>, s: &str) -> (r: bool)
    ensures
        r == views(v@).contains(s@),
{
    let mut i: usize = 0;
    while i < v.len()
        invariant
            i <= v@.len(),
            forall|j: int| 0 <= j < i ==> (#[trigger] v@[j])@ != s@,
        decreases v@.len() - i,
    {
        if same_text(v[i].as_str(), s) {
            assert(views(v@)[i as int] == s@);
            return true;
        }
        i = i + 1;
    }
    assert forall|j: int| 0 <= j < views(v@).len() implies views(v@)[j] != s@ by {
        assert(views(v@)[j] == v@[j]@);
    }
    false
}

/// The variables that a template names, each once, in the order in which they
/// first come.
pub fn extract_variables(template: &str) -> (r: Vec<String>)
    ensures
        views(r@) == variables(template@),
{
    let t = chars_of(template);
    let open: Vec<char> = vec!['{', '{'];
    let close: Vec<char> = vec!['}', '}'];
    assert(open@ == opening());
    assert(close@ == closing());
    let n: usize = t.len();
    let mut out: Vec<String> = Vec::new();
    let mut at: usize = 0;
    let ghost mut seen: Seq<Seq<char>> = Seq::empty();
    assert(t@.skip(0) == t@);
    assert(seen + placeholders(t@) == placeholders(t@));
    assert(views(out@) == variables_among(seen));
    loop
        invariant
            n == t@.len(),
            t@ == template@,
            at <= t@.len(),
            open@ == opening(),
            close@ == closing(),
            placeholders(t@) == seen + placeholders(t@.skip(at as int)),
            views(out@) == variables_among(seen),
        decreases n - at,
    {
        let ghost rest = t@.skip(at as int);
        proof {
            lemma_find_in_rest(t@, opening(), at as int);
        }
        match find_chars(&t, &open, at) {
            None => {
                assert(seen + Seq::<Seq<char>>::empty() == seen);
                return out;
            },
            Some(i) => {
                let from: usize = i + 2;
                assert(rest.skip(i - at + 2) == t@.skip(from as int));
                proof {
                    lemma_find_in_rest(t@, closing(), from as int);
                }
                match find_chars(&t, &close, from) {
                    None => {
                        assert(seen + Seq::<Seq<char>>::empty() == seen);
                        return out;
                    },
                    Some(j) => {
                        let name = slice_text(&t, from, j);
                        let ghost after = t@.skip(from as int);
                        assert(after.take(j - from) == name@);
                        assert(after.skip(j - from + 2) == t@.skip(j + 2));
                        let ghost now = seen.push(name@);
                        assert(seen + (seq![name@] + placeholders(t@.skip(j + 2))) == now
                            + placeholders(t@.skip(j + 2)));
                        assert(now.drop_last() == seen);
                        if is_variable(name.as_str()) && !is_among(&out, name.as_str()) {
                            let ghost was = out@;
                            out.push(name);
                            assert(views(out@) == views(was).push(name@));
                        }
                        proof {
                            seen = now;
                        }
                        at = j + 2;
                    },
                }
            },
        }
    }
}

/// A template with the values of its variables put in. What stands between
/// braces and has no value stays as it is, and so does an opening pair of
/// braces that is never closed.
pub fn substitute_string(template: &str, vars: &StringMap<String>) -> (r: String)
    ensures
        r@ == substituted(template@, texts(vars@)),
{
    let ghost values = texts(vars@);
    let t = chars_of(template);
    let open: Vec<char> = vec!['{', '{'];
    let close: Vec<char> = vec!['}', '}'];
    assert(open@ == opening());
    assert(close@ == closing());
    let n: usize = t.len();
    let mut out = String::new();
    let mut at: usize = 0;
    assert(t@.skip(0) == t@);
    loop
        invariant
            n == t@.len(),
            t@ == template@,
            at <= t@.len(),
            open@ == opening(),
            close@ == closing(),
            values == texts(vars@),
            substituted(t@, values) == out@ + substituted(t@.skip(at as int), values),
        decreases n - at,
    {
        let ghost rest = t@.skip(at as int);
        proof {
            lemma_find_in_rest(t@, opening(), at as int);
        }
        match find_chars(&t, &open, at) {
            None => {
                out.append(slice_text(&t, at, n).as_str());
                assert(rest == t@.subrange(at as int, n as int));
                return out;
            },
            Some(i) => {
                let from: usize = i + 2;
                assert(rest.skip(i - at + 2) == t@.skip(from as int));
                proof {
                    lemma_find_in_rest(t@, closing(), from as int);
                }
                match find_chars(&t, &close, from) {
                    None => {
                        out.append(slice_text(&t, at, n).as_str());
                        assert(rest == t@.subrange(at as int, n as int));
                        return out;
                    },
                    Some(j) => {
                        let name = slice_text(&t, from, j);
                        let ghost after = t@.skip(from as int);
                        assert(after.take(j - from) == name@);
                        assert(after.skip(j - from + 2) == t@.skip(j + 2));
                        assert(rest.take(i - at) == t@.subrange(at as int, i as int));
                        let ghost before = out@;
                        let ghost value = if values.contains_key(name@) {
                            values[name@]
                        } else {
                            placeholder(name@)
                        };
                        out.append(slice_text(&t, at, i).as_str());
                        match vars.get(name.as_str()) {
                            Some(v) => {
                                assert(values[name@] == v@);
                                out.append(v.as_str());
                            },
                            None => {
                                proof {
                                    lemma_found_placeholder(t@, at as int, i as int, j as int);
                                }
                                out.append(slice_text(&t, i, j + 2).as_str());
                            },
                        }
                        assert(out@ == before + rest.take(i - at) + value);
                        assert(substituted(rest, values) == rest.take(i - at) + value
                            + substituted(t@.skip(j + 2), values));
                        assert(before + (rest.take(i - at) + value + substituted(
                            t@.skip(j + 2),
                            values,
                        )) == out@ + substituted(t@.skip(j + 2), values));
                        at = j + 2;
                    },
                }
            },
        }
    }
}

proof fn lemma_found_placeholder(t: Seq<char>, at: int, i: int, j: int)
    requires
        0 <= at <= t.len(),
        find_from(t, opening(), at) == Some(i),
        find_from(t, closing(), i + 2) == Some(j),
    ensures
        t.subrange(i, j + 2) == placeholder(t.subrange(i + 2, j)),
{
    lemma_find_from(t, opening(), at);
    lemma_find_from(t, closing(), i + 2);
    assert(t.subrange(i, i + 2) == opening());
    assert(t.subrange(j, j + 2) == closing());
    assert(t.subrange(i, j + 2) == t.subrange(i, i + 2) + t.subrange(i + 2, j) + t.subrange(
        j,
        j + 2,
    ));
}

/// A tree with the values of the placeholders in its texts put in; keys stay.
pub open spec fn substituted_tree(t: Tree, values: Map<Seq<char>, Seq<char>>) -> Tree
    decreases t,
{
    match t {
        Tree::Text(s) => Tree::Text(substituted(s, values)),
        Tree::Array(items) => Tree::Array(
            Seq::new(
                items.len(),
                |i: int|
                    if 0 <= i < items.len() {
                        substituted_tree(items[i], values)
                    } else {
                        Tree::Null
                    },
            ),
        ),
        Tree::Object(entries) => Tree::Object(
            Seq::new(
                entries.len(),
                |i: int|
                    (
                        entries[i].0,
                        if 0 <= i < entries.len() {
                            substituted_tree(entries[i].1, values)
                        } else {
                            Tree::Null
                        },
                    ),
            ),
        ),
        _ => t,
    }
}

fn substituted_json(value: &Json, vars: &StringMap<String>) -> (r: Json)
    ensures
        r@ == substituted_tree(value@, texts(vars@)),
    decreases value@,
{
    broadcast use {lemma_array_view, lemma_object_view};
    let ghost values = texts(vars@);
    match value {
        Json::Text(s) => Json::Text(substitute_string(s.as_str(), vars)),
        Json::Array(items) => {
            let mut out: Vec<Json> = Vec::new();
            let mut k: usize = 0;
            while k < items.len()
                invariant
                    value@ == Tree::Array(trees(items@)),
                    values == texts(vars@),
                    k == out@.len(),
                    k <= items@.len(),
                    forall|i: int|
                        0 <= i < k ==> (#[trigger] out@[i])@ == substituted_tree(
                            items@[i]@,
                            values,
                        ),
                decreases items@.len() - k,
            {
                assert(value@->Array_0[k as int] == items@[k as int]@);
                out.push(substituted_json(&items[k], vars));
                k = k + 1;
            }
            let ghost done = substituted_tree(value@, values)->Array_0;
            assert(trees(out@) =~= done);
            Json::Array(out)
        },
        Json::Object(entries) => {
            let mut out: Vec<(String, Json)> = Vec::new();
            let mut k: usize = 0;
            while k < entries.len()
                invariant
                    value@ == Tree::Object(entry_trees(entries@)),
                    values == texts(vars@),
                    k == out@.len(),
                    k <= entries@.len(),
                    forall|i: int|
                        0 <= i < k ==> (#[trigger] out@[i]).0@ == entries@[i].0@ && out@[i].1@
                            == substituted_tree(entries@[i].1@, values),
                decreases entries@.len() - k,
            {
                assert(value@->Object_0[k as int].1 == entries@[k as int].1@);
                out.push((entries[k].0.clone(), substituted_json(&entries[k].1, vars)));
                k = k + 1;
            }
            let ghost done = substituted_tree(value@, values)->Object_0;
            assert(entry_trees(out@) =~= done);
            Json::Object(out)
        },
        _ => value.duplicate(),
    }
}

/// Puts the values of the variables into every text of a value; the keys of
/// objects stay as they are.
pub fn substitute_value(value: &mut Json, vars: &StringMap<String>)
    ensures
        final(value)@ == substituted_tree(old(value)@, texts(vars@)),
{
    let done = substituted_json(value, vars);
    *value = done;
}

/// Substitution keeps a tree well formed.
pub proof fn lemma_substituted_shape(t: Tree, values: Map<Seq<char>, Seq<char>>)
    ensures
        t.wf() ==> substituted_tree(t, values).wf(),
        t.plain() ==> substituted_tree(t, values).plain(),
    decreases t,
{
    let out = substituted_tree(t, values);
    match t {
        Tree::Array(items) => {
            assert(t->Array_0 == items);
            assert forall|i: int| 0 <= i < items.len() implies (t.wf() ==> (
            #[trigger] out->Array_0[i]).wf()) && (t.plain() ==> out->Array_0[i].plain()) by {
                lemma_substituted_shape(items[i], values);
            }
        },
        Tree::Object(entries) => {
            assert(t->Object_0 == entries);
            assert forall|i: int| 0 <= i < entries.len() implies (t.wf() ==> (
            #[trigger] out->Object_0[i]).1.wf()) && (t.plain() ==> out->Object_0[i].1.plain())
                && out->Object_0[i].0 == entries[i].0 by {
                lemma_substituted_shape(entries[i].1, values);
            }
        },
        _ => {},
    }
}

/// Two maps that agree on what stands between braces in a template make the
/// same of it.
pub proof fn lemma_substituted_agrees(
    s: Seq<char>,
    a: Map<Seq<char>, Seq<char>>,
    b: Map<Seq<char>, Seq<char>>,
)
    requires
        forall|name: Seq<char>| #[trigger]
            placeholders(s).contains(name) ==> a.contains_key(name) == b.contains_key(name) && (
            a.contains_key(name) ==> a[name] == b[name]),
    ensures
        substituted(s, a) == substituted(s, b),
    decreases s.len(),
{
    if let Some(i) = find(s, opening()) {
        if 0 <= i && i + 2 <= s.len() {
            let after = s.skip(i + 2);
            if let Some(j) = find(after, closing()) {
                if 0 <= j && j + 2 <= after.len() {
                    let name = after.take(j);
                    let rest = after.skip(j + 2);
                    assert(placeholders(s) == seq![name] + placeholders(rest));
                    assert(placeholders(s)[0] == name);
                    assert(placeholders(s).contains(name));
                    assert forall|other: Seq<char>| #[trigger]
                        placeholders(rest).contains(other) implies a.contains_key(other)
                        == b.contains_key(other) && (a.contains_key(other) ==> a[other]
                        == b[other]) by {
                        let k = placeholders(rest).index_of(other);
                        assert(placeholders(s)[k + 1] == other);
                        assert(placeholders(s).contains(other));
                    }
                    lemma_substituted_agrees(rest, a, b);
                }
            }
        }
    }
}

/// A template stays as it is where nothing between its braces has a value.
pub proof fn lemma_substituted_unchanged(s: Seq<char>, values: Map<Seq<char>, Seq<char>>)
    requires
        forall|name: Seq<char>| #[trigger]
            placeholders(s).contains(name) ==> !values.contains_key(name),
    ensures
        substituted(s, values) == s,
    decreases s.len(),
{
    lemma_find_from(s, opening(), 0);
    if let Some(i) = find(s, opening()) {
        if 0 <= i && i + 2 <= s.len() {
            let after = s.skip(i + 2);
            lemma_find_from(after, closing(), 0);
            if let Some(j) = find(after, closing()) {
                if 0 <= j && j + 2 <= after.len() {
                    let name = after.take(j);
                    let rest = after.skip(j + 2);
                    assert(placeholders(s) == seq![name] + placeholders(rest));
                    assert(placeholders(s)[0] == name);
                    assert(placeholders(s).contains(name));
                    assert forall|other: Seq<char>| #[trigger]
                        placeholders(rest).contains(other) implies !values.contains_key(other) by {
                        let k = placeholders(rest).index_of(other);
                        assert(placeholders(s)[k + 1] == other);
                        assert(placeholders(s).contains(other));
                    }
                    lemma_substituted_unchanged(rest, values);
                    assert(s.subrange(i, i + 2) == opening());
                    assert(after.subrange(j, j + 2) == closing());
                    assert(s == s.take(i) + s.subrange(i, i + 2) + after.take(j) + after.subrange(
                        j,
                        j + 2,
                    ) + rest);
                }
            }
        }
    }
}

/// The variables of a template are distinct, and they are what stands between
/// its braces and is made of capital letters and underscores.
pub proof fn lemma_variables(s: Seq<char>)
    ensures
        variables(s).no_duplicates(),
        forall|name: Seq<char>| #[trigger]
            variables(s).contains(name) <==> placeholders(s).contains(name) && shouted(name),
{
    lemma_variables_among(placeholders(s));
}

/// The variables among names are distinct, and they are the names made of
/// capital letters and underscores.
pub proof fn lemma_variables_among(names: Seq<Seq<char>>)
    ensures
        variables_among(names).no_duplicates(),
        forall|name: Seq<char>| #[trigger]
            variables_among(names).contains(name) <==> names.contains(name) && shouted(name),
    decreases names.len(),
{
    let all = variables_among(names);
    if names.len() > 0 {
        let before = variables_among(names.drop_last());
        let last = names.last();
        lemma_variables_among(names.drop_last());
        assert forall|name: Seq<char>| #[trigger] all.contains(name) <==> names.contains(name)
            && shouted(name) by {
            if names.contains(name) {
                let k = names.index_of(name);
                if k < names.len() - 1 {
                    assert(names.drop_last()[k] == name);
                    assert(names.drop_last().contains(name));
                }
            }
            if names.drop_last().contains(name) {
                let k = names.drop_last().index_of(name);
                assert(names[k] == name);
            }
            assert(names[names.len() - 1] == last);
            if before.contains(name) {
                let k = before.index_of(name);
                assert(all[k] == name);
            }
            if all.contains(name) {
                let k = all.index_of(name);
                if k < before.len() {
                    assert(before[k] == name);
                }
            }
            if all.len() > before.len() {
                assert(all[before.len() as int] == last);
            }
        }
    }
}

/// A tree stays as it is where there are no values.
pub proof fn lemma_no_values(t: Tree)
    ensures
        substituted_tree(t, Map::empty()) == t,
    decreases t,
{
    let none = Map::<Seq<char>, Seq<char>>::empty();
    let out = substituted_tree(t, none);
    match t {
        Tree::Text(s) => lemma_substituted_unchanged(s, none),
        Tree::Array(items) => {
            assert(t->Array_0 == items);
            assert forall|i: int| 0 <= i < items.len() implies #[trigger] out->Array_0[i]
                == items[i] by {
                lemma_no_values(items[i]);
            }
            assert(out->Array_0 =~= items);
        },
        Tree::Object(entries) => {
            assert(t->Object_0 == entries);
            assert forall|i: int| 0 <= i < entries.len() implies #[trigger] out->Object_0[i]
                == entries[i] by {
                lemma_no_values(entries[i].1);
            }
            assert(out->Object_0 =~= entries);
        },
        _ => {},
    }
}

} // verus!
