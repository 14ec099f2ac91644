//! JSON values: the type the library computes on, its mathematical model, and
//! the conversions from and to `serde_json`.

use vstd::prelude::*;

use crate::json_text::{json_text, read_of};
use crate::text::{chars_of, same_text};

verus! {

/// `serde_json::Value`, a JSON value as that crate holds it.
#[verifier::external_type_specification]
#[verifier::external_body]
pub struct ExValue(serde_json::Value);

/// `serde_json::Number`, carried through unread.
#[verifier::external_type_specification]
#[verifier::external_body]
pub struct ExNumber(serde_json::Number);

/// What a JSON value is. A number is modelled by the text that writes it; the
/// entries of an object stand in the order of their keys.
pub enum Tree {
    Null,
    Bool(bool),
    Number(Seq<char>),
    Text(Seq<char>),
    Array(Seq<Tree>),
    Object(Seq<(Seq<char>, Tree)>),
}

/// A JSON value.
#[derive(Debug, PartialEq)]
pub enum Json {
    Null,
    Bool(bool),
    Number(serde_json::Number),
    Text(String),
    Array(Vec<Json>),
    Object(Vec<(String, Json)>),
}

impl View for Json {
    type V = Tree;

    open spec fn view(&self) -> Tree
        decreases self,
    {
        match self {
            Json::Null => Tree::Null,
            Json::Bool(b) => Tree::Bool(*b),
            Json::Number(n) => Tree::Number(number_text(*n)),
            Json::Text(s) => Tree::Text(s@),
            Json::Array(items) => Tree::Array(
                Seq::new(
                    items@.len(),
                    |i: int|
                        if 0 <= i < items@.len() {
                            items@[i]@
                        } else {
                            Tree::Null
                        },
                ),
            ),
            Json::Object(entries) => Tree::Object(
                Seq::new(
                    entries@.len(),
                    |i: int|
                        (
                            entries@[i].0@,
                            if 0 <= i < entries@.len() {
                                entries@[i].1@
                            } else {
                                Tree::Null
                            },
                        ),
                ),
            ),
        }
    }
}

/// The models of a sequence of JSON values.
pub open spec fn trees(items: Seq<Json>) -> Seq<Tree> {
    Seq::new(items.len(), |i: int| items[i]@)
}

/// The models of the entries of an object.
pub open spec fn entry_trees(entries: Seq<(String, Json)>) -> Seq<(Seq<char>, Tree)> {
    Seq::new(entries.len(), |i: int| (entries[i].0@, entries[i].1@))
}

/// The model of an array is made of the models of its items.
pub broadcast proof fn lemma_array_view(items: Vec<Json>)
    ensures
        #[trigger] Json::Array(items)@ == Tree::Array(trees(items@)),
{
    assert(Json::Array(items)@->Array_0 =~= trees(items@));
}

/// The model of an object is made of the models of its values.
pub broadcast proof fn lemma_object_view(entries: Vec<(String, Json)>)
    ensures
        #[trigger] Json::Object(entries)@ == Tree::Object(entry_trees(entries@)),
{
    let viewed = Json::Object(entries)@->Object_0;
    assert forall|i: int| 0 <= i < entries@.len() implies viewed[i] == entry_trees(entries@)[i] by {
        assert(viewed[i] == (entries@[i].0@, entries@[i].1@));
    }
    assert(viewed =~= entry_trees(entries@));
}

/// The model of an optional JSON value.
pub open spec fn optional_tree(v: Option<Json>) -> Option<Tree> {
    match v {
        Some(v) => Some(v@),
        None => None,
    }
}

/// The value, if there is one, is well formed.
pub open spec fn well_formed(v: Option<Json>) -> bool {
    v matches Some(v) ==> v@.wf()
}

/// The order of the keys of an object: by their characters, from the first.
pub open spec fn precedes(a: Seq<char>, b: Seq<char>) -> bool
    decreases a.len(),
{
    if b.len() == 0 {
        false
    } else if a.len() == 0 {
        true
    } else if a[0] != b[0] {
        a[0] < b[0]
    } else {
        precedes(a.skip(1), b.skip(1))
    }
}

/// Every key precedes all later ones.
pub open spec fn keys_ordered(entries: Seq<(Seq<char>, Tree)>) -> bool {
    forall|i: int, j: int|
        0 <= i < j < entries.len() ==> precedes(#[trigger] entries[i].0, #[trigger] entries[j].0)
}

/// A character that the text of a number may hold.
pub open spec fn numeric(c: char) -> bool {
    '0' <= c <= '9' || c == '.' || c == '-' || c == '+' || c == 'e'
}

/// The text of a number: numeric characters, at least one.
pub open spec fn numeric_text(s: Seq<char>) -> bool {
    s.len() > 0 && forall|i: int| 0 <= i < s.len() ==> numeric(#[trigger] s[i])
}

impl Tree {
    /// The number of arrays and objects inside one another.
    pub open spec fn depth(self) -> nat
        decreases self,
    {
        match self {
            Tree::Array(items) => 1 + items_depth(items),
            Tree::Object(entries) => 1 + entries_depth(entries),
            _ => 0,
        }
    }

    /// Every number in the tree has the text of a number.
    pub open spec fn plain(self) -> bool
        decreases self,
    {
        match self {
            Tree::Number(s) => numeric_text(s),
            Tree::Array(items) => forall|i: int|
                0 <= i < items.len() ==> (#[trigger] items[i]).plain(),
            Tree::Object(entries) => forall|i: int|
                0 <= i < entries.len() ==> (#[trigger] entries[i]).1.plain(),
            _ => true,
        }
    }

    /// A tree that a JSON value has: plain, and the keys of every object in
    /// order, each once.
    pub open spec fn wf(self) -> bool
        decreases self,
    {
        match self {
            Tree::Number(s) => numeric_text(s),
            Tree::Array(items) => forall|i: int|
                0 <= i < items.len() ==> (#[trigger] items[i]).wf(),
            Tree::Object(entries) => keys_ordered(entries) && forall|i: int|
                0 <= i < entries.len() ==> (#[trigger] entries[i]).1.wf(),
            _ => true,
        }
    }
}

/// How deep the deepest of the items nests.
pub open spec fn items_depth(items: Seq<Tree>) -> nat
    decreases items,
{
    if items.len() == 0 {
        0
    } else {
        larger(items_depth(items.drop_last()), items.last().depth())
    }
}

/// How deep the deepest value of the entries nests.
pub open spec fn entries_depth(entries: Seq<(Seq<char>, Tree)>) -> nat
    decreases entries,
{
    if entries.len() == 0 {
        0
    } else {
        larger(entries_depth(entries.drop_last()), entries.last().1.depth())
    }
}

pub open spec fn larger(a: nat, b: nat) -> nat {
    if a < b {
        b
    } else {
        a
    }
}

/// The text of a number, as `serde_json::Number` displays it.
pub uninterp spec fn number_text(n: serde_json::Number) -> Seq<char>;

/// The tree that a `serde_json::Value` holds.
pub uninterp spec fn value_tree(v: serde_json::Value) -> Tree;

/// What `serde_json::from_str` reads a text as: a tree, or an error message.
pub uninterp spec fn parsed_json(text: Seq<char>) -> Result<Tree, Seq<char>>;

/// The text is read as the tree.
pub open spec fn reads_as(text: Seq<char>, t: Tree) -> bool {
    parsed_json(text) == Ok::<Tree, Seq<char>>(t)
}

/// One level of a `serde_json::Value`.
pub enum Node {
    Null,
    Bool(bool),
    Number(serde_json::Number),
    Text(String),
    Array(Vec<serde_json::Value>),
    Object(Vec<(String, serde_json::Value)>),
}

impl Node {
    /// The tree of the value that has this level.
    pub open spec fn tree(self) -> Tree {
        match self {
            Node::Null => Tree::Null,
            Node::Bool(b) => Tree::Bool(b),
            Node::Number(n) => Tree::Number(number_text(n)),
            Node::Text(s) => Tree::Text(s@),
            Node::Array(items) => Tree::Array(value_trees(items@)),
            Node::Object(entries) => Tree::Object(value_entry_trees(entries@)),
        }
    }
}

/// The trees of a sequence of `serde_json` values.
pub open spec fn value_trees(items: Seq<serde_json::Value>) -> Seq<Tree> {
    Seq::new(items.len(), |i: int| value_tree(items[i]))
}

/// The trees of the entries of a `serde_json` object.
pub open spec fn value_entry_trees(entries: Seq<(String, serde_json::Value)>) -> Seq<
    (Seq<char>, Tree),
> {
    Seq::new(entries.len(), |i: int| (entries[i].0@, value_tree(entries[i].1)))
}

/// Takes a `serde_json::Value` apart by its variant: a string, a number and
/// the items of an array are moved out, and `Map::into_iter` hands out the
/// entries of an object. That map keeps its entries sorted by key, each key
/// once, and the text of a number holds numeric characters only, so the tree
/// of any value is well formed.
#[verifier::external_body]
pub(crate) fn open_value(v: serde_json::Value) -> (r: Node)
    ensures
        r.tree() == value_tree(v) && r.tree().wf(),
{
    match v {
        serde_json::Value::Null => Node::Null,
        serde_json::Value::Bool(b) => Node::Bool(b),
        serde_json::Value::Number(n) => Node::Number(n),
        serde_json::Value::String(s) => Node::Text(s),
        serde_json::Value::Array(items) => Node::Array(items),
        serde_json::Value::Object(entries) => Node::Object(entries.into_iter().collect()),
    }
}

/// Puts a `serde_json::Value` together from its variant and what it holds; the
/// entries of an object go through `Map::from_iter`, which keeps entries with
/// ordered, distinct keys as they are.
#[verifier::external_body]
pub(crate) fn close_value(node: Node) -> (r: serde_json::Value)
    requires
        node.tree() matches Tree::Object(entries) ==> keys_ordered(entries),
    ensures
        value_tree(r) == node.tree(),
{
    match node {
        Node::Null => serde_json::Value::Null,
        Node::Bool(b) => serde_json::Value::Bool(b),
        Node::Number(n) => serde_json::Value::Number(n),
        Node::Text(s) => serde_json::Value::String(s),
        Node::Array(items) => serde_json::Value::Array(items),
        Node::Object(entries) => serde_json::Value::Object(entries.into_iter().collect()),
    }
}

/// `serde_json::from_str` on a text. The result depends on the text alone. The
/// compact text of a tree is read as that tree if the tree nests within the
/// reader's limit and each number in it is an integer that an `i64` or a `u64`
/// holds, or reads back on its own (a float may come back rounded). Whatever is
/// read from the compact text of a tree nests no deeper than that tree.
#[verifier::external_body]
pub(crate) fn read_value(text: &str) -> (r: Result<serde_json::Value, String>)
    ensures
        match r {
            Ok(v) => parsed_json(text@) == Ok::<Tree, Seq<char>>(value_tree(v)) && read_of(
                text@,
                Some(value_tree(v)),
            ),
            Err(message) => parsed_json(text@) == Err::<Tree, Seq<char>>(message@) && read_of(
                text@,
                None,
            ),
        },
{
    serde_json::from_str::<serde_json::Value>(text).map_err(|e| e.to_string())
}

/// `serde_json::to_string` on a value, which succeeds on every value and
/// writes the compact text of its tree.
#[verifier::external_body]
pub(crate) fn write_value(v: &serde_json::Value) -> (r: String)
    ensures
        r@ == json_text(value_tree(*v)),
{
    serde_json::to_string(v).unwrap_or_default()
}

/// `serde_json::Number`'s display: digits, a point, signs and an exponent mark.
#[verifier::external_body]
pub(crate) fn display_number(n: &serde_json::Number) -> (r: String)
    ensures
        r@ == number_text(*n) && numeric_text(r@),
{
    n.to_string()
}

/// `serde_json::Number`'s clone.
pub assume_specification[ <serde_json::Number as Clone>::clone ](
    n: &serde_json::Number,
) -> (r: serde_json::Number)
    ensures
        r == *n,
;

impl Json {
    /// The value that a `serde_json::Value` holds.
    pub fn from_value(v: serde_json::Value) -> (r: Json)
        ensures
            r@ == value_tree(v),
            r@.wf(),
        decreases value_tree(v),
    {
        broadcast use {lemma_array_view, lemma_object_view};
        match open_value(v) {
            Node::Null => Json::Null,
            Node::Bool(b) => Json::Bool(b),
            Node::Number(n) => Json::Number(n),
            Node::Text(s) => Json::Text(s),
            Node::Array(items) => {
                let ghost all = items@;
                let mut out: Vec<Json> = Vec::new();
                for item in it: items
                    invariant
                        it.seq() == all,
                        out@.len() == it.index(),
                        value_tree(v) == Tree::Array(value_trees(all)),
                        forall|i: int|
                            0 <= i < it.index() ==> (#[trigger] out@[i])@ == value_tree(all[i]),
                {
                    assert(value_tree(v)->Array_0[it.index()] == value_tree(item));
                    out.push(Json::from_value(item));
                }
                assert(trees(out@) =~= value_trees(all));
                Json::Array(out)
            },
            Node::Object(entries) => {
                let ghost all = entries@;
                let mut out: Vec<(String, Json)> = Vec::new();
                for entry in it: entries
                    invariant
                        it.seq() == all,
                        out@.len() == it.index(),
                        value_tree(v) == Tree::Object(value_entry_trees(all)),
                        forall|i: int|
                            0 <= i < it.index() ==> (#[trigger] out@[i]).0@ == all[i].0@
                                && out@[i].1@ == value_tree(all[i].1),
                {
                    assert(value_tree(v)->Object_0[it.index()].1 == value_tree(entry.1));
                    out.push((entry.0, Json::from_value(entry.1)));
                }
                assert(entry_trees(out@) =~= value_entry_trees(all));
                Json::Object(out)
            },
        }
    }

    /// The `serde_json::Value` that holds this value.
    pub fn to_value(&self) -> (r: serde_json::Value)
        requires
            self@.wf(),
        ensures
            value_tree(r) == self@,
        decreases self@,
    {
        broadcast use {lemma_array_view, lemma_object_view};
        match self {
            Json::Null => close_value(Node::Null),
            Json::Bool(b) => close_value(Node::Bool(*b)),
            Json::Number(n) => close_value(Node::Number(n.clone())),
            Json::Text(s) => close_value(Node::Text(s.clone())),
            Json::Array(items) => {
                let mut out: Vec<serde_json::Value> = Vec::new();
                let mut k: usize = 0;
                while k < items.len()
                    invariant
                        self@.wf(),
                        self@ == Tree::Array(trees(items@)),
                        k == out@.len(),
                        k <= items@.len(),
                        forall|i: int|
                            0 <= i < k ==> value_tree(#[trigger] out@[i]) == items@[i]@,
                    decreases items@.len() - k,
                {
                    assert(self@->Array_0[k as int] == items@[k as int]@);
                    out.push(items[k].to_value());
                    k = k + 1;
                }
                assert(value_trees(out@) =~= trees(items@));
                close_value(Node::Array(out))
            },
            Json::Object(entries) => {
                let mut out: Vec<(String, serde_json::Value)> = Vec::new();
                let mut k: usize = 0;
                while k < entries.len()
                    invariant
                        self@.wf(),
                        self@ == Tree::Object(entry_trees(entries@)),
                        k == out@.len(),
                        k <= entries@.len(),
                        forall|i: int|
                            0 <= i < k ==> (#[trigger] out@[i]).0@ == entries@[i].0@ && value_tree(
                                out@[i].1,
                            ) == entries@[i].1@,
                    decreases entries@.len() - k,
                {
                    assert(self@->Object_0[k as int].1 == entries@[k as int].1@);
                    out.push((entries[k].0.clone(), entries[k].1.to_value()));
                    k = k + 1;
                }
                assert(value_entry_trees(out@) =~= entry_trees(entries@));
                close_value(Node::Object(out))
            },
        }
    }

    /// Reads a JSON text; an error carries the reader's message.
    pub fn parse(text: &str) -> (r: Result<Json, String>)
        ensures
            match r {
                Ok(v) => reads_as(text@, v@) && v@.wf() && read_of(text@, Some(v@)),
                Err(message) => parsed_json(text@) == Err::<Tree, Seq<char>>(message@) && read_of(
                    text@,
                    None,
                ),
            },
    {
        match read_value(text) {
            Ok(v) => Ok(Json::from_value(v)),
            Err(message) => Err(message),
        }
    }

    /// The compact text of the value.
    pub fn to_text(&self) -> (r: String)
        requires
            self@.wf(),
        ensures
            r@ == json_text(self@),
    {
        write_value(&self.to_value())
    }

    /// A text as a JSON value.
    pub fn text(s: &str) -> (r: Json)
        ensures
            r@ == Tree::Text(s@),
    {
        Json::Text(s.to_owned())
    }

    /// The value again.
    pub fn duplicate(&self) -> (r: Json)
        ensures
            r@ == self@,
        decreases self@,
    {
        broadcast use {lemma_array_view, lemma_object_view};
        match self {
            Json::Null => Json::Null,
            Json::Bool(b) => Json::Bool(*b),
            Json::Number(n) => Json::Number(n.clone()),
            Json::Text(s) => Json::Text(s.clone()),
            Json::Array(items) => {
                assert(self@->Array_0 == trees(items@));
                Json::Array(duplicates(items))
            },
            Json::Object(entries) => {
                let mut out: Vec<(String, Json)> = Vec::new();
                let mut k: usize = 0;
                while k < entries.len()
                    invariant
                        self@ == Tree::Object(entry_trees(entries@)),
                        k == out@.len(),
                        k <= entries@.len(),
                        forall|i: int|
                            0 <= i < k ==> (#[trigger] out@[i]).0@ == entries@[i].0@ && out@[i].1@
                                == entries@[i].1@,
                    decreases entries@.len() - k,
                {
                    assert(self@->Object_0[k as int].1 == entries@[k as int].1@);
                    out.push((entries[k].0.clone(), entries[k].1.duplicate()));
                    k = k + 1;
                }
                assert(entry_trees(out@) =~= entry_trees(entries@));
                Json::Object(out)
            },
        }
    }
}

/// The values again.
pub(crate) fn duplicates(items: &Vec<Json>) -> (r: Vec<Json>)
    ensures
        trees(r@) == trees(items@),
    decreases trees(items@),
{
    let mut out: Vec<Json> = Vec::new();
    let mut k: usize = 0;
    while k < items.len()
        invariant
            k == out@.len(),
            k <= items@.len(),
            forall|i: int| 0 <= i < k ==> (#[trigger] out@[i])@ == items@[i]@,
        decreases items@.len() - k,
    {
        assert(trees(items@)[k as int] == items@[k as int]@);
        out.push(items[k].duplicate());
        k = k + 1;
    }
    assert(trees(out@) =~= trees(items@));
    out
}

/// The value under a key.
pub open spec fn entry(entries: Seq<(Seq<char>, Tree)>, key: Seq<char>) -> Option<Tree>
    decreases entries.len(),
{
    if entries.len() == 0 {
        None
    } else if entries[0].0 == key {
        Some(entries[0].1)
    } else {
        entry(entries.skip(1), key)
    }
}

/// The entries with `value` under `key`: in the place of the entry that has
/// this key, or as a new entry where the key belongs.
pub open spec fn with_entry(
    entries: Seq<(Seq<char>, Tree)>,
    key: Seq<char>,
    value: Tree,
) -> Seq<(Seq<char>, Tree)>
    decreases entries.len(),
{
    if entries.len() == 0 {
        seq![(key, value)]
    } else if entries[0].0 == key {
        seq![(key, value)] + entries.skip(1)
    } else if precedes(key, entries[0].0) {
        seq![(key, value)] + entries
    } else {
        seq![entries[0]] + with_entry(entries.skip(1), key, value)
    }
}

impl Tree {
    /// The value under a key of an object.
    pub open spec fn get(self, key: Seq<char>) -> Option<Tree> {
        match self {
            Tree::Object(entries) => entry(entries, key),
            _ => None,
        }
    }

    /// The item at a place of an array.
    pub open spec fn at(self, index: int) -> Option<Tree> {
        match self {
            Tree::Array(items) => if 0 <= index < items.len() {
                Some(items[index])
            } else {
                None
            },
            _ => None,
        }
    }

    /// The text, if the tree is one.
    pub open spec fn as_text(self) -> Option<Seq<char>> {
        match self {
            Tree::Text(s) => Some(s),
            _ => None,
        }
    }

    /// The object with `value` under `key`; a tree of another kind stays.
    pub open spec fn with(self, key: Seq<char>, value: Tree) -> Tree {
        match self {
            Tree::Object(entries) => Tree::Object(with_entry(entries, key, value)),
            other => other,
        }
    }
}

/// An object without entries.
pub open spec fn empty_object() -> Tree {
    Tree::Object(Seq::empty())
}

pub(crate) fn comes_before(a: &str, b: &str) -> (r: bool)
    ensures
        r == precedes(a@, b@),
{
    let x = chars_of(a);
    let y = chars_of(b);
    let mut i: usize = 0;
    assert(a@.skip(0) == a@);
    assert(b@.skip(0) == b@);
    while i < x.len() && i < y.len() && x[i] == y[i]
        invariant
            x@ == a@,
            y@ == b@,
            i <= x@.len(),
            i <= y@.len(),
            precedes(a@, b@) == precedes(a@.skip(i as int), b@.skip(i as int)),
        decreases x@.len() - i,
    {
        assert(a@.skip(i as int).skip(1) == a@.skip(i + 1));
        assert(b@.skip(i as int).skip(1) == b@.skip(i + 1));
        i = i + 1;
    }
    i < y.len() && (i >= x.len() || x[i] < y[i])
}

pub(crate) fn insert_entry(entries: &mut Vec<(String, Json)>, key: String, value: Json)
    ensures
        entry_trees(final(entries)@) == with_entry(entry_trees(old(entries)@), key@, value@),
{
    let ghost all = entry_trees(entries@);
    let ghost was = entries@;
    let mut i: usize = 0;
    assert(all.skip(0) == all);
    while i < entries.len()
        invariant
            i <= entries@.len(),
            entries@ == was,
            was == old(entries)@,
            all == entry_trees(was),
            with_entry(all, key@, value@) == all.take(i as int) + with_entry(
                all.skip(i as int),
                key@,
                value@,
            ),
        decreases entries@.len() - i,
    {
        let ghost rest = all.skip(i as int);
        assert(rest[0] == (was[i as int].0@, was[i as int].1@));
        if same_text(entries[i].0.as_str(), key.as_str()) {
            assert(rest.skip(1) == all.skip(i + 1));
            entries.set(i, (key, value));
            assert(entry_trees(entries@) =~= all.take(i as int) + (seq![(key@, value@)] + all.skip(
                i + 1,
            )));
            return ;
        }
        if comes_before(key.as_str(), entries[i].0.as_str()) {
            entries.insert(i, (key, value));
            assert(entry_trees(entries@) =~= all.take(i as int) + (seq![(key@, value@)] + all.skip(
                i as int,
            )));
            return ;
        }
        assert(rest.skip(1) == all.skip(i + 1));
        assert(all.take(i + 1) == all.take(i as int) + seq![all[i as int]]);
        i = i + 1;
    }
    entries.push((key, value));
    assert(entry_trees(entries@) =~= all.take(i as int) + seq![(key@, value@)]);
}

impl Json {
    /// The value under a key of an object.
    pub fn get(&self, key: &str) -> (r: Option<&Json>)
        ensures
            match r {
                Some(v) => self@.get(key@) == Some(v@) && (self@.wf() ==> v@.wf()),
                None => self@.get(key@) is None,
            },
    {
        broadcast use lemma_object_view;
        proof {
            if self@.wf() {
                lemma_get_wf(self@, key@);
            }
        }
        match self {
            Json::Object(entries) => {
                let ghost all = entry_trees(entries@);
                let mut i: usize = 0;
                assert(all.skip(0) == all);
                while i < entries.len()
                    invariant
                        i <= entries@.len(),
                        all == entry_trees(entries@),
                        self@ == Tree::Object(all),
                        self@.wf() ==> (self@.get(key@) matches Some(v) ==> v.wf()),
                        entry(all, key@) == entry(all.skip(i as int), key@),
                    decreases entries@.len() - i,
                {
                    assert(all.skip(i as int)[0] == (entries@[i as int].0@, entries@[i as int].1@));
                    if same_text(entries[i].0.as_str(), key) {
                        return Some(&entries[i].1);
                    }
                    assert(all.skip(i as int).skip(1) == all.skip(i + 1));
                    i = i + 1;
                }
                None
            },
            _ => None,
        }
    }

    /// The item at a place of an array.
    pub fn at(&self, index: usize) -> (r: Option<&Json>)
        ensures
            match r {
                Some(v) => self@.at(index as int) == Some(v@),
                None => self@.at(index as int) is None,
            },
    {
        broadcast use lemma_array_view;
        match self {
            Json::Array(items) => if index < items.len() {
                assert(trees(items@)[index as int] == items@[index as int]@);
                Some(&items[index])
            } else {
                None
            },
            _ => None,
        }
    }

    /// The text, if the value is one.
    pub fn as_text(&self) -> (r: Option<&String>)
        ensures
            match r {
                Some(s) => self@.as_text() == Some(s@),
                None => self@.as_text() is None,
            },
    {
        match self {
            Json::Text(s) => Some(s),
            _ => None,
        }
    }

    /// The text of the number, if the value is one.
    pub fn number_text(&self) -> (r: Option<String>)
        ensures
            match r {
                Some(s) => self@ == Tree::Number(s@) && self@.wf(),
                None => !(self@ is Number),
            },
    {
        match self {
            Json::Number(n) => Some(display_number(n)),
            _ => None,
        }
    }

    /// An object without entries.
    pub fn object() -> (r: Json)
        ensures
            r@ == empty_object(),
            r@.wf(),
    {
        let r = Json::Object(Vec::new());
        assert(r@->Object_0 =~= Seq::<(Seq<char>, Tree)>::empty());
        r
    }

    /// The object with `value` under `key`; a value of another kind stays.
    pub fn with(self, key: &str, value: Json) -> (r: Json)
        ensures
            r@ == self@.with(key@, value@),
            self@.wf() && value@.wf() ==> r@.wf(),
    {
        broadcast use lemma_object_view;
        match self {
            Json::Object(entries) => {
                let mut entries = entries;
                proof {
                    if self@.wf() && value@.wf() {
                        lemma_with_entry_wf(entry_trees(entries@), key@, value@);
                    }
                }
                insert_entry(&mut entries, key.to_owned(), value);
                Json::Object(entries)
            },
            other => other,
        }
    }
}

/// No key precedes itself.
pub proof fn lemma_precedes_irreflexive(a: Seq<char>)
    ensures
        !precedes(a, a),
    decreases a.len(),
{
    if a.len() > 0 {
        lemma_precedes_irreflexive(a.skip(1));
    }
}

/// The order of keys is transitive.
pub proof fn lemma_precedes_transitive(a: Seq<char>, b: Seq<char>, c: Seq<char>)
    requires
        precedes(a, b),
        precedes(b, c),
    ensures
        precedes(a, c),
    decreases a.len(),
{
    if a.len() > 0 && a[0] == b[0] && b[0] == c[0] {
        lemma_precedes_transitive(a.skip(1), b.skip(1), c.skip(1));
    }
}

/// Of two different keys one precedes the other.
pub proof fn lemma_precedes_total(a: Seq<char>, b: Seq<char>)
    ensures
        a == b || precedes(a, b) || precedes(b, a),
    decreases a.len(),
{
    if a.len() > 0 && b.len() > 0 && a[0] == b[0] {
        lemma_precedes_total(a.skip(1), b.skip(1));
        if a.skip(1) == b.skip(1) {
            assert(a =~= seq![a[0]] + a.skip(1));
            assert(b =~= seq![b[0]] + b.skip(1));
        }
    } else if a.len() == 0 && b.len() == 0 {
        assert(a =~= b);
    }
}

/// The keys of the entries that an insertion gives: the old ones and the new.
proof fn lemma_with_entry_keys(
    entries: Seq<(Seq<char>, Tree)>,
    key: Seq<char>,
    value: Tree,
    j: int,
)
    requires
        0 <= j < with_entry(entries, key, value).len(),
    ensures
        with_entry(entries, key, value)[j] == (key, value) || exists|i: int|
            0 <= i < entries.len() && with_entry(entries, key, value)[j] == #[trigger] entries[i],
    decreases entries.len(),
{
    let out = with_entry(entries, key, value);
    if entries.len() == 0 {
    } else if entries[0].0 == key {
        if j > 0 {
            assert(out[j] == entries[j]);
        }
    } else if precedes(key, entries[0].0) {
        if j > 0 {
            assert(out[j] == entries[j - 1]);
        }
    } else if j == 0 {
        assert(out[0] == entries[0]);
    } else {
        lemma_with_entry_keys(entries.skip(1), key, value, j - 1);
        if out[j] != (key, value) {
            let i = choose|i: int|
                0 <= i < entries.skip(1).len() && with_entry(entries.skip(1), key, value)[j - 1]
                    == #[trigger] entries.skip(1)[i];
            assert(out[j] == entries[i + 1]);
        }
    }
}

/// Inserting an entry keeps the keys in order and the values well formed.
pub proof fn lemma_with_entry_wf(entries: Seq<(Seq<char>, Tree)>, key: Seq<char>, value: Tree)
    requires
        Tree::Object(entries).wf(),
        value.wf(),
    ensures
        Tree::Object(with_entry(entries, key, value)).wf(),
{
    let out = with_entry(entries, key, value);
    lemma_with_entry_ordered(entries, key, value);
    assert forall|j: int| 0 <= j < out.len() implies (#[trigger] out[j]).1.wf() by {
        lemma_with_entry_keys(entries, key, value, j);
    }
}

proof fn lemma_with_entry_ordered(entries: Seq<(Seq<char>, Tree)>, key: Seq<char>, value: Tree)
    requires
        keys_ordered(entries),
    ensures
        keys_ordered(with_entry(entries, key, value)),
    decreases entries.len(),
{
    let out = with_entry(entries, key, value);
    if entries.len() == 0 {
    } else if entries[0].0 == key {
        assert forall|i: int, j: int| 0 <= i < j < out.len() implies precedes(
            #[trigger] out[i].0,
            #[trigger] out[j].0,
        ) by {
            assert(out[i].0 == entries[i].0 && out[j].0 == entries[j].0);
        }
    } else if precedes(key, entries[0].0) {
        assert forall|i: int, j: int| 0 <= i < j < out.len() implies precedes(
            #[trigger] out[i].0,
            #[trigger] out[j].0,
        ) by {
            assert(out[j] == entries[j - 1]);
            if i == 0 {
                if j > 1 {
                    lemma_precedes_transitive(key, entries[0].0, entries[j - 1].0);
                }
            } else {
                assert(out[i] == entries[i - 1]);
            }
        }
    } else {
        let rest = entries.skip(1);
        assert forall|i: int, j: int| 0 <= i < j < rest.len() implies precedes(
            #[trigger] rest[i].0,
            #[trigger] rest[j].0,
        ) by {
            assert(rest[i] == entries[i + 1] && rest[j] == entries[j + 1]);
        }
        lemma_with_entry_ordered(rest, key, value);
        lemma_precedes_total(key, entries[0].0);
        let inner = with_entry(rest, key, value);
        assert forall|i: int, j: int| 0 <= i < j < out.len() implies precedes(
            #[trigger] out[i].0,
            #[trigger] out[j].0,
        ) by {
            assert(out[j] == inner[j - 1]);
            if i == 0 {
                lemma_with_entry_keys(rest, key, value, j - 1);
                if inner[j - 1] != (key, value) {
                    let k = choose|k: int| 0 <= k < rest.len() && inner[j - 1] == #[trigger] rest[k];
                    assert(rest[k] == entries[k + 1]);
                }
            } else {
                assert(out[i] == inner[i - 1]);
            }
        }
    }
}

/// After an insertion the key has the new value, and every other key the value
/// it had.
pub proof fn lemma_with_entry_get(
    entries: Seq<(Seq<char>, Tree)>,
    key: Seq<char>,
    value: Tree,
    other: Seq<char>,
)
    ensures
        entry(with_entry(entries, key, value), key) == Some(value),
        other != key ==> entry(with_entry(entries, key, value), other) == entry(entries, other),
    decreases entries.len(),
{
    let out = with_entry(entries, key, value);
    reveal_with_fuel(entry, 2);
    if entries.len() == 0 {
    } else if entries[0].0 == key {
        assert(out.skip(1) == entries.skip(1));
    } else if precedes(key, entries[0].0) {
        assert(out.skip(1) == entries);
    } else {
        lemma_with_entry_get(entries.skip(1), key, value, other);
        assert(out.skip(1) == with_entry(entries.skip(1), key, value));
    }
}

/// An item nests no deeper than the items together.
pub proof fn lemma_item_depth(items: Seq<Tree>, i: int)
    requires
        0 <= i < items.len(),
    ensures
        items[i].depth() <= items_depth(items),
    decreases items.len(),
{
    if i < items.len() - 1 {
        lemma_item_depth(items.drop_last(), i);
    }
}

/// The value of an entry nests no deeper than the entries together.
pub proof fn lemma_entry_depth(entries: Seq<(Seq<char>, Tree)>, i: int)
    requires
        0 <= i < entries.len(),
    ensures
        entries[i].1.depth() <= entries_depth(entries),
    decreases entries.len(),
{
    if i < entries.len() - 1 {
        lemma_entry_depth(entries.drop_last(), i);
    }
}

/// A value in a well-formed object is well formed.
pub proof fn lemma_get_wf(t: Tree, key: Seq<char>)
    requires
        t.wf(),
    ensures
        t.get(key) matches Some(v) ==> v.wf(),
{
    if let Tree::Object(entries) = t {
        assert(t->Object_0 == entries);
        lemma_entry_wf(entries, key);
    }
}

proof fn lemma_entry_wf(entries: Seq<(Seq<char>, Tree)>, key: Seq<char>)
    requires
        forall|i: int| 0 <= i < entries.len() ==> (#[trigger] entries[i]).1.wf(),
    ensures
        entry(entries, key) matches Some(v) ==> v.wf(),
    decreases entries.len(),
{
    if entries.len() > 0 {
        let rest = entries.skip(1);
        assert forall|i: int| 0 <= i < rest.len() implies (#[trigger] rest[i]).1.wf() by {
            assert(rest[i] == entries[i + 1]);
        }
        lemma_entry_wf(rest, key);
    }
}

} // verus!
