//! Building the messages of a request: the history and the user's turn put into
//! the provider's own message template.

use vstd::prelude::*;

use crate::json::{
    duplicates, empty_object, entry_trees, items_depth, lemma_array_view,
    lemma_entry_depth, lemma_get_wf, lemma_item_depth, lemma_object_view, parsed_json, trees, Json, Tree,
};
use crate::json_text::{
    escaped, filled, filled_entries, filled_items, json_text, keys_lack, lemma_filled_entries,
    lemma_filled_items, lemma_filled_reads_back, lemma_filled_shape,
    lemma_replaced_json, placeholder, quoted, reads_back, shouted,
};
use crate::schema::{files, AttachedFile, File, Role};
use crate::text::{chars_of, has_text, mentions, occurs_at, replace, replaced, slice_text, starts_with, views};

verus! {

/// A turn of the conversation so far.
#[derive(Debug)]
pub struct HistoryMessage {
    pub role: Role,
    pub content: String,
}

/// `needle` stands in some text of the tree; keys do not count.
pub open spec fn tree_mentions(t: Tree, needle: Seq<char>) -> bool
    decreases t,
{
    match t {
        Tree::Text(s) => mentions(s, needle),
        Tree::Array(items) => exists|i: int|
            0 <= i < items.len() && tree_mentions(#[trigger] items[i], needle),
        Tree::Object(entries) => exists|i: int|
            0 <= i < entries.len() && tree_mentions((#[trigger] entries[i]).1, needle),
        _ => false,
    }
}

fn value_contains(v: &Json, needle: &str) -> (r: bool)
    ensures
        r == tree_mentions(v@, needle@),
    decreases v@,
{
    broadcast use {lemma_array_view, lemma_object_view};
    match v {
        Json::Text(s) => has_text(s.as_str(), needle),
        Json::Array(items) => {
            let mut k: usize = 0;
            while k < items.len()
                invariant
                    v@ == Tree::Array(trees(items@)),
                    k <= items@.len(),
                    forall|i: int| 0 <= i < k ==> !tree_mentions(#[trigger] trees(items@)[i], needle@),
                decreases items@.len() - k,
            {
                assert(v@->Array_0[k as int] == items@[k as int]@);
                if value_contains(&items[k], needle) {
                    assert(tree_mentions(trees(items@)[k as int], needle@));
                    return true;
                }
                k = k + 1;
            }
            false
        },
        Json::Object(entries) => {
            let mut k: usize = 0;
            while k < entries.len()
                invariant
                    v@ == Tree::Object(entry_trees(entries@)),
                    k <= entries@.len(),
                    forall|i: int|
                        0 <= i < k ==> !tree_mentions(
                            (#[trigger] entry_trees(entries@)[i]).1,
                            needle@,
                        ),
                decreases entries@.len() - k,
            {
                assert(v@->Object_0[k as int].1 == entries@[k as int].1@);
                if value_contains(&entries[k].1, needle) {
                    assert(tree_mentions(entry_trees(entries@)[k as int].1, needle@));
                    return true;
                }
                k = k + 1;
            }
            false
        },
        _ => false,
    }
}

/// A text as it stands inside a JSON string literal.
fn json_escape_contents(s: &str) -> (r: String)
    ensures
        r@ == escaped(s@),
{
    let v = chars_of(Json::text(s).to_text().as_str());
    assert(v@ == quoted(s@));
    let n: usize = v.len();
    assert(v@.subrange(1, n - 1) =~= escaped(s@));
    slice_text(&v, 1, n - 1)
}

/// What comes back of a tree that is written as text and read again: where that
/// loses nothing (`lossless`), the tree; else whatever the reader makes of it.
pub open spec fn round_trip(t: Tree, lossless: bool) -> Option<Tree> {
    if lossless {
        Some(t)
    } else {
        match parsed_json(json_text(t)) {
            Ok(read) => Some(read),
            Err(_) => None,
        }
    }
}

/// The tree with each name's placeholder replaced by the value at the name's
/// place, one name after the other.
pub open spec fn filled_all(t: Tree, names: Seq<Seq<char>>, values: Seq<Seq<char>>) -> Tree
    decreases names.len(),
{
    if names.len() == 0 || values.len() == 0 {
        t
    } else {
        filled_all(
            filled(t, placeholder(names[0]), values[0]),
            names.skip(1),
            values.skip(1),
        )
    }
}

/// The copy of an item for one payload; `null` where it cannot be read again.
pub open spec fn part(
    item: Tree,
    names: Seq<Seq<char>>,
    values: Seq<Seq<char>>,
    lossless: bool,
) -> Tree {
    match round_trip(filled_all(item, names, values), lossless) {
        Some(t) => t,
        None => Tree::Null,
    }
}

/// The text of the item holds one of the placeholders.
pub open spec fn holds(item: Tree, names: Seq<Seq<char>>) -> bool {
    exists|k: int|
        0 <= k < names.len() && mentions(json_text(item), placeholder(#[trigger] names[k]))
}

/// The first item at or behind `from` that holds one of the placeholders.
pub open spec fn holder(items: Seq<Tree>, names: Seq<Seq<char>>, from: int) -> Option<int>
    decreases items.len() - from,
{
    if from < 0 || from >= items.len() {
        None
    } else if holds(items[from], names) {
        Some(from)
    } else {
        holder(items, names, from + 1)
    }
}

/// The items with the first one that holds one of the placeholders replaced by
/// a copy of it for each payload.
pub open spec fn expand(
    items: Seq<Tree>,
    names: Seq<Seq<char>>,
    payloads: Seq<Seq<Seq<char>>>,
    lossless: bool,
) -> Seq<Tree> {
    match holder(items, names, 0) {
        Some(i) => items.take(i) + Seq::new(
            payloads.len(),
            |k: int| part(items[i], names, payloads[k], lossless),
        ) + items.skip(i + 1),
        None => items,
    }
}

/// The names of the placeholders for an image, in the order of its payload.
pub open spec fn image_names() -> Seq<Seq<char>> {
    seq!["IMAGE"@, "IMAGE_MIME"@]
}

/// The name of the placeholder for a document.
pub open spec fn document_names() -> Seq<Seq<char>> {
    seq!["DOCUMENT"@]
}

spec fn known(name: Seq<char>) -> bool {
    name == "IMAGE"@ || name == "IMAGE_MIME"@ || name == "DOCUMENT"@
}

/// A tree that reads back, with no placeholder for an attachment in a key:
/// nothing is lost where it is filled, written and read again.
pub open spec fn intact(t: Tree) -> bool {
    &&& reads_back(t)
    &&& keys_lack(t, placeholder("IMAGE"@))
    &&& keys_lack(t, placeholder("IMAGE_MIME"@))
    &&& keys_lack(t, placeholder("DOCUMENT"@))
}

/// The texts of a sequence of payloads.
pub open spec fn payload_texts(payloads: Seq<Vec<String>>) -> Seq<Seq<Seq<char>>> {
    payloads.map_values(|values: Vec<String>| views(values@))
}

proof fn lemma_known(name: Seq<char>)
    requires
        known(name),
    ensures
        shouted(name),
{
    reveal_strlit("IMAGE");
    reveal_strlit("IMAGE_MIME");
    reveal_strlit("DOCUMENT");
}

/// Replacing one placeholder where it is in no key changes no key.
proof fn lemma_filled_keys_lack(t: Tree, pattern: Seq<char>, with: Seq<char>, other: Seq<char>)
    requires
        keys_lack(t, pattern),
        keys_lack(t, other),
    ensures
        keys_lack(filled(t, pattern, with), other),
    decreases t,
{
    match t {
        Tree::Array(items) => {
            assert(t->Array_0 == items);
            lemma_filled_items(items, pattern, with);
            let out = filled_items(items, pattern, with);
            assert forall|i: int| 0 <= i < out.len() implies keys_lack(#[trigger] out[i], other) by {
                lemma_filled_keys_lack(items[i], pattern, with, other);
            }
        },
        Tree::Object(entries) => {
            assert(t->Object_0 == entries);
            lemma_filled_entries(entries, pattern, with);
            let out = filled_entries(entries, pattern, with);
            assert forall|i: int| 0 <= i < out.len() implies !mentions((#[trigger] out[i]).0, other)
                && keys_lack(out[i].1, other) by {
                assert(!mentions(entries[i].0, pattern));
                lemma_filled_keys_lack(entries[i].1, pattern, with, other);
            }
        },
        _ => {},
    }
}

proof fn lemma_intact_filled(t: Tree, name: Seq<char>, with: Seq<char>)
    requires
        intact(t),
        known(name),
    ensures
        intact(filled(t, placeholder(name), with)),
{
    lemma_filled_reads_back(t, placeholder(name), with);
    lemma_filled_keys_lack(t, placeholder(name), with, placeholder("IMAGE"@));
    lemma_filled_keys_lack(t, placeholder(name), with, placeholder("IMAGE_MIME"@));
    lemma_filled_keys_lack(t, placeholder(name), with, placeholder("DOCUMENT"@));
}

proof fn lemma_intact_item(items: Seq<Tree>, i: int)
    requires
        intact(Tree::Array(items)),
        0 <= i < items.len(),
    ensures
        intact(items[i]),
{
    let t = Tree::Array(items);
    assert(t->Array_0 == items);
    lemma_item_depth(items, i);
}

proof fn lemma_intact_entry(entries: Seq<(Seq<char>, Tree)>, i: int)
    requires
        intact(Tree::Object(entries)),
        0 <= i < entries.len(),
    ensures
        intact(entries[i].1),
{
    let t = Tree::Object(entries);
    assert(t->Object_0 == entries);
    lemma_entry_depth(entries, i);
}

fn holds_any(item: &Json, tokens: &Vec<String>) -> (r: bool)
    requires
        item@.wf(),
    ensures
        r == holds(item@, views(tokens@)),
{
    let text = item.to_text();
    let ghost names = views(tokens@);
    let mut k: usize = 0;
    while k < tokens.len()
        invariant
            text@ == json_text(item@),
            names == views(tokens@),
            k <= tokens@.len(),
            forall|j: int|
                0 <= j < k ==> !mentions(json_text(item@), placeholder(#[trigger] names[j])),
        decreases tokens@.len() - k,
    {
        assert(names[k as int] == tokens@[k as int]@);
        if has_text(text.as_str(), braced(tokens[k].as_str()).as_str()) {
            return true;
        }
        k = k + 1;
    }
    false
}

/// A name between two pairs of braces.
fn braced(name: &str) -> (r: String)
    ensures
        r@ == placeholder(name@),
{
    proof {
        reveal_strlit("{{");
        reveal_strlit("}}");
    }
    let r = "{{".to_owned().concat(name).concat("}}");
    assert(r@ =~= placeholder(name@));
    r
}

/// The copy of an item for one payload.
fn fill_part(item: &Json, tokens: &Vec<String>, values: &Vec<String>) -> (r: Json)
    requires
        item@.wf(),
        tokens@.len() == values@.len(),
        forall|k: int| 0 <= k < tokens@.len() ==> known((#[trigger] tokens@[k])@),
    ensures
        r@ == part(item@, views(tokens@), views(values@), false),
        intact(item@) ==> r@ == part(item@, views(tokens@), views(values@), true) && intact(r@),
        r@.wf(),
        r@.depth() <= item@.depth(),
{
    let ghost names = views(tokens@);
    let ghost texts = views(values@);
    let mut text = item.to_text();
    let ghost mut t = item@;
    let mut k: usize = 0;
    assert(names.skip(0) == names);
    assert(texts.skip(0) == texts);
    proof {
        lemma_wf_plain(item@);
    }
    while k < tokens.len()
        invariant
            k <= tokens@.len(),
            tokens@.len() == values@.len(),
            names == views(tokens@),
            texts == views(values@),
            forall|j: int| 0 <= j < tokens@.len() ==> known((#[trigger] tokens@[j])@),
            text@ == json_text(t),
            t.plain(),
            t.depth() == item@.depth(),
            intact(item@) ==> intact(t),
            filled_all(item@, names, texts) == filled_all(
                t,
                names.skip(k as int),
                texts.skip(k as int),
            ),
        decreases tokens@.len() - k,
    {
        let token = tokens[k].as_str();
        let value = values[k].as_str();
        assert(names.skip(k as int)[0] == token@);
        assert(texts.skip(k as int)[0] == value@);
        assert(names.skip(k as int).skip(1) == names.skip(k + 1));
        assert(texts.skip(k as int).skip(1) == texts.skip(k + 1));
        proof {
            assert(known(tokens@[k as int]@));
            lemma_known(token@);
            lemma_replaced_json(t, token@, value@);
            lemma_filled_shape(t, placeholder(token@), value@);
            if intact(item@) {
                lemma_intact_filled(t, token@, value@);
            }
            t = filled(t, placeholder(token@), value@);
        }
        text = replace(
            text.as_str(),
            braced(token).as_str(),
            json_escape_contents(value).as_str(),
        );
        k = k + 1;
    }
    assert(filled_all(item@, names, texts) == t);
    let read = Json::parse(text.as_str());
    match read {
        Ok(v) => v,
        Err(_) => Json::Null,
    }
}

/// A well-formed tree is plain.
proof fn lemma_wf_plain(t: Tree)
    requires
        t.wf(),
    ensures
        t.plain(),
    decreases t,
{
    match t {
        Tree::Array(items) => {
            assert(t->Array_0 == items);
            assert forall|i: int| 0 <= i < items.len() implies (#[trigger] items[i]).plain() by {
                lemma_wf_plain(items[i]);
            }
        },
        Tree::Object(entries) => {
            assert(t->Object_0 == entries);
            assert forall|i: int| 0 <= i < entries.len() implies (
            #[trigger] entries[i]).1.plain() by {
                lemma_wf_plain(entries[i].1);
            }
        },
        _ => {},
    }
}

/// Every tree is well formed and nests at most `depth` deep.
spec fn sound(items: Seq<Tree>, depth: int) -> bool {
    forall|i: int|
        0 <= i < items.len() ==> (#[trigger] items[i]).wf() && items[i].depth() <= depth
}

/// Every tree is intact.
spec fn all_intact(items: Seq<Tree>) -> bool {
    forall|i: int| 0 <= i < items.len() ==> intact(#[trigger] items[i])
}

fn expand_one_array(
    arr: Vec<Json>,
    tokens: &Vec<String>,
    payloads: &Vec<Vec<String>>,
    Ghost(depth): Ghost<int>,
) -> (r: Vec<Json>)
    requires
        sound(trees(arr@), depth),
        forall|k: int| 0 <= k < tokens@.len() ==> known((#[trigger] tokens@[k])@),
        forall|k: int|
            0 <= k < payloads@.len() ==> (#[trigger] payloads@[k])@.len() == tokens@.len(),
    ensures
        trees(r@) == expand(trees(arr@), views(tokens@), payload_texts(payloads@), false),
        all_intact(trees(arr@)) ==> trees(r@) == expand(
            trees(arr@),
            views(tokens@),
            payload_texts(payloads@),
            true,
        ) && all_intact(trees(r@)),
        sound(trees(r@), depth),
{
    let ghost items = trees(arr@);
    let ghost names = views(tokens@);
    let ghost texts = payload_texts(payloads@);
    let n: usize = arr.len();
    let mut idx: usize = 0;
    assert forall|i: int| 0 <= i < n implies (#[trigger] arr@[i])@.wf() by {
        assert(items[i] == arr@[i]@);
    }
    while idx < n && !holds_any(&arr[idx], tokens)
        invariant
            n == arr@.len(),
            items == trees(arr@),
            sound(items, depth),
            names == views(tokens@),
            idx <= n,
            holder(items, names, 0) == holder(items, names, idx as int),
            forall|i: int| 0 <= i < n ==> (#[trigger] arr@[i])@.wf(),
        decreases n - idx,
    {
        assert(items[idx as int] == arr@[idx as int]@);
        idx = idx + 1;
    }
    if idx == n {
        return arr;
    }
    assert(items[idx as int] == arr@[idx as int]@);
    let ghost item = items[idx as int];
    let mut parts: Vec<Json> = Vec::new();
    let mut k: usize = 0;
    while k < payloads.len()
        invariant
            idx < arr@.len(),
            item == arr@[idx as int]@,
            item.wf(),
            item.depth() <= depth,
            k <= payloads@.len(),
            k == parts@.len(),
            names == views(tokens@),
            texts == payload_texts(payloads@),
            forall|k: int| 0 <= k < tokens@.len() ==> known((#[trigger] tokens@[k])@),
            forall|k: int|
                0 <= k < payloads@.len() ==> (#[trigger] payloads@[k])@.len() == tokens@.len(),
            forall|i: int|
                0 <= i < k ==> {
                    &&& (#[trigger] parts@[i])@ == part(item, names, texts[i], false)
                    &&& intact(item) ==> parts@[i]@ == part(item, names, texts[i], true) && intact(
                        parts@[i]@,
                    )
                    &&& parts@[i]@.wf()
                    &&& parts@[i]@.depth() <= depth
                },
        decreases payloads@.len() - k,
    {
        assert(texts[k as int] == views(payloads@[k as int]@));
        parts.push(fill_part(&arr[idx], tokens, &payloads[k]));
        k = k + 1;
    }
    let ghost copies = trees(parts@);
    let mut out = arr;
    let mut tail = out.split_off(idx + 1);
    let _ = out.pop();
    assert(trees(out@) =~= items.take(idx as int));
    assert(trees(tail@) =~= items.skip(idx + 1));
    let ghost head = out@;
    let ghost end = tail@;
    let ghost middle = parts@;
    out.append(&mut parts);
    out.append(&mut tail);
    proof {
        assert(out@ =~= head + middle + end);
        assert(trees(out@) =~= items.take(idx as int) + copies + items.skip(idx + 1));
        assert(copies =~= Seq::new(texts.len(), |k: int| part(item, names, texts[k], false)));
        let all = trees(out@);
        assert forall|i: int| 0 <= i < all.len() implies (#[trigger] all[i]).wf() && all[i].depth()
            <= depth by {
            if i < idx {
                assert(all[i] == items[i]);
            } else if i < idx + copies.len() {
                assert(all[i] == middle[i - idx]@);
            } else {
                assert(all[i] == items[i - copies.len() + 1]);
            }
        }
        if all_intact(items) {
            assert(copies =~= Seq::new(texts.len(), |k: int| part(item, names, texts[k], true)));
            assert forall|i: int| 0 <= i < all.len() implies intact(#[trigger] all[i]) by {
                if i < idx {
                    assert(all[i] == items[i]);
                } else if i < idx + copies.len() {
                    assert(all[i] == middle[i - idx]@);
                } else {
                    assert(all[i] == items[i - copies.len() + 1]);
                }
            }
        }
    }
    out
}

/// The tree with the placeholders for attachments expanded in each of its
/// arrays, from the outside inwards: first those for images, then those for
/// documents. What an array holds after that nests less than the array.
pub open spec fn expanded(
    t: Tree,
    images: Seq<Seq<Seq<char>>>,
    documents: Seq<Seq<Seq<char>>>,
    lossless: bool,
) -> Tree
    decreases t.depth(),
{
    match t {
        Tree::Array(items) => {
            let with_images = expand(items, image_names(), images, lossless);
            let all = expand(with_images, document_names(), documents, lossless);
            Tree::Array(
                Seq::new(
                    all.len(),
                    |i: int|
                        if all[i].depth() < t.depth() {
                            expanded(all[i], images, documents, lossless)
                        } else {
                            all[i]
                        },
                ),
            )
        },
        Tree::Object(entries) => Tree::Object(
            Seq::new(
                entries.len(),
                |i: int|
                    (
                        entries[i].0,
                        if entries[i].1.depth() < t.depth() {
                            expanded(entries[i].1, images, documents, lossless)
                        } else {
                            entries[i].1
                        },
                    ),
            ),
        ),
        _ => t,
    }
}

spec fn aligned(payloads: Seq<Vec<String>>, n: nat) -> bool {
    forall|k: int| 0 <= k < payloads.len() ==> (#[trigger] payloads[k])@.len() == n
}

fn replacer(node: &Json, images: &Vec<Vec<String>>, docs: &Vec<Vec<String>>) -> (r: Json)
    requires
        node@.wf(),
        aligned(images@, 2),
        aligned(docs@, 1),
    ensures
        r@ == expanded(node@, payload_texts(images@), payload_texts(docs@), false),
        intact(node@) ==> r@ == expanded(
            node@,
            payload_texts(images@),
            payload_texts(docs@),
            true,
        ),
        r@.wf(),
    decreases node@.depth(),
{
    broadcast use {lemma_array_view, lemma_object_view};
    let ghost im = payload_texts(images@);
    let ghost dc = payload_texts(docs@);
    match node {
        Json::Array(items) => {
            let ghost all = trees(items@);
            let ghost depth = node@.depth() - 1;
            assert(node@->Array_0 == all);
            proof {
                assert forall|i: int| 0 <= i < all.len() implies (#[trigger] all[i]).wf()
                    && all[i].depth() <= depth by {
                    lemma_item_depth(all, i);
                }
                if intact(node@) {
                    assert forall|i: int| 0 <= i < all.len() implies intact(#[trigger] all[i]) by {
                        lemma_intact_item(all, i);
                    }
                }
            }
            let image_tokens: Vec<String> = vec!["IMAGE".to_owned(), "IMAGE_MIME".to_owned()];
            let document_tokens: Vec<String> = vec!["DOCUMENT".to_owned()];
            assert(views(image_tokens@) =~= image_names());
            assert(views(document_tokens@) =~= document_names());
            let arr = duplicates(items);
            let arr = expand_one_array(arr, &image_tokens, images, Ghost(depth));
            let ghost half = trees(arr@);
            let arr = expand_one_array(arr, &document_tokens, docs, Ghost(depth));
            let ghost whole = trees(arr@);
            let mut out: Vec<Json> = Vec::new();
            let mut k: usize = 0;
            while k < arr.len()
                invariant
                    whole == trees(arr@),
                    sound(whole, depth),
                    depth < node@.depth(),
                    intact(node@) ==> all_intact(whole),
                    aligned(images@, 2),
                    aligned(docs@, 1),
                    im == payload_texts(images@),
                    dc == payload_texts(docs@),
                    k <= arr@.len(),
                    k == out@.len(),
                    forall|i: int|
                        0 <= i < k ==> {
                            &&& (#[trigger] out@[i])@ == expanded(whole[i], im, dc, false)
                            &&& intact(node@) ==> out@[i]@ == expanded(whole[i], im, dc, true)
                            &&& out@[i]@.wf()
                        },
                decreases arr@.len() - k,
            {
                assert(whole[k as int] == arr@[k as int]@);
                out.push(replacer(&arr[k], images, docs));
                k = k + 1;
            }
            proof {
                let done = trees(out@);
                assert(done =~= expanded(node@, im, dc, false)->Array_0);
                if intact(node@) {
                    assert(done =~= expanded(node@, im, dc, true)->Array_0);
                }
                assert forall|i: int| 0 <= i < done.len() implies (#[trigger] done[i]).wf() by {
                    assert(done[i] == out@[i]@);
                }
            }
            Json::Array(out)
        },
        Json::Object(entries) => {
            let ghost all = entry_trees(entries@);
            assert(node@->Object_0 == all);
            let mut out: Vec<(String, Json)> = Vec::new();
            let mut k: usize = 0;
            while k < entries.len()
                invariant
                    node@ == Tree::Object(all),
                    all == entry_trees(entries@),
                    node@.wf(),
                    aligned(images@, 2),
                    aligned(docs@, 1),
                    im == payload_texts(images@),
                    dc == payload_texts(docs@),
                    k <= entries@.len(),
                    k == out@.len(),
                    forall|i: int|
                        0 <= i < k ==> {
                            &&& (#[trigger] out@[i]).0@ == all[i].0
                            &&& all[i].1.depth() < node@.depth()
                            &&& out@[i].1@ == expanded(all[i].1, im, dc, false)
                            &&& intact(node@) ==> out@[i].1@ == expanded(all[i].1, im, dc, true)
                            &&& out@[i].1@.wf()
                        },
                decreases entries@.len() - k,
            {
                assert(node@->Object_0[k as int].1 == entries@[k as int].1@);
                proof {
                    lemma_entry_depth(all, k as int);
                    if intact(node@) {
                        lemma_intact_entry(all, k as int);
                    }
                }
                out.push((entries[k].0.clone(), replacer(&entries[k].1, images, docs)));
                k = k + 1;
            }
            proof {
                let done = entry_trees(out@);
                assert(done =~= expanded(node@, im, dc, false)->Object_0);
                if intact(node@) {
                    assert(done =~= expanded(node@, im, dc, true)->Object_0);
                }
                assert forall|i: int| 0 <= i < done.len() implies (#[trigger] done[i]).1.wf()
                    && done[i].0 == all[i].0 by {
                    assert(done[i].1 == out@[i].1@);
                }
            }
            Json::Object(out)
        },
        _ => node.duplicate(),
    }
}

/// The file is an image, by its MIME type.
pub open spec fn is_image(f: File) -> bool {
    occurs_at(f.mime, "image/"@, 0)
}

/// The payloads of the images among the files: content and MIME type.
pub open spec fn image_payloads(files: Seq<File>) -> Seq<Seq<Seq<char>>>
    decreases files.len(),
{
    if files.len() == 0 {
        Seq::empty()
    } else {
        let before = image_payloads(files.drop_last());
        if is_image(files.last()) {
            before.push(seq![files.last().base64, files.last().mime])
        } else {
            before
        }
    }
}

/// The payloads of the other files: their content.
pub open spec fn document_payloads(files: Seq<File>) -> Seq<Seq<Seq<char>>>
    decreases files.len(),
{
    if files.len() == 0 {
        Seq::empty()
    } else {
        let before = document_payloads(files.drop_last());
        if is_image(files.last()) {
            before
        } else {
            before.push(seq![files.last().base64])
        }
    }
}

/// A template message with the user's text put in; the template itself where
/// that cannot be read again.
pub open spec fn with_text(template: Tree, message: Seq<char>, lossless: bool) -> Tree {
    match round_trip(filled(template, placeholder("TEXT"@), message), lossless) {
        Some(t) => t,
        None => template,
    }
}

/// The user's turn: the template message with the text and the attached files
/// put in.
pub open spec fn user_turn(
    template: Tree,
    message: Seq<char>,
    files: Seq<File>,
    lossless: bool,
) -> Tree {
    expanded(
        with_text(template, message, lossless),
        image_payloads(files),
        document_payloads(files),
        lossless,
    )
}

/// The payloads of the images and of the documents among the files.
fn payloads(attached: &[AttachedFile]) -> (r: (Vec<Vec<String>>, Vec<Vec<String>>))
    ensures
        payload_texts(r.0@) == image_payloads(files(attached@)),
        payload_texts(r.1@) == document_payloads(files(attached@)),
        aligned(r.0@, 2),
        aligned(r.1@, 1),
{
    let ghost all = files(attached@);
    let mut images: Vec<Vec<String>> = Vec::new();
    let mut docs: Vec<Vec<String>> = Vec::new();
    let mut k: usize = 0;
    assert(payload_texts(images@) =~= image_payloads(all.take(0)));
    assert(payload_texts(docs@) =~= document_payloads(all.take(0)));
    while k < attached.len()
        invariant
            all == files(attached@),
            k <= attached@.len(),
            payload_texts(images@) == image_payloads(all.take(k as int)),
            payload_texts(docs@) == document_payloads(all.take(k as int)),
            aligned(images@, 2),
            aligned(docs@, 1),
        decreases attached@.len() - k,
    {
        let f = &attached[k];
        let ghost now = all.take(k + 1);
        assert(now.drop_last() == all.take(k as int));
        assert(now.last() == f@);
        if starts_with(f.mime.as_str(), "image/") {
            let values: Vec<String> = vec![f.base64.clone(), f.mime.clone()];
            assert(views(values@) =~= seq![f.base64@, f.mime@]);
            let ghost was = images@;
            images.push(values);
            assert(payload_texts(images@) =~= payload_texts(was).push(views(values@)));
        } else {
            let values: Vec<String> = vec![f.base64.clone()];
            assert(views(values@) =~= seq![f.base64@]);
            let ghost was = docs@;
            docs.push(values);
            assert(payload_texts(docs@) =~= payload_texts(was).push(views(values@)));
        }
        k = k + 1;
    }
    assert(all.take(k as int) == all);
    (images, docs)
}

/// The template message with the user's text put in.
fn fill_text(template: &Json, user_message: &str) -> (r: Json)
    requires
        template@.wf(),
    ensures
        r@ == with_text(template@, user_message@, false),
        intact(template@) && keys_lack(template@, placeholder("TEXT"@)) ==> r@ == with_text(
            template@,
            user_message@,
            true,
        ) && intact(r@),
        r@.wf(),
{
    let ghost t = filled(template@, placeholder("TEXT"@), user_message@);
    let text = replace(
        template.to_text().as_str(),
        braced("TEXT").as_str(),
        json_escape_contents(user_message).as_str(),
    );
    proof {
        reveal_strlit("TEXT");
        lemma_wf_plain(template@);
        lemma_replaced_json(template@, "TEXT"@, user_message@);
        if intact(template@) && keys_lack(template@, placeholder("TEXT"@)) {
            lemma_filled_reads_back(template@, placeholder("TEXT"@), user_message@);
            lemma_filled_keys_lack(
                template@,
                placeholder("TEXT"@),
                user_message@,
                placeholder("IMAGE"@),
            );
            lemma_filled_keys_lack(
                template@,
                placeholder("TEXT"@),
                user_message@,
                placeholder("IMAGE_MIME"@),
            );
            lemma_filled_keys_lack(
                template@,
                placeholder("TEXT"@),
                user_message@,
                placeholder("DOCUMENT"@),
            );
        }
        assert(text@ == json_text(t));
    }
    match Json::parse(text.as_str()) {
        Ok(v) => v,
        Err(_) => template.duplicate(),
    }
}

/// Nothing is lost of the template where the user's turn is put into it.
pub open spec fn template_intact(template: Tree) -> bool {
    intact(template) && keys_lack(template, placeholder("TEXT"@))
}

fn expand_user_template(
    template: &Json,
    user_message: &str,
    attached: &[AttachedFile],
) -> (r: Json)
    requires
        template@.wf(),
    ensures
        r@ == user_turn(template@, user_message@, files(attached@), false),
        template_intact(template@) ==> r@ == user_turn(
            template@,
            user_message@,
            files(attached@),
            true,
        ),
        r@.wf(),
{
    let value = fill_text(template, user_message);
    let (images, docs) = payloads(attached);
    replacer(&value, &images, &docs)
}

/// A turn in the plain shape.
pub open spec fn turn(role: Seq<char>, content: Seq<char>) -> Tree {
    empty_object().with("role"@, Tree::Text(role)).with("content"@, Tree::Text(content))
}

fn make_turn(role: &str, content: &str) -> (r: Json)
    ensures
        r@ == turn(role@, content@),
        r@.wf(),
{
    Json::object().with("role", Json::text(role)).with("content", Json::text(content))
}

/// The turns of the conversation so far.
pub open spec fn history_turns(history: Seq<HistoryMessage>) -> Seq<Tree> {
    Seq::new(history.len(), |i: int| turn(history[i].role.name(), history[i].content@))
}

/// The first message at or behind `from` that has a place for the user's text.
pub open spec fn user_place(items: Seq<Tree>, from: int) -> Option<int>
    decreases items.len() - from,
{
    if from < 0 || from >= items.len() {
        None
    } else if tree_mentions(items[from], placeholder("TEXT"@)) {
        Some(from)
    } else {
        user_place(items, from + 1)
    }
}

/// The messages of a request: those of the template, with the history and then
/// the user's turn in the place of the one for the user's text, or at the end
/// where no message has a place for it.
pub open spec fn messages_of(
    items: Seq<Tree>,
    history: Seq<HistoryMessage>,
    message: Seq<char>,
    files: Seq<File>,
    lossless: bool,
) -> Seq<Tree> {
    match user_place(items, 0) {
        Some(i) => items.take(i) + history_turns(history) + seq![
            user_turn(items[i], message, files, lossless),
        ] + items.skip(i + 1),
        None => items + history_turns(history) + seq![turn("user"@, message)],
    }
}

/// The key under which a body has its messages.
pub open spec fn messages_key(body: Tree) -> Option<Seq<char>> {
    if body.get("messages"@) matches Some(t) && t is Array {
        Some("messages"@)
    } else if body.get("contents"@) matches Some(t) && t is Array {
        Some("contents"@)
    } else if body.get("conversation"@) matches Some(t) && t is Array {
        Some("conversation"@)
    } else if body.get("history"@) matches Some(t) && t is Array {
        Some("history"@)
    } else {
        None
    }
}

/// The message template of a body.
pub open spec fn message_template(body: Tree) -> Seq<Tree> {
    body.get(messages_key(body)->0)->0->Array_0
}

/// A body with its messages built; one that has none stays.
pub open spec fn with_messages(
    body: Tree,
    history: Seq<HistoryMessage>,
    message: Seq<char>,
    files: Seq<File>,
    lossless: bool,
) -> Tree {
    match messages_key(body) {
        Some(key) => body.with(
            key,
            Tree::Array(messages_of(message_template(body), history, message, files, lossless)),
        ),
        None => body,
    }
}

/// Nothing is lost of the message that has the place for the user's text.
pub open spec fn messages_intact(body: Tree) -> bool {
    messages_key(body) is Some ==> {
        let items = message_template(body);
        user_place(items, 0) matches Some(i) ==> template_intact(items[i])
    }
}

fn has_array(body: &Json, key: &str) -> (r: bool)
    ensures
        r == (body@.get(key@) matches Some(t) && t is Array),
{
    match body.get(key) {
        Some(Json::Array(_)) => true,
        _ => false,
    }
}

fn find_messages_key(body: &Json) -> (r: Option<&'static str>)
    ensures
        match r {
            Some(key) => messages_key(body@) == Some(key@),
            None => messages_key(body@) is None,
        },
{
    if has_array(body, "messages") {
        Some("messages")
    } else if has_array(body, "contents") {
        Some("contents")
    } else if has_array(body, "conversation") {
        Some("conversation")
    } else if has_array(body, "history") {
        Some("history")
    } else {
        None
    }
}

/// Puts the conversation so far and the user's turn into the messages of a
/// body. The messages stand under the first of the keys `messages`, `contents`,
/// `conversation` and `history` that has an array.
///
/// The user's turn goes through text: the template message is written, its
/// placeholders are replaced and it is read again. Where the template reads
/// back and has none of the placeholders in a key, this loses nothing.
pub fn build_messages(
    body: &mut Json,
    history: &[HistoryMessage],
    user_message: &str,
    attached_files: &[AttachedFile],
)
    requires
        old(body)@.wf(),
    ensures
        final(body)@ == with_messages(
            old(body)@,
            history@,
            user_message@,
            files(attached_files@),
            false,
        ),
        messages_intact(old(body)@) ==> final(body)@ == with_messages(
            old(body)@,
            history@,
            user_message@,
            files(attached_files@),
            true,
        ),
        final(body)@.wf(),
{
    broadcast use lemma_array_view;
    let ghost was = body@;
    let key = match find_messages_key(body) {
        Some(key) => key,
        None => return ,
    };
    let mut result = match body.get(key) {
        Some(Json::Array(items)) => duplicates(items),
        _ => return ,
    };
    let ghost items = trees(result@);
    proof {
        lemma_get_wf(was, key@);
        let found = was.get(key@)->0;
        assert(found->Array_0 == items);
        assert forall|i: int| 0 <= i < items.len() implies (#[trigger] items[i]).wf() by {}
    }
    let n: usize = result.len();
    let mut place: usize = 0;
    while place < n && !value_contains(&result[place], braced("TEXT").as_str())
        invariant
            n == result@.len(),
            items == trees(result@),
            place <= n,
            user_place(items, 0) == user_place(items, place as int),
        decreases n - place,
    {
        assert(items[place as int] == result@[place as int]@);
        place = place + 1;
    }
    let mut suffix: Vec<Json> = Vec::new();
    let mut user: Json = make_turn("user", user_message);
    if place < n {
        assert(items[place as int] == result@[place as int]@);
        user = expand_user_template(&result[place], user_message, attached_files);
        suffix = result.split_off(place + 1);
        let _ = result.pop();
        assert(trees(suffix@) =~= items.skip(place + 1));
    }
    assert(trees(result@) =~= items.take(place as int));
    let ghost prefix = items.take(place as int);
    let mut k: usize = 0;
    assert(history_turns(history@).take(0) =~= Seq::empty());
    assert(prefix + Seq::<Tree>::empty() =~= prefix);
    while k < history.len()
        invariant
            k <= history@.len(),
            trees(result@) == prefix + history_turns(history@).take(k as int),
            forall|i: int| 0 <= i < prefix.len() ==> (#[trigger] prefix[i]).wf(),
            forall|i: int|
                0 <= i < k ==> (#[trigger] history_turns(history@)[i]).wf(),
        decreases history@.len() - k,
    {
        let ghost before = result@;
        let made = make_turn(history[k].role.as_str(), history[k].content.as_str());
        assert(made@ == history_turns(history@)[k as int]);
        result.push(made);
        assert(trees(result@) =~= trees(before).push(made@));
        assert(history_turns(history@).take(k + 1) =~= history_turns(history@).take(k as int).push(
            made@,
        ));
        k = k + 1;
    }
    assert(history_turns(history@).take(k as int) == history_turns(history@));
    let ghost front = result@;
    let ghost back = suffix@;
    result.push(user);
    result.append(&mut suffix);
    proof {
        let done = trees(result@);
        assert(result@ =~= front.push(user) + back);
        assert(done =~= trees(front) + seq![user@] + trees(back));
        let turns = history_turns(history@);
        assert(done =~= prefix + turns + seq![user@] + trees(back));
        assert forall|i: int| 0 <= i < done.len() implies (#[trigger] done[i]).wf() by {
            if i < prefix.len() {
                assert(done[i] == prefix[i]);
            } else if i < prefix.len() + turns.len() {
                assert(done[i] == turns[i - prefix.len()]);
            } else if i > prefix.len() + turns.len() {
                assert(done[i] == trees(back)[i - prefix.len() - turns.len() - 1]);
                assert(done[i] == items[i - turns.len()]);
            }
        }
        if place == n {
            assert(prefix =~= items);
            assert(back =~= Seq::empty());
            assert(done =~= items + turns + seq![user@]);
        }
    }
    let mut taken = Json::Null;
    std::mem::swap(body, &mut taken);
    *body = taken.with(key, Json::Array(result));
}

/// Without a payload, an item for one goes away and all others stay.
pub proof fn lemma_no_payload(items: Seq<Tree>, names: Seq<Seq<char>>, lossless: bool)
    ensures
        match holder(items, names, 0) {
            Some(i) => 0 <= i < items.len() && expand(items, names, Seq::empty(), lossless)
                == items.remove(i),
            None => expand(items, names, Seq::empty(), lossless) == items,
        },
{
    lemma_holder(items, names, 0);
    if let Some(i) = holder(items, names, 0) {
        assert(expand(items, names, Seq::empty(), lossless) =~= items.remove(i));
    }
}

proof fn lemma_holder(items: Seq<Tree>, names: Seq<Seq<char>>, from: int)
    ensures
        holder(items, names, from) matches Some(i) ==> from <= i && 0 <= i < items.len() && holds(
            items[i],
            names,
        ),
    decreases items.len() - from,
{
    if 0 <= from < items.len() && !holds(items[from], names) {
        lemma_holder(items, names, from + 1);
    }
}

proof fn lemma_user_place(items: Seq<Tree>, from: int)
    ensures
        user_place(items, from) matches Some(i) ==> from <= i && 0 <= i < items.len(),
    decreases items.len() - from,
{
    if 0 <= from < items.len() && !tree_mentions(items[from], placeholder("TEXT"@)) {
        lemma_user_place(items, from + 1);
    }
}

/// The turns of the conversation so far stand together and in order right
/// before the user's turn, and the template's other messages stay in order
/// around them.
pub proof fn lemma_history_precedes_user(
    items: Seq<Tree>,
    history: Seq<HistoryMessage>,
    message: Seq<char>,
    files: Seq<File>,
    lossless: bool,
)
    ensures
        ({
            let out = messages_of(items, history, message, files, lossless);
            let place = match user_place(items, 0) {
                Some(i) => i,
                None => items.len() as int,
            };
            let n = history.len() as int;
            &&& 0 <= place <= items.len()
            &&& out.take(place) == items.take(place)
            &&& out.subrange(place, place + n) == history_turns(history)
            &&& out[place + n] == (match user_place(items, 0) {
                Some(i) => user_turn(items[i], message, files, lossless),
                None => turn("user"@, message),
            })
            &&& out.skip(place + n + 1) == (if place < items.len() {
                items.skip(place + 1)
            } else {
                Seq::empty()
            })
        }),
{
    lemma_user_place(items, 0);
    let out = messages_of(items, history, message, files, lossless);
    let place = match user_place(items, 0) {
        Some(i) => i,
        None => items.len() as int,
    };
    let n = history.len() as int;
    assert(out.take(place) =~= items.take(place));
    assert(out.subrange(place, place + n) =~= history_turns(history));
    if place < items.len() {
        assert(out.skip(place + n + 1) =~= items.skip(place + 1));
    } else {
        assert(out.skip(place + n + 1) =~= Seq::empty());
    }
}

/// A body without messages, and a value that is no object, stays.
pub proof fn lemma_no_messages(
    body: Tree,
    history: Seq<HistoryMessage>,
    message: Seq<char>,
    files: Seq<File>,
    lossless: bool,
)
    requires
        !(body is Object) || messages_key(body) is None,
    ensures
        with_messages(body, history, message, files, lossless) == body,
{
}

proof fn lemma_filled_all_depth(t: Tree, names: Seq<Seq<char>>, values: Seq<Seq<char>>)
    ensures
        filled_all(t, names, values).depth() == t.depth(),
    decreases names.len(),
{
    if names.len() > 0 && values.len() > 0 {
        let next = filled(t, placeholder(names[0]), values[0]);
        lemma_filled_shape(t, placeholder(names[0]), values[0]);
        lemma_filled_all_depth(next, names.skip(1), values.skip(1));
    }
}

/// Expanding an array without loss nests nothing deeper.
proof fn lemma_expand_depth(
    items: Seq<Tree>,
    names: Seq<Seq<char>>,
    payloads: Seq<Seq<Seq<char>>>,
    depth: int,
)
    requires
        forall|i: int| 0 <= i < items.len() ==> (#[trigger] items[i]).depth() <= depth,
    ensures
        forall|i: int|
            0 <= i < expand(items, names, payloads, true).len() ==> (#[trigger] expand(
                items,
                names,
                payloads,
                true,
            )[i]).depth() <= depth,
{
    let out = expand(items, names, payloads, true);
    lemma_holder(items, names, 0);
    if let Some(k) = holder(items, names, 0) {
        assert forall|i: int| 0 <= i < out.len() implies (#[trigger] out[i]).depth() <= depth by {
            if i < k {
                assert(out[i] == items[i]);
            } else if i < k + payloads.len() {
                assert(out[i] == part(items[k], names, payloads[i - k], true));
                lemma_filled_all_depth(items[k], names, payloads[i - k]);
            } else {
                assert(out[i] == items[i - payloads.len() + 1]);
            }
        }
    }
}

/// Without loss, the attachments go into an array and then into each of its
/// items, and into each value of an object.
pub proof fn lemma_expanded_inwards(
    items: Seq<Tree>,
    entries: Seq<(Seq<char>, Tree)>,
    images: Seq<Seq<Seq<char>>>,
    documents: Seq<Seq<Seq<char>>>,
)
    ensures
        expanded(Tree::Array(items), images, documents, true) == Tree::Array(
            expand(
                expand(items, image_names(), images, true),
                document_names(),
                documents,
                true,
            ).map_values(|t: Tree| expanded(t, images, documents, true)),
        ),
        expanded(Tree::Object(entries), images, documents, true) == Tree::Object(
            entries.map_values(
                |e: (Seq<char>, Tree)| (e.0, expanded(e.1, images, documents, true)),
            ),
        ),
{
    let t = Tree::Array(items);
    assert(t->Array_0 == items);
    let depth = items_depth(items) as int;
    assert forall|i: int| 0 <= i < items.len() implies (#[trigger] items[i]).depth() <= depth by {
        lemma_item_depth(items, i);
    }
    lemma_expand_depth(items, image_names(), images, depth);
    let half = expand(items, image_names(), images, true);
    lemma_expand_depth(half, document_names(), documents, depth);
    let all = expand(half, document_names(), documents, true);
    assert(expanded(t, images, documents, true)->Array_0 =~= all.map_values(
        |t: Tree| expanded(t, images, documents, true),
    ));
    let o = Tree::Object(entries);
    assert(o->Object_0 == entries);
    assert forall|i: int| 0 <= i < entries.len() implies (#[trigger] entries[i]).1.depth()
        < o.depth() by {
        lemma_entry_depth(entries, i);
    }
    assert(expanded(o, images, documents, true)->Object_0 =~= entries.map_values(
        |e: (Seq<char>, Tree)| (e.0, expanded(e.1, images, documents, true)),
    ));
}

} // verus!
