//! Laws of building messages.

use vstd::prelude::*;

use crate::json::{empty_object, lemma_entry_depth, Tree};
use crate::json_text::{
    entries_text, escaped, filled, filled_entries, filled_items, items_text, json_text,
    lemma_filled_entries, lemma_filled_items, lemma_placeholder_quoted, lemma_replaced_json,
    placeholder, quoted, shouted,
};
use crate::laws::json::lemma_with;
use crate::laws::text::{
    first_behind, lacks, lemma_not_mentioned, lemma_replaced_first, lemma_replaced_none,
};
use crate::messages::{
    document_names, document_payloads, expand, expanded, filled_all, history_turns, holder, holds,
    image_names, image_payloads, is_image, lemma_expanded_inwards, messages_key, messages_of, part,
    tree_mentions, turn, user_place, user_turn, with_messages, with_text, HistoryMessage,
};
use crate::schema::{File, Role};
use crate::text::{find, lemma_find_from, mentions, occurs_at, replaced};

verus! {

/// `p` stands in some text or some key of the tree.
pub open spec fn contains_text(t: Tree, p: Seq<char>) -> bool
    decreases t,
{
    match t {
        Tree::Text(s) => !lacks(s, p),
        Tree::Array(items) => exists|i: int|
            0 <= i < items.len() && contains_text(#[trigger] items[i], p),
        Tree::Object(entries) => exists|i: int|
            0 <= i < entries.len() && (!lacks((#[trigger] entries[i]).0, p) || contains_text(
                entries[i].1,
                p,
            )),
        _ => false,
    }
}

/// `p` stands in some text of the tree.
pub open spec fn says(t: Tree, p: Seq<char>) -> bool
    decreases t,
{
    match t {
        Tree::Text(s) => !lacks(s, p),
        Tree::Array(items) => exists|i: int| 0 <= i < items.len() && says(#[trigger] items[i], p),
        Tree::Object(entries) => exists|i: int|
            0 <= i < entries.len() && says((#[trigger] entries[i]).1, p),
        _ => false,
    }
}

proof fn lemma_lacks_within(a: Seq<char>, s: Seq<char>, b: Seq<char>, p: Seq<char>)
    requires
        !lacks(s, p),
    ensures
        !lacks(a + s + b, p),
{
    let j = choose|j: int|
        0 <= j <= s.len() - p.len() && #[trigger] s.subrange(j, j + p.len()) == p;
    let x = a + s + b;
    let at = a.len() + j;
    assert(x.subrange(at, at + p.len()) =~= s.subrange(j, j + p.len()));
}

proof fn lemma_quoted_within(s: Seq<char>, name: Seq<char>)
    requires
        shouted(name),
        !lacks(s, placeholder(name)),
    ensures
        !lacks(quoted(s), placeholder(name)),
{
    let p = placeholder(name);
    let j = choose|j: int|
        0 <= j <= s.len() - p.len() && #[trigger] s.subrange(j, j + p.len()) == p;
    assert(occurs_at(s, p, j));
    lemma_placeholder_quoted(s, name, j);
    let at = escaped(s.take(j)).len() as int + 1;
    assert(quoted(s).subrange(at, at + p.len()) == p);
}

proof fn lemma_items_within(items: Seq<Tree>, i: int, p: Seq<char>)
    requires
        0 <= i < items.len(),
        !lacks(json_text(items[i]), p),
    ensures
        !lacks(items_text(items), p),
    decreases items.len(),
{
    let none = Seq::<char>::empty();
    if items.len() > 1 {
        let front = items_text(items.drop_last()) + seq![','];
        let last = json_text(items.last());
        if i == items.len() - 1 {
            lemma_lacks_within(front, last, none, p);
            assert(front + last + none =~= items_text(items));
        } else {
            assert(items.drop_last()[i] == items[i]);
            lemma_items_within(items.drop_last(), i, p);
            lemma_lacks_within(none, items_text(items.drop_last()), seq![','] + last, p);
            assert(none + items_text(items.drop_last()) + (seq![','] + last) =~= items_text(items));
        }
    }
}

proof fn lemma_entries_within(entries: Seq<(Seq<char>, Tree)>, i: int, p: Seq<char>)
    requires
        0 <= i < entries.len(),
        !lacks(quoted(entries[i].0), p) || !lacks(json_text(entries[i].1), p),
    ensures
        !lacks(entries_text(entries), p),
    decreases entries.len(),
{
    let none = Seq::<char>::empty();
    let key = quoted(entries.last().0);
    let value = json_text(entries.last().1);
    let whole = entries_text(entries);
    let front = if entries.len() == 1 {
        none
    } else {
        entries_text(entries.drop_last()) + seq![',']
    };
    if i == entries.len() - 1 {
        if !lacks(key, p) {
            lemma_lacks_within(front, key, seq![':'] + value, p);
            assert(front + key + (seq![':'] + value) =~= whole);
        } else {
            lemma_lacks_within(front + key + seq![':'], value, none, p);
            assert(front + key + seq![':'] + value + none =~= whole);
        }
    } else {
        let init = entries.drop_last();
        assert(init[i] == entries[i]);
        lemma_entries_within(init, i, p);
        lemma_lacks_within(none, entries_text(init), seq![','] + key + seq![':'] + value, p);
        assert(none + entries_text(init) + (seq![','] + key + seq![':'] + value) =~= whole);
    }
}

proof fn lemma_contained_in_text(t: Tree, name: Seq<char>)
    requires
        shouted(name),
        contains_text(t, placeholder(name)),
    ensures
        !lacks(json_text(t), placeholder(name)),
    decreases t,
{
    let p = placeholder(name);
    match t {
        Tree::Text(s) => lemma_quoted_within(s, name),
        Tree::Array(items) => {
            assert(t->Array_0 == items);
            let i = choose|i: int|
                0 <= i < items.len() && contains_text(#[trigger] items[i], p);
            lemma_contained_in_text(items[i], name);
            lemma_items_within(items, i, p);
            lemma_lacks_within(seq!['['], items_text(items), seq![']'], p);
        },
        Tree::Object(entries) => {
            assert(t->Object_0 == entries);
            let i = choose|i: int|
                0 <= i < entries.len() && (!lacks((#[trigger] entries[i]).0, p) || contains_text(
                    entries[i].1,
                    p,
                ));
            if !lacks(entries[i].0, p) {
                lemma_quoted_within(entries[i].0, name);
            } else {
                lemma_contained_in_text(entries[i].1, name);
            }
            lemma_entries_within(entries, i, p);
            lemma_lacks_within(seq!['{'], entries_text(entries), seq!['}'], p);
        },
        _ => {},
    }
}

/// Where a text stands nowhere in a tree, filling it in changes nothing.
pub proof fn lemma_nothing_filled(t: Tree, p: Seq<char>, w: Seq<char>)
    requires
        !contains_text(t, p),
    ensures
        filled(t, p, w) == t,
    decreases t,
{
    match t {
        Tree::Text(s) => lemma_replaced_none(s, p, w),
        Tree::Array(items) => {
            assert(t->Array_0 == items);
            lemma_filled_items(items, p, w);
            assert forall|i: int| 0 <= i < items.len() implies #[trigger] filled_items(
                items,
                p,
                w,
            )[i] == items[i] by {
                assert(!contains_text(items[i], p));
                lemma_nothing_filled(items[i], p, w);
            }
            assert(filled_items(items, p, w) =~= items);
        },
        Tree::Object(entries) => {
            assert(t->Object_0 == entries);
            lemma_filled_entries(entries, p, w);
            assert forall|i: int| 0 <= i < entries.len() implies #[trigger] filled_entries(
                entries,
                p,
                w,
            )[i] == entries[i] by {
                assert(lacks(entries[i].0, p) && !contains_text(entries[i].1, p));
                lemma_replaced_none(entries[i].0, p, w);
                lemma_nothing_filled(entries[i].1, p, w);
            }
            assert(filled_entries(entries, p, w) =~= entries);
        },
        _ => {},
    }
}

proof fn lemma_replaced_by_nothing(s: Seq<char>, p: Seq<char>)
    requires
        p.len() > 0,
    ensures
        replaced(s, p, Seq::empty()).len() <= s.len(),
        mentions(s, p) ==> replaced(s, p, Seq::empty()).len() < s.len(),
    decreases s.len(),
{
    lemma_find_from(s, p, 0);
    if let Some(i) = find(s, p) {
        lemma_replaced_by_nothing(s.skip(i + p.len()), p);
    }
}

/// The text of a tree mentions a placeholder if and only if some text or key of
/// the tree contains it, at whatever position.
pub proof fn lemma_text_mentions(t: Tree, name: Seq<char>)
    requires
        t.plain(),
        shouted(name),
    ensures
        mentions(json_text(t), placeholder(name)) <==> contains_text(t, placeholder(name)),
{
    let p = placeholder(name);
    let none = Seq::<char>::empty();
    lemma_not_mentioned(json_text(t), p);
    if contains_text(t, p) {
        lemma_contained_in_text(t, name);
    } else {
        lemma_nothing_filled(t, p, none);
        lemma_replaced_json(t, name, none);
        assert(escaped(none) =~= none);
        lemma_replaced_by_nothing(json_text(t), p);
    }
}

/// The placeholders of a message template, as they are written.
pub proof fn lemma_placeholder_names()
    ensures
        placeholder("IMAGE"@) == "{{IMAGE}}"@,
        placeholder("IMAGE_MIME"@) == "{{IMAGE_MIME}}"@,
        placeholder("DOCUMENT"@) == "{{DOCUMENT}}"@,
        placeholder("TEXT"@) == "{{TEXT}}"@,
        shouted("IMAGE"@),
        shouted("IMAGE_MIME"@),
        shouted("DOCUMENT"@),
        shouted("TEXT"@),
{
    reveal_strlit("IMAGE");
    reveal_strlit("IMAGE_MIME");
    reveal_strlit("DOCUMENT");
    reveal_strlit("TEXT");
    reveal_strlit("{{IMAGE}}");
    reveal_strlit("{{IMAGE_MIME}}");
    reveal_strlit("{{DOCUMENT}}");
    reveal_strlit("{{TEXT}}");
    assert(placeholder("IMAGE"@) =~= "{{IMAGE}}"@);
    assert(placeholder("IMAGE_MIME"@) =~= "{{IMAGE_MIME}}"@);
    assert(placeholder("DOCUMENT"@) =~= "{{DOCUMENT}}"@);
    assert(placeholder("TEXT"@) =~= "{{TEXT}}"@);
}

/// The tree has a place for an image.
pub open spec fn for_image(t: Tree) -> bool {
    contains_text(t, "{{IMAGE}}"@) || contains_text(t, "{{IMAGE_MIME}}"@)
}

/// The tree has a place for a document.
pub open spec fn for_document(t: Tree) -> bool {
    contains_text(t, "{{DOCUMENT}}"@)
}

/// An item counts as the place for an attachment if and only if some text or key
/// in it contains a placeholder for one, at whatever position.
pub proof fn lemma_holds(t: Tree)
    requires
        t.plain(),
    ensures
        holds(t, image_names()) <==> for_image(t),
        holds(t, document_names()) <==> for_document(t),
{
    lemma_placeholder_names();
    lemma_text_mentions(t, "IMAGE"@);
    lemma_text_mentions(t, "IMAGE_MIME"@);
    lemma_text_mentions(t, "DOCUMENT"@);
    assert(image_names()[0] == "IMAGE"@ && image_names()[1] == "IMAGE_MIME"@);
    assert(document_names()[0] == "DOCUMENT"@);
    if for_image(t) {
        if contains_text(t, "{{IMAGE}}"@) {
            assert(mentions(json_text(t), placeholder(image_names()[0])));
        } else {
            assert(mentions(json_text(t), placeholder(image_names()[1])));
        }
    }
    if for_document(t) {
        assert(mentions(json_text(t), placeholder(document_names()[0])));
    }
}

/// A text with a placeholder anywhere in it is the place for the attachment.
pub proof fn lemma_holds_around(a: Seq<char>, b: Seq<char>)
    ensures
        holds(Tree::Text(a + "{{IMAGE}}"@ + b), image_names()),
        holds(Tree::Text(a + "{{IMAGE_MIME}}"@ + b), image_names()),
        holds(Tree::Text(a + "{{DOCUMENT}}"@ + b), document_names()),
{
    lemma_stands(a, "{{IMAGE}}"@, b);
    lemma_stands(a, "{{IMAGE_MIME}}"@, b);
    lemma_stands(a, "{{DOCUMENT}}"@, b);
    lemma_holds(Tree::Text(a + "{{IMAGE}}"@ + b));
    lemma_holds(Tree::Text(a + "{{IMAGE_MIME}}"@ + b));
    lemma_holds(Tree::Text(a + "{{DOCUMENT}}"@ + b));
}

proof fn lemma_stands(a: Seq<char>, p: Seq<char>, b: Seq<char>)
    ensures
        !lacks(a + p + b, p),
{
    let s = a + p + b;
    let n = a.len() as int;
    assert(s.subrange(n, n + p.len()) =~= p);
}

/// Filling a text in replaces it in every text and every key of a tree, wherever
/// they stand, and changes nothing else.
pub proof fn lemma_filled(
    t: Tree,
    s: Seq<char>,
    items: Seq<Tree>,
    entries: Seq<(Seq<char>, Tree)>,
    p: Seq<char>,
    w: Seq<char>,
)
    ensures
        filled(Tree::Text(s), p, w) == Tree::Text(replaced(s, p, w)),
        filled(Tree::Array(items), p, w) matches Tree::Array(out) && out.len() == items.len() && (
        forall|i: int| 0 <= i < items.len() ==> #[trigger] out[i] == filled(items[i], p, w)),
        filled(Tree::Object(entries), p, w) matches Tree::Object(out) && out.len()
            == entries.len() && (forall|i: int|
            0 <= i < entries.len() ==> #[trigger] out[i] == (
                replaced(entries[i].0, p, w),
                filled(entries[i].1, p, w),
            )),
        !(t is Text) && !(t is Array) && !(t is Object) ==> filled(t, p, w) == t,
{
    let array = Tree::Array(items);
    assert(array->Array_0 == items);
    let object = Tree::Object(entries);
    assert(object->Object_0 == entries);
    lemma_filled_items(items, p, w);
    lemma_filled_entries(entries, p, w);
}

proof fn lemma_holder_at(items: Seq<Tree>, names: Seq<Seq<char>>, from: int, i: int)
    requires
        0 <= from <= i <= items.len(),
        forall|j: int| from <= j < i ==> !holds(#[trigger] items[j], names),
        i < items.len() ==> holds(items[i], names),
    ensures
        holder(items, names, from) == (if i < items.len() {
            Some(i)
        } else {
            None
        }),
    decreases i - from,
{
    if from < i {
        lemma_holder_at(items, names, from + 1, i);
    }
}

/// In an array, the first item with a place for an image gives way to a copy of
/// it for each image, with the image's content and its MIME type in the places
/// of their placeholders; all other items stay, in order.
pub proof fn lemma_image_copies(
    before: Seq<Tree>,
    item: Tree,
    after: Seq<Tree>,
    images: Seq<Seq<Seq<char>>>,
)
    requires
        forall|i: int|
            0 <= i < before.len() ==> (#[trigger] before[i]).plain() && !for_image(before[i]),
        item.plain(),
        for_image(item),
        forall|k: int| 0 <= k < images.len() ==> (#[trigger] images[k]).len() == 2,
    ensures
        expand(before + seq![item] + after, image_names(), images, true) == before + Seq::new(
            images.len(),
            |k: int| filled(filled(item, "{{IMAGE}}"@, images[k][0]), "{{IMAGE_MIME}}"@, images[k][1]),
        ) + after,
{
    let names = image_names();
    let items = before + seq![item] + after;
    let n = before.len() as int;
    assert forall|j: int| 0 <= j < n implies !holds(#[trigger] items[j], names) by {
        assert(items[j] == before[j]);
        lemma_holds(before[j]);
    }
    lemma_holds(item);
    assert(items[n] == item);
    lemma_holder_at(items, names, 0, n);
    lemma_placeholder_names();
    reveal_with_fuel(filled_all, 3);
    assert(items.take(n) =~= before);
    assert(items.skip(n + 1) =~= after);
    let copies = Seq::new(
        images.len(),
        |k: int| filled(filled(item, "{{IMAGE}}"@, images[k][0]), "{{IMAGE_MIME}}"@, images[k][1]),
    );
    let made = Seq::new(images.len(), |k: int| part(item, names, images[k], true));
    assert forall|k: int| 0 <= k < images.len() implies #[trigger] made[k] == copies[k] by {
        assert(images[k].len() == 2);
        assert(names.skip(1)[0] == "IMAGE_MIME"@);
        assert(images[k].skip(1)[0] == images[k][1]);
        assert(names.skip(1).skip(1).len() == 0);
    }
    assert(made =~= copies);
}

/// In an array, the first item with a place for a document gives way to a copy of
/// it for each document, with the document's content in the place of its
/// placeholder; all other items stay, in order.
pub proof fn lemma_document_copies(
    before: Seq<Tree>,
    item: Tree,
    after: Seq<Tree>,
    documents: Seq<Seq<Seq<char>>>,
)
    requires
        forall|i: int|
            0 <= i < before.len() ==> (#[trigger] before[i]).plain() && !for_document(before[i]),
        item.plain(),
        for_document(item),
        forall|k: int| 0 <= k < documents.len() ==> (#[trigger] documents[k]).len() == 1,
    ensures
        expand(before + seq![item] + after, document_names(), documents, true) == before + Seq::new(
            documents.len(),
            |k: int| filled(item, "{{DOCUMENT}}"@, documents[k][0]),
        ) + after,
{
    let names = document_names();
    let items = before + seq![item] + after;
    let n = before.len() as int;
    assert forall|j: int| 0 <= j < n implies !holds(#[trigger] items[j], names) by {
        assert(items[j] == before[j]);
        lemma_holds(before[j]);
    }
    lemma_holds(item);
    assert(items[n] == item);
    lemma_holder_at(items, names, 0, n);
    lemma_placeholder_names();
    reveal_with_fuel(filled_all, 2);
    assert(items.take(n) =~= before);
    assert(items.skip(n + 1) =~= after);
    let copies = Seq::new(
        documents.len(),
        |k: int| filled(item, "{{DOCUMENT}}"@, documents[k][0]),
    );
    let made = Seq::new(documents.len(), |k: int| part(item, names, documents[k], true));
    assert forall|k: int| 0 <= k < documents.len() implies #[trigger] made[k] == copies[k] by {
        assert(documents[k].len() == 1);
        assert(names.skip(1).len() == 0);
    }
    assert(made =~= copies);
}

/// Where something may be lost, too, the first item with a place for an attachment
/// gives way to a copy of it for each, and all other items stay, in order.
pub proof fn lemma_copies_in_place(
    before: Seq<Tree>,
    item: Tree,
    after: Seq<Tree>,
    payloads: Seq<Seq<Seq<char>>>,
    lossless: bool,
)
    requires
        forall|i: int| 0 <= i < before.len() ==> (#[trigger] before[i]).plain(),
        item.plain(),
    ensures
        for_image(item) && (forall|i: int|
            0 <= i < before.len() ==> !for_image(#[trigger] before[i])) ==> expand(
            before + seq![item] + after,
            image_names(),
            payloads,
            lossless,
        ) == before + Seq::new(
            payloads.len(),
            |k: int| part(item, seq!["IMAGE"@, "IMAGE_MIME"@], payloads[k], lossless),
        ) + after,
        for_document(item) && (forall|i: int|
            0 <= i < before.len() ==> !for_document(#[trigger] before[i])) ==> expand(
            before + seq![item] + after,
            document_names(),
            payloads,
            lossless,
        ) == before + Seq::new(
            payloads.len(),
            |k: int| part(item, seq!["DOCUMENT"@], payloads[k], lossless),
        ) + after,
{
    let items = before + seq![item] + after;
    let n = before.len() as int;
    lemma_holds(item);
    assert(items[n] == item);
    assert(items.take(n) =~= before);
    assert(items.skip(n + 1) =~= after);
    assert(image_names() =~= seq!["IMAGE"@, "IMAGE_MIME"@]);
    assert(document_names() =~= seq!["DOCUMENT"@]);
    if for_image(item) && (forall|i: int|
        0 <= i < before.len() ==> !for_image(#[trigger] before[i])) {
        assert forall|j: int| 0 <= j < n implies !holds(#[trigger] items[j], image_names()) by {
            assert(items[j] == before[j]);
            lemma_holds(before[j]);
        }
        lemma_holder_at(items, image_names(), 0, n);
        assert(Seq::new(
            payloads.len(),
            |k: int| part(items[n], image_names(), payloads[k], lossless),
        ) =~= Seq::new(
            payloads.len(),
            |k: int| part(item, seq!["IMAGE"@, "IMAGE_MIME"@], payloads[k], lossless),
        ));
    }
    if for_document(item) && (forall|i: int|
        0 <= i < before.len() ==> !for_document(#[trigger] before[i])) {
        assert forall|j: int| 0 <= j < n implies !holds(#[trigger] items[j], document_names()) by {
            assert(items[j] == before[j]);
            lemma_holds(before[j]);
        }
        lemma_holder_at(items, document_names(), 0, n);
        assert(Seq::new(
            payloads.len(),
            |k: int| part(items[n], document_names(), payloads[k], lossless),
        ) =~= Seq::new(
            payloads.len(),
            |k: int| part(item, seq!["DOCUMENT"@], payloads[k], lossless),
        ));
    }
}

/// Attachments go into every array, first the images and then the documents, and
/// from there into all that it holds, and into every value of an object; keys,
/// texts and all else stay.
pub proof fn lemma_expanded(
    t: Tree,
    items: Seq<Tree>,
    entries: Seq<(Seq<char>, Tree)>,
    images: Seq<Seq<Seq<char>>>,
    documents: Seq<Seq<Seq<char>>>,
    lossless: bool,
    i: int,
)
    ensures
        ({
            let all = expand(
                expand(items, image_names(), images, lossless),
                document_names(),
                documents,
                lossless,
            );
            &&& expanded(Tree::Array(items), images, documents, lossless) matches Tree::Array(out)
                && out.len() == all.len() && (0 <= i < all.len() && all[i].depth() < Tree::Array(
                items,
            ).depth() ==> out[i] == expanded(all[i], images, documents, lossless))
        }),
        expanded(Tree::Object(entries), images, documents, lossless) matches Tree::Object(out)
            && out.len() == entries.len() && (0 <= i < entries.len() ==> out[i] == (
            entries[i].0,
            expanded(entries[i].1, images, documents, lossless),
        )),
        !(t is Array) && !(t is Object) ==> expanded(t, images, documents, lossless) == t,
{
    let array = Tree::Array(items);
    assert(array->Array_0 == items);
    let object = Tree::Object(entries);
    assert(object->Object_0 == entries);
    if 0 <= i < entries.len() {
        lemma_entry_depth(entries, i);
    }
}

/// The user's turn has the text put in first, and then the images and the other
/// files among the attachments.
pub proof fn lemma_user_turn(
    template: Tree,
    message: Seq<char>,
    files: Seq<File>,
    lossless: bool,
)
    ensures
        user_turn(template, message, files, lossless) == expanded(
            with_text(template, message, lossless),
            image_payloads(files),
            document_payloads(files),
            lossless,
        ),
        with_text(template, message, true) == filled(template, "{{TEXT}}"@, message),
{
    lemma_placeholder_names();
}

/// An array without a place for an attachment stays, whatever is attached.
pub proof fn lemma_no_copies(items: Seq<Tree>, payloads: Seq<Seq<Seq<char>>>, lossless: bool)
    requires
        forall|i: int| 0 <= i < items.len() ==> (#[trigger] items[i]).plain(),
    ensures
        (forall|i: int| 0 <= i < items.len() ==> !for_image(#[trigger] items[i])) ==> expand(
            items,
            image_names(),
            payloads,
            lossless,
        ) == items,
        (forall|i: int| 0 <= i < items.len() ==> !for_document(#[trigger] items[i])) ==> expand(
            items,
            document_names(),
            payloads,
            lossless,
        ) == items,
{
    let n = items.len() as int;
    if forall|i: int| 0 <= i < items.len() ==> !for_image(#[trigger] items[i]) {
        assert forall|j: int| 0 <= j < n implies !holds(#[trigger] items[j], image_names()) by {
            lemma_holds(items[j]);
        }
        lemma_holder_at(items, image_names(), 0, n);
    }
    if forall|i: int| 0 <= i < items.len() ==> !for_document(#[trigger] items[i]) {
        assert forall|j: int| 0 <= j < n implies !holds(#[trigger] items[j], document_names()) by {
            lemma_holds(items[j]);
        }
        lemma_holder_at(items, document_names(), 0, n);
    }
}

/// The MIME type is that of an image.
pub open spec fn image_mime(mime: Seq<char>) -> bool {
    mime.len() >= 6 && mime.take(6) == "image/"@
}

/// A file whose MIME type begins with `image/` is handed on as an image, with its
/// content and its MIME type, and any other as a document, with its content; the
/// files keep their order.
pub proof fn lemma_payloads(a: Seq<File>, b: Seq<File>, f: File)
    ensures
        image_payloads(a + b) == image_payloads(a) + image_payloads(b),
        document_payloads(a + b) == document_payloads(a) + document_payloads(b),
        image_payloads(seq![f]) == (if image_mime(f.mime) {
            seq![seq![f.base64, f.mime]]
        } else {
            Seq::empty()
        }),
        document_payloads(seq![f]) == (if image_mime(f.mime) {
            Seq::empty()
        } else {
            seq![seq![f.base64]]
        }),
    decreases b.len(),
{
    reveal_with_fuel(image_payloads, 2);
    reveal_with_fuel(document_payloads, 2);
    reveal_strlit("image/");
    assert(seq![f].drop_last() =~= Seq::empty());
    if f.mime.len() >= 6 {
        assert(f.mime.take(6) =~= f.mime.subrange(0, 6));
    }
    assert(is_image(f) == image_mime(f.mime));
    let image = seq![f.base64, f.mime];
    assert(Seq::<Seq<Seq<char>>>::empty().push(image) =~= seq![image]);
    let document = seq![f.base64];
    assert(Seq::<Seq<Seq<char>>>::empty().push(document) =~= seq![document]);
    if b.len() == 0 {
        assert(a + b =~= a);
        assert(image_payloads(a) + image_payloads(b) =~= image_payloads(a));
        assert(document_payloads(a) + document_payloads(b) =~= document_payloads(a));
    } else {
        lemma_payloads(a, b.drop_last(), f);
        assert((a + b).drop_last() =~= a + b.drop_last());
        assert(image_payloads(a + b) =~= image_payloads(a) + image_payloads(b));
        assert(document_payloads(a + b) =~= document_payloads(a) + document_payloads(b));
    }
}

/// Each turn of the history is a message with the name of its own role and its
/// own text.
pub proof fn lemma_history_turns(history: Seq<HistoryMessage>, i: int)
    requires
        0 <= i < history.len(),
    ensures
        history_turns(history).len() == history.len(),
        history_turns(history)[i].get("role"@) == Some(
            Tree::Text(
                match history[i].role {
                    Role::User => "user"@,
                    Role::Assistant => "assistant"@,
                    Role::System => "system"@,
                },
            ),
        ),
        history_turns(history)[i].get("content"@) == Some(Tree::Text(history[i].content@)),
{
    lemma_turn(history[i].role.name(), history[i].content@);
}

/// A plain turn has its role and its text, and nothing else.
pub proof fn lemma_turn(role: Seq<char>, content: Seq<char>)
    ensures
        turn(role, content).get("role"@) == Some(Tree::Text(role)),
        turn(role, content).get("content"@) == Some(Tree::Text(content)),
        forall|key: Seq<char>|
            key != "role"@ && key != "content"@ ==> #[trigger] turn(role, content).get(key) is None,
{
    reveal_strlit("role");
    reveal_strlit("content");
    let first = empty_object().with("role"@, Tree::Text(role));
    lemma_with(empty_object(), "role"@, Tree::Text(role), "content"@);
    lemma_with(first, "content"@, Tree::Text(content), "role"@);
    assert("role"@ != "content"@) by {
        assert("role"@.len() != "content"@.len());
    }
    assert forall|key: Seq<char>| key != "role"@ && key != "content"@ implies #[trigger] turn(
        role,
        content,
    ).get(key) is None by {
        lemma_with(empty_object(), "role"@, Tree::Text(role), key);
        lemma_with(first, "content"@, Tree::Text(content), key);
    }
}

proof fn lemma_says(t: Tree, p: Seq<char>)
    ensures
        tree_mentions(t, p) <==> says(t, p),
    decreases t,
{
    match t {
        Tree::Text(s) => lemma_not_mentioned(s, p),
        Tree::Array(items) => {
            assert(t->Array_0 == items);
            assert forall|i: int| 0 <= i < items.len() implies tree_mentions(
                #[trigger] items[i],
                p,
            ) == says(items[i], p) by {
                lemma_says(items[i], p);
            }
        },
        Tree::Object(entries) => {
            assert(t->Object_0 == entries);
            assert forall|i: int| 0 <= i < entries.len() implies tree_mentions(
                (#[trigger] entries[i]).1,
                p,
            ) == says(entries[i].1, p) by {
                lemma_says(entries[i].1, p);
            }
        },
        _ => {},
    }
}

/// The user's turn goes to the first message of which some text contains
/// `{{TEXT}}`, at whatever position, and has no place of its own where none does.
pub proof fn lemma_user_place_at(items: Seq<Tree>, i: int)
    requires
        0 <= i <= items.len(),
        forall|j: int| 0 <= j < i ==> !says(#[trigger] items[j], "{{TEXT}}"@),
        i < items.len() ==> says(items[i], "{{TEXT}}"@),
    ensures
        user_place(items, 0) == (if i < items.len() {
            Some(i)
        } else {
            None
        }),
{
    lemma_user_place_from(items, 0, i);
}

proof fn lemma_user_place_from(items: Seq<Tree>, from: int, i: int)
    requires
        0 <= from <= i <= items.len(),
        forall|j: int| 0 <= j < i ==> !says(#[trigger] items[j], "{{TEXT}}"@),
        i < items.len() ==> says(items[i], "{{TEXT}}"@),
    ensures
        user_place(items, from) == (if i < items.len() {
            Some(i)
        } else {
            None
        }),
    decreases i - from,
{
    lemma_placeholder_names();
    if from < items.len() {
        lemma_says(items[from], "{{TEXT}}"@);
    }
    if from < i {
        assert(!says(items[from], "{{TEXT}}"@));
        lemma_user_place_from(items, from + 1, i);
    }
}

/// The keys under which messages may stand, the first one first.
pub open spec fn message_keys() -> Seq<Seq<char>> {
    seq!["messages"@, "contents"@, "conversation"@, "history"@]
}

/// The body has an array under the key.
pub open spec fn array_at(body: Tree, key: Seq<char>) -> bool {
    body.get(key) matches Some(t) && t is Array
}

/// The messages go into the array under the first of the keys that has one, and
/// nothing else of the body changes.
pub proof fn lemma_messages_placed(
    body: Tree,
    history: Seq<HistoryMessage>,
    message: Seq<char>,
    files: Seq<File>,
    lossless: bool,
    k: int,
    items: Seq<Tree>,
    other: Seq<char>,
)
    requires
        0 <= k < 4,
        body.get(message_keys()[k]) == Some(Tree::Array(items)),
        forall|j: int| 0 <= j < k ==> !array_at(body, #[trigger] message_keys()[j]),
    ensures
        ({
            let out = with_messages(body, history, message, files, lossless);
            &&& out.get(message_keys()[k]) == Some(
                Tree::Array(messages_of(items, history, message, files, lossless)),
            )
            &&& other != message_keys()[k] ==> out.get(other) == body.get(other)
        }),
{
    let keys = message_keys();
    let key = keys[k];
    if k > 0 {
        assert(!array_at(body, keys[0]));
    }
    if k > 1 {
        assert(!array_at(body, keys[1]));
    }
    if k > 2 {
        assert(!array_at(body, keys[2]));
    }
    assert(messages_key(body) == Some(key));
    let t = Tree::Array(items);
    assert(t->Array_0 == items);
    lemma_with(
        body,
        key,
        Tree::Array(messages_of(items, history, message, files, lossless)),
        other,
    );
}

/// A body with an array under none of the keys stays.
pub proof fn lemma_messages_unplaced(
    body: Tree,
    history: Seq<HistoryMessage>,
    message: Seq<char>,
    files: Seq<File>,
    lossless: bool,
)
    requires
        forall|j: int| 0 <= j < 4 ==> !array_at(body, #[trigger] message_keys()[j]),
    ensures
        with_messages(body, history, message, files, lossless) == body,
{
    let keys = message_keys();
    assert(!array_at(body, keys[0]) && !array_at(body, keys[1]) && !array_at(body, keys[2])
        && !array_at(body, keys[3]));
}

/// A text without opening braces.
pub open spec fn braceless(s: Seq<char>) -> bool {
    forall|i: int| 0 <= i < s.len() ==> #[trigger] s[i] != '{'
}

proof fn lemma_differs(s: Seq<char>, j: int, p: Seq<char>, m: int)
    requires
        0 <= j,
        j + p.len() <= s.len(),
        0 <= m < p.len(),
        s[j + m] != p[m],
    ensures
        s.subrange(j, j + p.len()) != p,
{
    assert(s.subrange(j, j + p.len())[m] == s[j + m]);
}

proof fn lemma_braceless(a: Seq<char>, p: Seq<char>, b: Seq<char>)
    requires
        braceless(a),
        p.len() > 0,
        p[0] == '{',
    ensures
        lacks(a, p),
        first_behind(a, p, b),
{
    assert forall|j: int| 0 <= j <= a.len() - p.len() implies #[trigger] a.subrange(
        j,
        j + p.len(),
    ) != p by {
        lemma_differs(a, j, p, 0);
    }
    let s = a + p + b;
    assert forall|j: int| 0 <= j < a.len() implies #[trigger] s.subrange(j, j + p.len()) != p by {
        assert(s[j] == a[j]);
        lemma_differs(s, j, p, 0);
    }
}

/// A template's placeholder `{{TEXT}}` gives way to the text of the message, in
/// the middle of whatever stands around it.
proof fn lemma_text_filled(p: Seq<char>, q: Seq<char>, message: Seq<char>)
    requires
        braceless(p),
        braceless(q),
    ensures
        filled(Tree::Text(p + "{{TEXT}}"@ + q), "{{TEXT}}"@, message) == Tree::Text(
            p + message + q,
        ),
{
    reveal_strlit("{{TEXT}}");
    let lit = "{{TEXT}}"@;
    lemma_braceless(p, lit, q);
    lemma_braceless(q, lit, q);
    lemma_replaced_first(p, lit, q, message);
    lemma_replaced_none(q, lit, message);
}

proof fn lemma_braceless_text(s: Seq<char>)
    requires
        braceless(s),
    ensures
        !for_image(Tree::Text(s)),
        !for_document(Tree::Text(s)),
{
    reveal_strlit("{{IMAGE}}");
    reveal_strlit("{{IMAGE_MIME}}");
    reveal_strlit("{{DOCUMENT}}");
    lemma_braceless(s, "{{IMAGE}}"@, s);
    lemma_braceless(s, "{{IMAGE_MIME}}"@, s);
    lemma_braceless(s, "{{DOCUMENT}}"@, s);
}

/// Two opening braces and then none.
spec fn marker(x: Seq<char>) -> bool {
    &&& x.len() > 2
    &&& x[0] == '{'
    &&& x[1] == '{'
    &&& forall|i: int| 2 <= i < x.len() ==> #[trigger] x[i] != '{'
}

proof fn lemma_markers()
    ensures
        marker("{{TEXT}}"@),
        marker("{{IMAGE}}"@),
        marker("{{IMAGE_MIME}}"@),
        marker("{{DOCUMENT}}"@),
        "{{TEXT}}"@[2] == 'T',
        "{{IMAGE}}"@[2] == 'I',
        "{{IMAGE_MIME}}"@[2] == 'I',
        "{{DOCUMENT}}"@[2] == 'D',
        "{{IMAGE}}"@.len() == 9,
        "{{IMAGE}}"@[7] == '}',
        "{{IMAGE_MIME}}"@.len() == 14,
        "{{IMAGE_MIME}}"@[7] == '_',
{
    reveal_strlit("{{TEXT}}");
    reveal_strlit("{{IMAGE}}");
    reveal_strlit("{{IMAGE_MIME}}");
    reveal_strlit("{{DOCUMENT}}");
}

proof fn lemma_neither(
    a: Seq<char>,
    x: Seq<char>,
    b: Seq<char>,
    y: Seq<char>,
    c: Seq<char>,
    p: Seq<char>,
)
    requires
        braceless(a),
        braceless(b),
        braceless(c),
        marker(x),
        marker(y),
        marker(p),
        p[2] != x[2],
        p[2] != y[2],
    ensures
        lacks(a + x + b + y + c, p),
{
    let s = a + x + b + y + c;
    let n = a.len() as int;
    let m = n + x.len() + b.len();
    assert forall|j: int| 0 <= j <= s.len() - p.len() implies #[trigger] s.subrange(
        j,
        j + p.len(),
    ) != p by {
        if j == n {
            assert(s[j + 2] == x[2]);
            lemma_differs(s, j, p, 2);
        } else if j == m {
            assert(s[j + 2] == y[2]);
            lemma_differs(s, j, p, 2);
        } else if j == n + 1 {
            assert(s[j + 1] == x[2]);
            lemma_differs(s, j, p, 1);
        } else if j == m + 1 {
            assert(s[j + 1] == y[2]);
            lemma_differs(s, j, p, 1);
        } else {
            lemma_outside(a, x, b, y, c, j);
            lemma_differs(s, j, p, 0);
        }
    }
}

proof fn lemma_second_behind(
    a: Seq<char>,
    x: Seq<char>,
    b: Seq<char>,
    y: Seq<char>,
    c: Seq<char>,
    k: int,
)
    requires
        braceless(a),
        braceless(b),
        braceless(c),
        marker(x),
        marker(y),
        0 <= k < x.len(),
        k < y.len(),
        x[k] != y[k],
    ensures
        first_behind(a + x + b, y, c),
{
    let s = a + x + b + y + c;
    let n = a.len() as int;
    assert forall|j: int| 0 <= j < (a + x + b).len() implies #[trigger] s.subrange(j, j + y.len())
        != y by {
        if j == n {
            assert(s[j + k] == x[k]);
            lemma_differs(s, j, y, k);
        } else if j == n + 1 {
            assert(s[j + 1] == x[2]);
            lemma_differs(s, j, y, 1);
        } else {
            lemma_outside(a, x, b, y, c, j);
            lemma_differs(s, j, y, 0);
        }
    }
}

proof fn lemma_two_replaced(
    a: Seq<char>,
    x: Seq<char>,
    b: Seq<char>,
    y: Seq<char>,
    c: Seq<char>,
    k: int,
    wx: Seq<char>,
    wy: Seq<char>,
)
    requires
        braceless(a),
        braceless(b),
        braceless(c),
        braceless(wy),
        marker(x),
        marker(y),
        0 <= k < x.len(),
        k < y.len(),
        x[k] != y[k],
    ensures
        replaced(replaced(a + x + b + y + c, y, wy), x, wx) == a + wx + b + wy + c,
{
    let front = a + x + b;
    lemma_second_behind(a, x, b, y, c, k);
    lemma_replaced_first(front, y, c, wy);
    lemma_braceless(c, y, c);
    lemma_replaced_none(c, y, wy);
    let rest = b + wy + c;
    assert(front + wy + c =~= a + x + rest);
    assert(braceless(rest));
    lemma_braceless(a, x, rest);
    lemma_braceless(rest, x, rest);
    lemma_replaced_first(a, x, rest, wx);
    lemma_replaced_none(rest, x, wx);
    assert(a + wx + rest =~= a + wx + b + wy + c);
}

proof fn lemma_image_text(
    a: Seq<char>,
    b: Seq<char>,
    c: Seq<char>,
    mime: Seq<char>,
    content: Seq<char>,
    w: Seq<char>,
)
    requires
        braceless(a),
        braceless(b),
        braceless(c),
        braceless(content),
    ensures
        ({
            let item = Tree::Text(a + "{{IMAGE_MIME}}"@ + b + "{{IMAGE}}"@ + c);
            &&& for_image(item)
            &&& filled(item, "{{TEXT}}"@, w) == item
            &&& filled(filled(item, "{{IMAGE}}"@, content), "{{IMAGE_MIME}}"@, mime) == Tree::Text(
                a + mime + b + content + c,
            )
        }),
{
    lemma_markers();
    let front = a + "{{IMAGE_MIME}}"@ + b;
    let s = front + "{{IMAGE}}"@ + c;
    assert(for_image(Tree::Text(s))) by {
        lemma_stands(front, "{{IMAGE}}"@, c);
    }
    assert(replaced(s, "{{TEXT}}"@, w) == s) by {
        lemma_neither(a, "{{IMAGE_MIME}}"@, b, "{{IMAGE}}"@, c, "{{TEXT}}"@);
        lemma_replaced_none(s, "{{TEXT}}"@, w);
    }
    lemma_two_replaced(a, "{{IMAGE_MIME}}"@, b, "{{IMAGE}}"@, c, 7, mime, content);
}

/// Opening braces stand only at the beginning of the placeholders.
proof fn lemma_outside(a: Seq<char>, x: Seq<char>, b: Seq<char>, y: Seq<char>, c: Seq<char>, j: int)
    requires
        braceless(a),
        braceless(b),
        braceless(c),
        marker(x),
        marker(y),
        0 <= j < a.len() + x.len() + b.len() + y.len() + c.len(),
        j < a.len() || j >= a.len() + 2,
        j < a.len() + x.len() + b.len() || j >= a.len() + x.len() + b.len() + 2,
    ensures
        (a + x + b + y + c)[j] != '{',
{
    let s = a + x + b + y + c;
    let n = a.len() as int;
    let m = n + x.len() + b.len();
    if j < n {
        assert(s[j] == a[j]);
    } else if j < n + x.len() {
        assert(s[j] == x[j - n]);
    } else if j < m {
        assert(s[j] == b[j - n - x.len()]);
    } else if j < m + y.len() {
        assert(s[j] == y[j - m]);
    } else {
        assert(s[j] == c[j - m - y.len()]);
    }
}

proof fn lemma_image_payload(files: Seq<File>, k: int)
    requires
        0 <= k < image_payloads(files).len(),
        forall|i: int|
            0 <= i < files.len() ==> braceless((#[trigger] files[i]).mime) && braceless(
                files[i].base64,
            ),
    ensures
        image_payloads(files)[k].len() == 2,
        braceless(image_payloads(files)[k][0]),
        braceless(image_payloads(files)[k][1]),
    decreases files.len(),
{
    let init = files.drop_last();
    assert(files[files.len() - 1] == files.last());
    if k < image_payloads(init).len() {
        assert forall|i: int| 0 <= i < init.len() implies braceless((#[trigger] init[i]).mime)
            && braceless(init[i].base64) by {
            assert(init[i] == files[i]);
        }
        lemma_image_payload(init, k);
    }
}

/// The user's turn, in a template with a text around `{{TEXT}}` and a text around
/// the placeholders of an image: the message stands in the place of the first,
/// and for each image there is a copy of the second with the MIME type and the
/// content of the image in their places.
pub proof fn lemma_turn_with_images(
    p: Seq<char>,
    q: Seq<char>,
    a: Seq<char>,
    b: Seq<char>,
    c: Seq<char>,
    message: Seq<char>,
    files: Seq<File>,
)
    requires
        braceless(p) && braceless(q) && braceless(a) && braceless(b) && braceless(c),
        braceless(message),
        forall|i: int|
            0 <= i < files.len() ==> braceless((#[trigger] files[i]).mime) && braceless(
                files[i].base64,
            ),
    ensures
        user_turn(
            Tree::Array(
                seq![
                    Tree::Text(p + "{{TEXT}}"@ + q),
                    Tree::Text(a + "{{IMAGE_MIME}}"@ + b + "{{IMAGE}}"@ + c),
                ],
            ),
            message,
            files,
            true,
        ) == Tree::Array(
            seq![Tree::Text(p + message + q)] + Seq::new(
                image_payloads(files).len(),
                |k: int|
                    Tree::Text(
                        a + image_payloads(files)[k][1] + b + image_payloads(files)[k][0] + c,
                    ),
            ),
        ),
{
    let images = image_payloads(files);
    let documents = document_payloads(files);
    let first = Tree::Text(p + "{{TEXT}}"@ + q);
    let item = Tree::Text(a + "{{IMAGE_MIME}}"@ + b + "{{IMAGE}}"@ + c);
    let told = Tree::Text(p + message + q);
    let items = seq![first, item];
    let template = Tree::Array(items);
    assert(template->Array_0 == items);
    lemma_placeholder_names();
    lemma_text_filled(p, q, message);
    lemma_image_text(a, b, c, a, b, message);
    lemma_filled(first, p, items, Seq::empty(), "{{TEXT}}"@, message);
    let filled_in = filled(template, "{{TEXT}}"@, message);
    assert(filled_in->Array_0 =~= seq![told, item]);
    let none = Seq::<Tree>::empty();
    assert(seq![told] + seq![item] + none =~= seq![told, item]);
    assert(braceless(p + message + q));
    lemma_braceless_text(p + message + q);
    assert forall|k: int| 0 <= k < images.len() implies (#[trigger] images[k]).len() == 2 by {
        lemma_image_payload(files, k);
    }
    lemma_image_copies(seq![told], item, none, images);
    let copies = Seq::new(
        images.len(),
        |k: int| filled(filled(item, "{{IMAGE}}"@, images[k][0]), "{{IMAGE_MIME}}"@, images[k][1]),
    );
    let texts = Seq::new(
        images.len(),
        |k: int| Tree::Text(a + images[k][1] + b + images[k][0] + c),
    );
    assert forall|k: int| 0 <= k < images.len() implies #[trigger] copies[k] == texts[k] by {
        lemma_image_payload(files, k);
        lemma_image_text(a, b, c, images[k][1], images[k][0], message);
    }
    assert(copies =~= texts);
    let all = seq![told] + texts;
    assert(seq![told] + copies + none =~= all);
    assert forall|i: int| 0 <= i < all.len() implies (#[trigger] all[i]) is Text
        && !for_document(all[i]) by {
        if i > 0 {
            let k = i - 1;
            lemma_image_payload(files, k);
            let s = a + images[k][1] + b + images[k][0] + c;
            assert(all[i] == Tree::Text(s));
            assert(braceless(s));
            lemma_braceless_text(s);
        }
    }
    lemma_no_copies(all, documents, true);
    lemma_expanded_inwards(seq![told, item], Seq::empty(), images, documents);
    assert(all.map_values(|t: Tree| expanded(t, images, documents, true)) =~= all);
}

/// The same with a text around the placeholder of a document.
pub proof fn lemma_turn_with_documents(
    p: Seq<char>,
    q: Seq<char>,
    a: Seq<char>,
    c: Seq<char>,
    message: Seq<char>,
    files: Seq<File>,
)
    requires
        braceless(p) && braceless(q) && braceless(a) && braceless(c),
        braceless(message),
    ensures
        user_turn(
            Tree::Array(
                seq![Tree::Text(p + "{{TEXT}}"@ + q), Tree::Text(a + "{{DOCUMENT}}"@ + c)],
            ),
            message,
            files,
            true,
        ) == Tree::Array(
            seq![Tree::Text(p + message + q)] + Seq::new(
                document_payloads(files).len(),
                |k: int| Tree::Text(a + document_payloads(files)[k][0] + c),
            ),
        ),
{
    let images = image_payloads(files);
    let documents = document_payloads(files);
    let first = Tree::Text(p + "{{TEXT}}"@ + q);
    let s = a + "{{DOCUMENT}}"@ + c;
    let item = Tree::Text(s);
    let told = Tree::Text(p + message + q);
    let items = seq![first, item];
    let template = Tree::Array(items);
    assert(template->Array_0 == items);
    lemma_placeholder_names();
    lemma_text_filled(p, q, message);
    lemma_document_text(a, c, message, a);
    lemma_filled(first, p, items, Seq::empty(), "{{TEXT}}"@, message);
    let filled_in = filled(template, "{{TEXT}}"@, message);
    let now = seq![told, item];
    assert(filled_in->Array_0 =~= now);
    let none = Seq::<Tree>::empty();
    assert(seq![told] + seq![item] + none =~= now);
    assert(braceless(p + message + q));
    lemma_braceless_text(p + message + q);
    lemma_no_copies(now, images, true);
    assert forall|k: int| 0 <= k < documents.len() implies (#[trigger] documents[k]).len() == 1 by {
        lemma_document_payload(files, k);
    }
    lemma_document_copies(seq![told], item, none, documents);
    let copies = Seq::new(documents.len(), |k: int| filled(item, "{{DOCUMENT}}"@, documents[k][0]));
    let texts = Seq::new(documents.len(), |k: int| Tree::Text(a + documents[k][0] + c));
    assert forall|k: int| 0 <= k < documents.len() implies #[trigger] copies[k] == texts[k] by {
        lemma_document_text(a, c, message, documents[k][0]);
    }
    assert(copies =~= texts);
    let all = seq![told] + texts;
    assert(seq![told] + copies + none =~= all);
    lemma_expanded_inwards(now, Seq::empty(), images, documents);
    assert(all.map_values(|t: Tree| expanded(t, images, documents, true)) =~= all);
}

proof fn lemma_document_text(a: Seq<char>, c: Seq<char>, w: Seq<char>, content: Seq<char>)
    requires
        braceless(a),
        braceless(c),
    ensures
        ({
            let item = Tree::Text(a + "{{DOCUMENT}}"@ + c);
            &&& for_document(item)
            &&& !for_image(item)
            &&& filled(item, "{{TEXT}}"@, w) == item
            &&& filled(item, "{{DOCUMENT}}"@, content) == Tree::Text(a + content + c)
        }),
{
    lemma_markers();
    let lit = "{{DOCUMENT}}"@;
    let s = a + lit + c;
    lemma_stands(a, lit, c);
    lemma_lone(a, lit, c, "{{TEXT}}"@);
    lemma_lone(a, lit, c, "{{IMAGE}}"@);
    lemma_lone(a, lit, c, "{{IMAGE_MIME}}"@);
    lemma_replaced_none(s, "{{TEXT}}"@, w);
    lemma_braceless(a, lit, c);
    lemma_braceless(c, lit, c);
    lemma_replaced_first(a, lit, c, content);
    lemma_replaced_none(c, lit, content);
}

proof fn lemma_lone(a: Seq<char>, x: Seq<char>, c: Seq<char>, p: Seq<char>)
    requires
        braceless(a),
        braceless(c),
        marker(x),
        marker(p),
        p[2] != x[2],
    ensures
        lacks(a + x + c, p),
{
    let s = a + x + c;
    let n = a.len() as int;
    assert forall|j: int| 0 <= j <= s.len() - p.len() implies #[trigger] s.subrange(
        j,
        j + p.len(),
    ) != p by {
        if j < n {
            assert(s[j] == a[j]);
            lemma_differs(s, j, p, 0);
        } else if j == n {
            assert(s[j + 2] == x[2]);
            lemma_differs(s, j, p, 2);
        } else if j == n + 1 {
            assert(s[j + 1] == x[2]);
            lemma_differs(s, j, p, 1);
        } else if j < n + x.len() {
            assert(s[j] == x[j - n]);
            lemma_differs(s, j, p, 0);
        } else {
            assert(s[j] == c[j - n - x.len()]);
            lemma_differs(s, j, p, 0);
        }
    }
}

proof fn lemma_document_payload(files: Seq<File>, k: int)
    requires
        0 <= k < document_payloads(files).len(),
    ensures
        document_payloads(files)[k].len() == 1,
    decreases files.len(),
{
    let init = files.drop_last();
    if k < document_payloads(init).len() {
        lemma_document_payload(init, k);
    }
}

} // verus!
