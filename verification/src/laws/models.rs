//! Laws of the models: what a value stands for is what it holds.

use vstd::prelude::*;

use crate::bytes::decoded_view;
use crate::call::{pairs, HttpCall};
use crate::commands::chat_result;
use crate::curl::{body_view, CurlArgs, ParsedCurl};
use crate::json::{
    entry_trees, lemma_precedes_irreflexive, optional_tree, precedes, trees, Json, Tree,
};
use crate::json_text::{escaped, integer_text, json_text, keys_lack, quoted, read_depth, reads_back};
use crate::keychain::{places, KeychainEntry};
use crate::laws::text::{lacks, lemma_decimal, lemma_not_mentioned};
use crate::llm::{LlmError, StreamEvent};
use crate::messages::{part, payload_texts, round_trip, template_intact, with_text};
use crate::pluely::{stored_model, stored_provider, Model};
use crate::provider::RequestPlan;
use crate::stream::event_views;
use crate::string_map::texts;
use crate::text::{decimal, optional, views, white};

verus! {

/// The models of texts, values and events in a sequence are theirs, one by one.
pub proof fn lemma_sequences(
    strings: Seq<String>,
    items: Seq<Json>,
    entries: Seq<(String, Json)>,
    events: Seq<StreamEvent>,
    payloads: Seq<Vec<String>>,
    i: int,
)
    ensures
        views(strings).len() == strings.len(),
        0 <= i < strings.len() ==> views(strings)[i] == strings[i]@,
        trees(items).len() == items.len(),
        0 <= i < items.len() ==> trees(items)[i] == items[i]@,
        entry_trees(entries).len() == entries.len(),
        0 <= i < entries.len() ==> entry_trees(entries)[i] == (entries[i].0@, entries[i].1@),
        event_views(events).len() == events.len(),
        0 <= i < events.len() ==> event_views(events)[i] == events[i]@,
        payload_texts(payloads).len() == payloads.len(),
        0 <= i < payloads.len() ==> payload_texts(payloads)[i] == views(payloads[i]@),
{
}

/// The models of what may be there and of what may fail.
pub proof fn lemma_options(s: String, v: Json, bytes: Vec<u8>, e: LlmError, m: Model)
    ensures
        optional(Some(s)) == Some(s@),
        optional(None) is None,
        optional_tree(Some(v)) == Some(v@),
        optional_tree(None) is None,
        decoded_view(Ok(bytes)) == Ok::<Seq<u8>, Seq<char>>(bytes@),
        decoded_view(Err(s)) == Err::<Seq<u8>, Seq<char>>(s@),
        body_view(Some(Ok(v))) == Some(Ok::<Tree, Seq<char>>(v@)),
        body_view(Some(Err(s))) == Some(Err::<Tree, Seq<char>>(s@)),
        body_view(None) is None,
        chat_result(Ok(s)) == Ok::<Seq<char>, crate::llm::Failure>(s@),
        chat_result(Err(e)) == Err::<Seq<char>, crate::llm::Failure>(e@),
        stored_model(Some(m)) == Some(m.model@),
        stored_provider(Some(m)) == Some(m.provider@),
        stored_model(None) is None,
        stored_provider(None) is None,
{
}

/// The model of a request, in each of its forms, is its parts.
pub proof fn lemma_requests(
    call: HttpCall,
    plan: RequestPlan,
    args: CurlArgs,
    curl: ParsedCurl,
)
    ensures
        call@.method == call.method,
        call@.url == call.url@,
        call@.headers == pairs(call.headers@),
        call@.body == optional_tree(call.body),
        plan@.method == plan.method,
        plan@.url == plan.url@,
        plan@.headers == texts(plan.headers@),
        plan@.body == optional_tree(plan.body),
        args@.url == optional(args.url),
        args@.method == optional(args.method),
        args@.headers == texts(args.headers@),
        args@.body == optional(args.body),
        curl@.url == curl.url@,
        curl@.method == curl.method@,
        curl@.headers == texts(curl.headers@),
        curl@.body == optional_tree(curl.body),
{
}

/// The model of entries of the keychain is where they stand and what they hold.
pub proof fn lemma_keychain(entries: Seq<KeychainEntry>, i: int)
    requires
        0 <= i < entries.len(),
    ensures
        places(entries).len() == entries.len(),
        places(entries)[i] == (entries[i].service@, entries[i].account@, entries[i].value@),
{
}

/// Keys are ordered by their first characters that differ, and a key precedes
/// whatever goes on behind it.
pub proof fn lemma_precedes(p: Seq<char>, x: char, y: char, r: Seq<char>, s: Seq<char>)
    ensures
        x != y ==> (precedes(p + seq![x] + r, p + seq![y] + s) <==> x < y),
        precedes(p, p + seq![x] + r),
        !precedes(p + seq![x] + r, p),
        !precedes(p, p),
    decreases p.len(),
{
    let a = p + seq![x] + r;
    let b = p + seq![y] + s;
    lemma_precedes_irreflexive(p);
    if p.len() > 0 {
        lemma_precedes(p.skip(1), x, y, r, s);
        assert(a.skip(1) =~= p.skip(1) + seq![x] + r);
        assert(b.skip(1) =~= p.skip(1) + seq![y] + s);
    }
}

/// Of the characters below 128, white space is the space and those from the tab
/// to the carriage return; the wide and the no-break spaces are white space too.
pub proof fn lemma_white(c: char)
    ensures
        (c as u32) < 128 ==> (white(c) <==> c == ' ' || 9 <= (c as u32) <= 13),
        white('\u{a0}') && white('\u{2003}') && white('\u{2028}') && white('\u{3000}'),
        !white('\u{200b}') && !white('\u{feff}'),
{
}

/// The text of an integer is its digits, behind a minus sign if it is negative.
pub proof fn lemma_integer_text(n: nat)
    ensures
        integer_text(n as int) == decimal(n),
        n > 0 ==> integer_text(-(n as int)) == seq!['-'] + decimal(n),
        crate::text::number_of(integer_text(n as int)) == Some(n),
{
    lemma_decimal(n);
}

/// A text is written between quotes, with what stands between them escaped
/// character by character; ordinary characters stand for themselves.
pub proof fn lemma_quoted(a: Seq<char>, b: Seq<char>, c: char)
    ensures
        json_text(Tree::Text(a)) == seq!['"'] + escaped(a) + seq!['"'],
        quoted(a) == seq!['"'] + escaped(a) + seq!['"'],
        escaped(a + b) == escaped(a) + escaped(b),
        (c as u32) >= 32 && c != '"' && c != '\\' ==> escaped(seq![c]) == seq![c],
        escaped(seq!['"']) == seq!['\\', '"'],
        escaped(seq!['\\']) == seq!['\\', '\\'],
        escaped(seq!['\n']) == seq!['\\', 'n'],
        escaped(seq!['\r']) == seq!['\\', 'r'],
        escaped(seq!['\t']) == seq!['\\', 't'],
{
    reveal_with_fuel(escaped, 2);
    crate::json_text::lemma_escaped_concat(a, b);
    assert(seq![c].skip(1) =~= Seq::empty());
    assert(seq!['"'].skip(1) =~= Seq::empty());
    assert(seq!['\\'].skip(1) =~= Seq::empty());
    assert(seq!['\n'].skip(1) =~= Seq::empty());
    assert(seq!['\r'].skip(1) =~= Seq::empty());
    assert(seq!['\t'].skip(1) =~= Seq::empty());
    assert(escaped(seq!['"']) =~= seq!['\\', '"']);
    assert(escaped(seq!['\\']) =~= seq!['\\', '\\']);
    assert(escaped(seq!['\n']) =~= seq!['\\', 'n']);
    assert(escaped(seq!['\r']) =~= seq!['\\', 'r']);
    assert(escaped(seq!['\t']) =~= seq!['\\', 't']);
    if (c as u32) >= 32 && c != '"' && c != '\\' {
        assert(escaped(seq![c]) =~= seq![c]);
    }
}

/// The text stands in none of the keys of the tree.
pub open spec fn keys_free(t: Tree, p: Seq<char>) -> bool
    decreases t,
{
    match t {
        Tree::Array(items) => forall|i: int|
            0 <= i < items.len() ==> keys_free(#[trigger] items[i], p),
        Tree::Object(entries) => forall|i: int|
            0 <= i < entries.len() ==> lacks((#[trigger] entries[i]).0, p) && keys_free(
                entries[i].1,
                p,
            ),
        _ => true,
    }
}

proof fn lemma_keys_lack(t: Tree, p: Seq<char>)
    ensures
        keys_lack(t, p) <==> keys_free(t, p),
    decreases t,
{
    match t {
        Tree::Array(items) => {
            assert(t->Array_0 == items);
            assert forall|i: int| 0 <= i < items.len() implies keys_lack(#[trigger] items[i], p)
                == keys_free(items[i], p) by {
                lemma_keys_lack(items[i], p);
            }
        },
        Tree::Object(entries) => {
            assert(t->Object_0 == entries);
            assert forall|i: int| 0 <= i < entries.len() implies (!crate::text::mentions(
                (#[trigger] entries[i]).0,
                p,
            ) && keys_lack(entries[i].1, p)) == (lacks(entries[i].0, p) && keys_free(
                entries[i].1,
                p,
            )) by {
                lemma_not_mentioned(entries[i].0, p);
                lemma_keys_lack(entries[i].1, p);
            }
        },
        _ => {},
    }
}

/// Nothing is lost of a template that reads back and has none of the placeholders
/// in a key.
pub proof fn lemma_template_intact(t: Tree)
    ensures
        template_intact(t) <==> reads_back(t) && keys_free(t, "{{IMAGE}}"@) && keys_free(
            t,
            "{{IMAGE_MIME}}"@,
        ) && keys_free(t, "{{DOCUMENT}}"@) && keys_free(t, "{{TEXT}}"@),
        read_depth() == 127,
{
    crate::laws::messages::lemma_placeholder_names();
    lemma_keys_lack(t, "{{IMAGE}}"@);
    lemma_keys_lack(t, "{{IMAGE_MIME}}"@);
    lemma_keys_lack(t, "{{DOCUMENT}}"@);
    lemma_keys_lack(t, "{{TEXT}}"@);
}

/// A tree that is written and read again is whatever its text reads as. Where it
/// cannot be read, a copy for an attachment is `null`, and the user's turn is its
/// template.
pub proof fn lemma_round_trip(
    t: Tree,
    message: Seq<char>,
    names: Seq<Seq<char>>,
    values: Seq<Seq<char>>,
)
    ensures
        round_trip(t, true) == Some(t),
        round_trip(t, false) == (match crate::json::parsed_json(json_text(t)) {
            Ok(read) => Some(read),
            Err(_) => None,
        }),
        part(t, names, values, false) == (match crate::json::parsed_json(
            json_text(crate::messages::filled_all(t, names, values)),
        ) {
            Ok(read) => read,
            Err(_) => Tree::Null,
        }),
        with_text(t, message, false) == (match crate::json::parsed_json(
            json_text(crate::json_text::filled(t, "{{TEXT}}"@, message)),
        ) {
            Ok(read) => read,
            Err(_) => t,
        }),
{
    crate::laws::messages::lemma_placeholder_names();
}

} // verus!
