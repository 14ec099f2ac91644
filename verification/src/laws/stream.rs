//! Laws of event streams.

use vstd::prelude::*;
use vstd::utf8::{decode_utf8, valid_utf8};

use crate::bytes::lossy_text;
use crate::json::{parsed_json, Tree};
use crate::laws::text::{blank, lemma_decimal, lemma_no_number, lemma_trimmed, trim_free};
use crate::stream::{
    body_lines, by_path, byte_lines, chat_delta, child, delta_paths, deltas, first_text, frame,
    joined, lemma_brackets, lemma_normalized_concat, line_value, normalized, resolved, usage,
    usage_in, DeltaSource,
};
use crate::text::{decimal, find, lemma_find_from, occurs_at, replaced, split, white};

verus! {

/// The hosted chat's piece of the answer is the text under the content of the
/// delta of the first choice, character for character, unless it is empty.
pub proof fn lemma_chat_piece(t: Tree, choices: Tree, choice: Tree, delta: Tree, s: Seq<char>)
    requires
        t.get("choices"@) == Some(choices),
        choices.at(0) == Some(choice),
        choice.get("delta"@) == Some(delta),
        delta.get("content"@) == Some(Tree::Text(s)),
    ensures
        chat_delta(t) == Some(s),
        s.len() > 0 ==> DeltaSource::Chat.delta(t) == Some(s),
        s.len() == 0 ==> DeltaSource::Chat.delta(t) is None,
{
}

/// The hosted chat has no piece of the answer anywhere else.
pub proof fn lemma_chat_piece_only(t: Tree)
    ensures
        DeltaSource::Chat.delta(t) matches Some(s) ==> s.len() > 0 && chat_delta(t) == Some(s),
        chat_delta(t) matches Some(s) ==> {
            &&& t.get("choices"@) matches Some(choices) && choices.at(0) matches Some(choice)
                && choice.get("delta"@) matches Some(delta) && delta.get("content"@) == Some(
                Tree::Text(s),
            )
        },
{
}

/// Where a custom provider's piece of the answer is looked for, in order.
pub open spec fn looked_for(path: Seq<char>) -> Seq<Seq<char>> {
    seq![
        replaced(path, ".message."@, ".delta."@),
        "choices[0].delta.content"@,
        "candidates[0].content.parts[0].text"@,
        "delta.text"@,
        "text"@,
        path,
    ]
}

/// There is a text, not empty, at the path.
pub open spec fn has_piece(t: Tree, path: Seq<char>) -> bool {
    by_path(t, path) matches Some(s) && s.len() > 0
}

/// A custom provider's piece of the answer is the text at the first of the
/// places that has one, character for character.
pub proof fn lemma_path_piece(t: Tree, path: String, i: int)
    requires
        0 <= i < 6,
        has_piece(t, looked_for(path@)[i]),
        forall|j: int| 0 <= j < i ==> !has_piece(t, #[trigger] looked_for(path@)[j]),
    ensures
        DeltaSource::Path(path).delta(t) == by_path(t, looked_for(path@)[i]),
        first_text(t, delta_paths(path@)) == by_path(t, looked_for(path@)[i]),
{
    let paths = looked_for(path@);
    assert(paths =~= delta_paths(path@));
    lemma_first_text(t, paths, i);
}

proof fn lemma_first_text(t: Tree, paths: Seq<Seq<char>>, i: int)
    requires
        0 <= i < paths.len(),
        has_piece(t, paths[i]),
        forall|j: int| 0 <= j < i ==> !has_piece(t, #[trigger] paths[j]),
    ensures
        first_text(t, paths) == by_path(t, paths[i]),
    decreases paths.len(),
{
    if i > 0 {
        let rest = paths.skip(1);
        assert(!has_piece(t, paths[0]));
        assert(rest[i - 1] == paths[i]);
        assert forall|j: int| 0 <= j < i - 1 implies !has_piece(t, #[trigger] rest[j]) by {
            assert(rest[j] == paths[j + 1]);
        }
        lemma_first_text(t, rest, i - 1);
    }
}

/// A custom provider has no piece of the answer in a frame where none of the
/// places has one.
pub proof fn lemma_no_path_piece(t: Tree, path: String)
    requires
        forall|j: int| 0 <= j < 6 ==> !has_piece(t, #[trigger] looked_for(path@)[j]),
    ensures
        DeltaSource::Path(path).delta(t) is None,
        first_text(t, delta_paths(path@)) is None,
{
    let paths = looked_for(path@);
    assert(paths =~= delta_paths(path@));
    lemma_no_first_text(t, paths);
}

proof fn lemma_no_first_text(t: Tree, paths: Seq<Seq<char>>)
    requires
        forall|j: int| 0 <= j < paths.len() ==> !has_piece(t, #[trigger] paths[j]),
    ensures
        first_text(t, paths) is None,
    decreases paths.len(),
{
    if paths.len() > 0 {
        let rest = paths.skip(1);
        assert(!has_piece(t, paths[0]));
        assert forall|j: int| 0 <= j < rest.len() implies !has_piece(t, #[trigger] rest[j]) by {
            assert(rest[j] == paths[j + 1]);
        }
        lemma_no_first_text(t, rest);
    }
}

/// A key of a path: not empty, and without the characters that paths are made
/// of.
pub open spec fn plain_key(key: Seq<char>) -> bool {
    &&& key.len() > 0
    &&& forall|i: int|
        0 <= i < key.len() ==> #[trigger] key[i] != '.' && key[i] != '[' && key[i] != ']'
            && key[i] != '\0'
}

/// The keys lead where the first leads and then the others.
pub open spec fn led(next: Option<Tree>, rest: Seq<char>) -> Option<Seq<char>> {
    match next {
        Some(n) => by_path(n, rest),
        None => None,
    }
}

/// A path of no keys leads to the value itself. A key that is no number leads to
/// the value under it, and a path goes on from there.
pub proof fn lemma_path_by_name(t: Tree, key: Seq<char>, rest: Seq<char>, i: int)
    requires
        plain_key(key),
        0 <= i < key.len(),
        !('0' <= key[i] <= '9'),
        i == 0 ==> key[0] != '+',
    ensures
        by_path(t, Seq::empty()) == t.as_text(),
        by_path(t, key + seq!['.'] + rest) == led(t.get(key), rest),
        by_path(t, key) == led(t.get(key), Seq::empty()),
        by_path(t, seq!['.'] + rest) == by_path(t, rest),
{
    lemma_no_number(key, i);
    lemma_path_step(t, key, rest);
    lemma_path_end(t, key);
}

/// A key that writes a number, with or without a plus sign, leads to the item at
/// that place, and a path goes on from there.
pub proof fn lemma_path_by_place(t: Tree, n: nat, rest: Seq<char>)
    requires
        n <= usize::MAX,
    ensures
        by_path(t, decimal(n) + seq!['.'] + rest) == led(t.at(n as int), rest),
        by_path(t, decimal(n)) == led(t.at(n as int), Seq::empty()),
        by_path(t, seq!['+'] + decimal(n) + seq!['.'] + rest) == led(t.at(n as int), rest),
{
    let key = decimal(n);
    lemma_decimal(n);
    let signed = seq!['+'] + key;
    assert forall|i: int| 0 <= i < signed.len() implies #[trigger] signed[i] != '.' && signed[i]
        != '[' && signed[i] != ']' && signed[i] != '\0' by {
        if i > 0 {
            assert(signed[i] == key[i - 1]);
        }
    }
    lemma_path_step(t, signed, rest);
    assert forall|i: int| 0 <= i < key.len() implies #[trigger] key[i] != '.' && key[i] != '['
        && key[i] != ']' && key[i] != '\0' by {}
    lemma_path_step(t, key, rest);
    lemma_path_end(t, key);
}

/// Digits of a number that is no place lead to the value under them.
pub proof fn lemma_path_by_large_number(t: Tree, n: nat, rest: Seq<char>)
    requires
        n > usize::MAX,
    ensures
        by_path(t, decimal(n) + seq!['.'] + rest) == led(t.get(decimal(n)), rest),
{
    let key = decimal(n);
    lemma_decimal(n);
    assert forall|i: int| 0 <= i < key.len() implies #[trigger] key[i] != '.' && key[i] != '['
        && key[i] != ']' && key[i] != '\0' by {}
    lemma_path_step(t, key, rest);
}

/// A closing bracket and a NUL count for nothing, and an opening bracket is a dot.
pub proof fn lemma_path_brackets(t: Tree, a: Seq<char>, b: Seq<char>)
    ensures
        by_path(t, a + seq![']'] + b) == by_path(t, a + b),
        by_path(t, a + seq!['\0'] + b) == by_path(t, a + b),
        by_path(t, a + seq!['['] + b) == by_path(t, a + seq!['.'] + b),
{
    let none = Seq::<char>::empty();
    reveal_with_fuel(normalized, 2);
    assert(seq![']'].drop_last() =~= none);
    assert(seq!['\0'].drop_last() =~= none);
    assert(seq!['['].drop_last() =~= none);
    assert(seq!['.'].drop_last() =~= none);
    assert(normalized(seq!['[']) =~= seq!['.']);
    assert(normalized(seq!['.']) =~= seq!['.']);
    lemma_normalized_concat(a, b);
    lemma_normalized_concat(a, seq![']']);
    lemma_normalized_concat(a + seq![']'], b);
    lemma_normalized_concat(a, seq!['\0']);
    lemma_normalized_concat(a + seq!['\0'], b);
    lemma_normalized_concat(a, seq!['[']);
    lemma_normalized_concat(a + seq!['['], b);
    lemma_normalized_concat(a, seq!['.']);
    lemma_normalized_concat(a + seq!['.'], b);
    assert(normalized(a) + none =~= normalized(a));
}

proof fn lemma_normalized_plain(key: Seq<char>)
    requires
        forall|i: int|
            0 <= i < key.len() ==> #[trigger] key[i] != '[' && key[i] != ']' && key[i] != '\0',
    ensures
        normalized(key) == key,
    decreases key.len(),
{
    if key.len() > 0 {
        let init = key.drop_last();
        assert forall|i: int| 0 <= i < init.len() implies #[trigger] init[i] != '[' && init[i]
            != ']' && init[i] != '\0' by {
            assert(init[i] == key[i]);
        }
        lemma_normalized_plain(init);
        assert(key[key.len() - 1] == key.last());
        assert(key =~= init.push(key.last()));
    }
}

proof fn lemma_split_plain(key: Seq<char>, rest: Seq<char>)
    requires
        forall|i: int| 0 <= i < key.len() ==> #[trigger] key[i] != '.',
    ensures
        split(key, '.') == seq![key],
        split(key + seq!['.'] + rest, '.') == seq![key] + split(rest, '.'),
{
    let sep = seq!['.'];
    lemma_find_from(key, sep, 0);
    if let Some(k) = find(key, sep) {
        assert(key.subrange(k, k + 1)[0] == key[k]);
    }
    let s = key + sep + rest;
    let n = key.len() as int;
    lemma_find_from(s, sep, 0);
    assert(s.subrange(n, n + 1) =~= sep);
    assert(occurs_at(s, sep, n));
    let k = find(s, sep)->0;
    if k < n {
        assert(s.subrange(k, k + 1)[0] == key[k]);
    }
    assert(s.take(n) =~= key);
    assert(s.skip(n + 1) =~= rest);
}

proof fn lemma_path_step(t: Tree, key: Seq<char>, rest: Seq<char>)
    requires
        plain_key(key),
    ensures
        by_path(t, key + seq!['.'] + rest) == led(child(t, key), rest),
        by_path(t, seq!['.'] + rest) == by_path(t, rest),
{
    let dot = seq!['.'];
    let none = Seq::<char>::empty();
    lemma_normalized_plain(key);
    lemma_normalized_plain(dot);
    lemma_normalized_concat(key, dot);
    lemma_normalized_concat(key + dot, rest);
    lemma_normalized_concat(dot, rest);
    lemma_split_plain(key, normalized(rest));
    let keys = seq![key] + split(normalized(rest), '.');
    assert(keys.skip(1) =~= split(normalized(rest), '.'));
    lemma_split_plain(none, normalized(rest));
    assert(none + dot + normalized(rest) =~= dot + normalized(rest));
    let dotted = seq![none] + split(normalized(rest), '.');
    assert(dotted.skip(1) =~= split(normalized(rest), '.'));
}

proof fn lemma_path_end(t: Tree, key: Seq<char>)
    requires
        plain_key(key),
    ensures
        by_path(t, Seq::empty()) == t.as_text(),
        by_path(t, key) == led(child(t, key), Seq::empty()),
{
    let none = Seq::<char>::empty();
    reveal_with_fuel(resolved, 2);
    lemma_normalized_plain(key);
    lemma_normalized_plain(none);
    lemma_split_plain(key, none);
    lemma_split_plain(none, none);
    assert(seq![key].skip(1) =~= Seq::empty());
    assert(seq![none].skip(1) =~= Seq::empty());
    if let Some(next) = child(t, key) {
        assert(by_path(next, none) == next.as_text());
    }
}

/// The path `choices[0].delta.content` leads to the content of the delta of the
/// first choice.
pub proof fn lemma_choices_path(t: Tree, choices: Tree, choice: Tree, delta: Tree, content: Tree)
    requires
        t.get("choices"@) == Some(choices),
        choices.at(0) == Some(choice),
        choice.get("delta"@) == Some(delta),
        delta.get("content"@) == Some(content),
    ensures
        by_path(t, "choices[0].delta.content"@) == content.as_text(),
{
    reveal_strlit("choices[0].delta.content");
    reveal_strlit("choices");
    reveal_strlit("delta");
    reveal_strlit("content");
    let dot = seq!['.'];
    let zero = seq!['0'];
    let tail = "delta"@ + dot + "content"@;
    assert("choices[0].delta.content"@ =~= "choices"@ + seq!['['] + zero + seq![']'] + (dot
        + tail));
    lemma_brackets(t, "choices"@, zero, dot + tail);
    assert("choices"@ + dot + zero + (dot + tail) =~= "choices"@ + dot + (zero + dot + tail));
    assert(decimal(0) =~= zero);
    lemma_path_by_name(t, "choices"@, zero + dot + tail, 0);
    lemma_path_by_place(choices, 0, tail);
    lemma_path_by_name(choice, "delta"@, "content"@, 0);
    lemma_path_by_name(delta, "content"@, Seq::empty(), 0);
    lemma_path_by_name(content, "content"@, Seq::empty(), 0);
}

/// The path `candidates[0].content.parts[0].text` leads to the text of the first
/// part of the content of the first candidate.
pub proof fn lemma_candidates_path(
    t: Tree,
    candidates: Tree,
    candidate: Tree,
    content: Tree,
    parts: Tree,
    part: Tree,
    text: Tree,
)
    requires
        t.get("candidates"@) == Some(candidates),
        candidates.at(0) == Some(candidate),
        candidate.get("content"@) == Some(content),
        content.get("parts"@) == Some(parts),
        parts.at(0) == Some(part),
        part.get("text"@) == Some(text),
    ensures
        by_path(t, "candidates[0].content.parts[0].text"@) == text.as_text(),
{
    reveal_strlit("candidates[0].content.parts[0].text");
    reveal_strlit("candidates");
    reveal_strlit("content");
    reveal_strlit("parts");
    reveal_strlit("text");
    let dot = seq!['.'];
    let zero = seq!['0'];
    let last = zero + dot + "text"@;
    let inner = "parts"@ + dot + last;
    let tail = "content"@ + dot + inner;
    let bracketed = "content"@ + dot + "parts"@ + seq!['['] + zero + seq![']'] + (dot + "text"@);
    assert("candidates[0].content.parts[0].text"@ =~= "candidates"@ + seq!['['] + zero + seq![
        ']',
    ] + (dot + bracketed));
    lemma_brackets(t, "candidates"@, zero, dot + bracketed);
    let front = "candidates"@ + dot + zero + dot + "content"@ + dot + "parts"@;
    assert("candidates"@ + dot + zero + (dot + bracketed) =~= front + seq!['['] + zero + seq![
        ']',
    ] + (dot + "text"@));
    lemma_brackets(t, front, zero, dot + "text"@);
    assert(front + dot + zero + (dot + "text"@) =~= "candidates"@ + dot + (zero + dot + tail));
    assert(decimal(0) =~= zero);
    lemma_path_by_name(t, "candidates"@, zero + dot + tail, 0);
    lemma_path_by_place(candidates, 0, tail);
    lemma_path_by_name(candidate, "content"@, inner, 0);
    lemma_path_by_name(content, "parts"@, last, 0);
    lemma_path_by_place(parts, 0, "text"@);
    lemma_path_by_name(part, "text"@, Seq::empty(), 0);
    lemma_path_by_name(text, "text"@, Seq::empty(), 0);
}

/// The paths `delta.text` and `text` lead to the texts there.
pub proof fn lemma_text_paths(t: Tree, delta: Tree, inner: Tree, outer: Tree)
    ensures
        t.get("delta"@) == Some(delta) && delta.get("text"@) == Some(inner) ==> by_path(
            t,
            "delta.text"@,
        ) == inner.as_text(),
        t.get("text"@) == Some(outer) ==> by_path(t, "text"@) == outer.as_text(),
        t.get("text"@) is None ==> by_path(t, "text"@) is None,
        t.get("delta"@) is None ==> by_path(t, "delta.text"@) is None,
{
    reveal_strlit("delta.text");
    reveal_strlit("delta");
    reveal_strlit("text");
    assert("delta.text"@ =~= "delta"@ + seq!['.'] + "text"@);
    lemma_path_by_name(t, "delta"@, "text"@, 0);
    lemma_path_by_name(delta, "text"@, Seq::empty(), 0);
    lemma_path_by_name(inner, "text"@, Seq::empty(), 0);
    lemma_path_by_name(outer, "text"@, Seq::empty(), 0);
    lemma_path_by_name(t, "text"@, Seq::empty(), 0);
}

/// What stands behind `data:`, white space aside, is the content of the frame,
/// as it stands there; white space around the line does not count.
pub proof fn lemma_frame_content(
    before: Seq<char>,
    gap: Seq<char>,
    payload: Seq<char>,
    after: Seq<char>,
)
    requires
        blank(before),
        blank(gap),
        blank(after),
        trim_free(payload),
    ensures
        frame(before + ("data:"@ + gap + payload) + after) == (if payload.len() == 0 || payload
            == "[DONE]"@ {
            None
        } else {
            Some(payload)
        }),
{
    reveal_strlit("data:");
    let d = "data:"@;
    let none = Seq::<char>::empty();
    assert(!white('d') && !white(':'));
    if payload.len() > 0 {
        let line = d + gap + payload;
        assert(line[0] == 'd');
        assert(line.last() == payload.last());
        lemma_trimmed(before, line, after);
        assert(line.subrange(0, 5) =~= d);
        assert(line.skip(5) =~= gap + payload + none);
        lemma_trimmed(gap, payload, none);
    } else {
        let tail = gap + after;
        assert forall|i: int| 0 <= i < tail.len() implies white(#[trigger] tail[i]) by {
            if i < gap.len() {
                assert(tail[i] == gap[i]);
            } else {
                assert(tail[i] == after[i - gap.len()]);
            }
        }
        assert(before + (d + gap + payload) + after =~= before + d + tail);
        assert(d[0] == 'd' && d.last() == ':');
        lemma_trimmed(before, d, tail);
        assert(d.subrange(0, 5) =~= d);
        assert(d.skip(5) =~= none + none + none);
        lemma_trimmed(none, none, none);
    }
}

/// A line that does not begin with `data:`, white space aside, is no frame.
pub proof fn lemma_other_line(before: Seq<char>, x: Seq<char>, after: Seq<char>)
    requires
        blank(before),
        blank(after),
        trim_free(x),
        x.len() < 5 || x.take(5) != "data:"@,
    ensures
        frame(before + x + after) is None,
{
    reveal_strlit("data:");
    lemma_trimmed(before, x, after);
    if x.len() >= 5 {
        assert(x.subrange(0, 5) =~= x.take(5));
    }
}

/// A line that holds JSON in its frame holds just what that JSON reads as.
pub proof fn lemma_line_value(line: Seq<char>, payload: Seq<char>, t: Tree)
    requires
        frame(line) == Some(payload),
    ensures
        parsed_json(payload) == Ok::<Tree, Seq<char>>(t) ==> line_value(line) == Some(t),
        parsed_json(payload) is Err ==> line_value(line) is None,
{
}

/// The pieces of the answer in lines come line by line, each where its line
/// stands; the answer is the pieces put together with nothing between them.
pub proof fn lemma_pieces_add_up(
    a: Seq<Seq<char>>,
    b: Seq<Seq<char>>,
    line: Seq<char>,
    source: DeltaSource,
    x: Seq<Seq<char>>,
    y: Seq<Seq<char>>,
    s: Seq<char>,
)
    ensures
        deltas(a + b, source) == deltas(a, source) + deltas(b, source),
        deltas(seq![line], source) == (match line_value(line) {
            Some(t) => match source.delta(t) {
                Some(piece) => seq![piece],
                None => Seq::empty(),
            },
            None => Seq::empty(),
        }),
        joined(x + y) == joined(x) + joined(y),
        joined(seq![s]) == s,
    decreases b.len() + y.len(),
{
    reveal_with_fuel(deltas, 2);
    reveal_with_fuel(joined, 2);
    let none = Seq::<Seq<char>>::empty();
    assert(seq![line].drop_last() =~= none);
    assert(deltas(seq![line], source) =~= (match line_value(line) {
        Some(t) => match source.delta(t) {
            Some(piece) => seq![piece],
            None => Seq::empty(),
        },
        None => Seq::empty(),
    }));
    assert(seq![s].drop_last() =~= none);
    assert(joined(seq![s]) =~= s);
    if b.len() > 0 {
        lemma_pieces_add_up(a, b.drop_last(), line, source, x, y, s);
        assert((a + b).drop_last() =~= a + b.drop_last());
        assert(deltas(a + b, source) =~= deltas(a, source) + deltas(b, source));
    } else {
        assert(a + b =~= a);
        assert(deltas(a, source) + deltas(b, source) =~= deltas(a, source));
        if y.len() > 0 {
            lemma_pieces_add_up(a, b, line, source, x, y.drop_last(), s);
        }
    }
    if y.len() > 0 {
        if b.len() == 0 {
            assert((x + y).drop_last() =~= x + y.drop_last());
            assert(joined(x + y) =~= joined(x) + joined(y));
        }
    } else {
        assert(x + y =~= x);
        assert(joined(x) + joined(y) =~= joined(x));
    }
}

/// What is said about usage is what the first line to say something says, and a
/// `null` says nothing.
pub proof fn lemma_usage(a: Seq<Seq<char>>, b: Seq<Seq<char>>, line: Seq<char>, t: Tree)
    ensures
        line_value(line) == Some(t) ==> usage(seq![line]) == usage_in(t),
        line_value(line) is None ==> usage(seq![line]) is None,
        usage(a + b) == (match usage(a) {
            Some(u) => Some(u),
            None => usage(b),
        }),
        usage_in(t) == (if t.get("usage"@) == Some(Tree::Null) {
            None
        } else {
            t.get("usage"@)
        }),
    decreases b.len(),
{
    reveal_with_fuel(usage, 2);
    assert(seq![line].drop_last() =~= Seq::empty());
    if b.len() > 0 {
        lemma_usage(a, b.drop_last(), line, t);
        assert((a + b).drop_last() =~= a + b.drop_last());
    } else {
        assert(a + b =~= a);
    }
}

/// The lines of a body are what stands between its line breaks: a body without
/// one is one line, and the lines of two bodies with a line break between them are
/// the lines of the one and then those of the other.
pub proof fn lemma_byte_lines(a: Seq<u8>, b: Seq<u8>)
    ensures
        !a.contains(10u8) ==> byte_lines(a) == seq![a],
        byte_lines(a + seq![10u8] + b) == byte_lines(a) + byte_lines(b),
        byte_lines(b).len() > 0,
    decreases a.len() + b.len(),
{
    let none = Seq::<u8>::empty();
    if !a.contains(10u8) {
        lemma_one_line(a);
    }
    if b.len() == 0 {
        assert(a + seq![10u8] + b =~= a.push(10u8));
        assert(a.push(10u8).drop_last() =~= a);
        assert(b =~= none);
        assert(byte_lines(a + seq![10u8] + b) =~= byte_lines(a) + byte_lines(b));
    } else {
        let init = b.drop_last();
        lemma_byte_lines(a, init);
        assert((a + seq![10u8] + b).drop_last() =~= a + seq![10u8] + init);
        assert((a + seq![10u8] + b).last() == b.last());
        assert(byte_lines(a + seq![10u8] + b) =~= byte_lines(a) + byte_lines(b));
    }
}

proof fn lemma_one_line(a: Seq<u8>)
    requires
        !a.contains(10u8),
    ensures
        byte_lines(a) == seq![a],
    decreases a.len(),
{
    if a.len() > 0 {
        let init = a.drop_last();
        assert(a[a.len() - 1] == a.last());
        if init.contains(10u8) {
            let k = init.index_of(10u8);
            assert(a[k] == 10u8);
        }
        lemma_one_line(init);
        assert(init.push(a.last()) =~= a);
        assert(byte_lines(a) =~= seq![a]);
    } else {
        assert(a =~= Seq::empty());
    }
}

/// The text of each line is what its bytes encode, or what the lenient reader
/// makes of them.
pub proof fn lemma_line_texts(body: Seq<u8>, i: int)
    requires
        0 <= i < byte_lines(body).len(),
    ensures
        body_lines(body).len() == byte_lines(body).len(),
        body_lines(body)[i] == (if valid_utf8(byte_lines(body)[i]) {
            decode_utf8(byte_lines(body)[i])
        } else {
            lossy_text(byte_lines(body)[i])
        }),
{
}

} // verus!
