//! Laws of command lines.

use vstd::prelude::*;

use crate::curl::{
    args_from, args_of, body_read, curl_of, no_args, request_of, words, words_from, Args, Curl,
    Quote,
};
use crate::json::{parsed_json, Tree};
use crate::laws::text::{blank, lacks, lemma_find_first, lemma_not_mentioned};
use crate::llm::Failure;
use crate::text::{trimmed, white};

verus! {

/// White space alone makes no words.
pub proof fn lemma_no_words(s: Seq<char>)
    requires
        blank(s),
    ensures
        words(s) == Some(Seq::<Seq<char>>::empty()),
    decreases s.len(),
{
    if s.len() > 0 {
        let rest = s.skip(1);
        assert(white(s[0]));
        assert(s[0] != '\\' && s[0] != '\'' && s[0] != '"');
        assert forall|i: int| 0 <= i < rest.len() implies white(#[trigger] rest[i]) by {
            assert(rest[i] == s[i + 1]);
        }
        lemma_no_words(rest);
    }
}

/// A backslash keeps the character behind it as it is, and a line break behind it
/// counts for nothing; inside single quotes a backslash is one.
pub proof fn lemma_backslash(c: char, rest: Seq<char>, word: Seq<char>)
    ensures
        c != '\n' ==> words_from(seq!['\\', c] + rest, Quote::Outside, word) == words_from(
            rest,
            Quote::Outside,
            word.push(c),
        ),
        words_from(seq!['\\', '\n'] + rest, Quote::Outside, word) == words_from(
            rest,
            Quote::Outside,
            word,
        ),
        words_from(seq!['\\', c] + rest, Quote::Double, word) == words_from(
            rest,
            Quote::Double,
            word.push(c),
        ),
        words_from(seq!['\\'] + rest, Quote::Single, word) == words_from(
            rest,
            Quote::Single,
            word.push('\\'),
        ),
{
    let s = seq!['\\', c] + rest;
    assert(s.skip(2) =~= rest);
    let t = seq!['\\', '\n'] + rest;
    assert(t.skip(2) =~= rest);
    let u = seq!['\\'] + rest;
    assert(u.skip(1) =~= rest);
    assert(!white('\\'));
}

/// A word ends at white space and at the end, where it has any characters; a
/// backslash at the very end counts for nothing.
pub proof fn lemma_word_ends(c: char, rest: Seq<char>, word: Seq<char>)
    requires
        white(c),
        word.len() > 0,
    ensures
        words_from(Seq::empty(), Quote::Outside, word) == Some(seq![word]),
        words_from(Seq::empty(), Quote::Outside, Seq::empty()) == Some(Seq::<Seq<char>>::empty()),
        words_from(seq![c] + rest, Quote::Outside, Seq::empty()) == words(rest),
        words_from(seq![c] + rest, Quote::Outside, word) == (match words(rest) {
            Some(more) => Some(seq![word] + more),
            None => None,
        }),
        words_from(seq!['\\'], Quote::Outside, word) == Some(seq![word]),
{
    let s = seq![c] + rest;
    assert(s.skip(1) =~= rest);
    assert(c != '\\' && c != '\'' && c != '"');
    assert(seq!['\\'].skip(1) =~= Seq::empty());
    reveal_with_fuel(words_from, 2);
}

/// A quote that is never closed leaves nothing to go by.
pub proof fn lemma_unclosed(w: Seq<char>, word: Seq<char>)
    ensures
        !w.contains('\'') ==> words_from(seq!['\''] + w, Quote::Outside, word) is None,
        !w.contains('"') && !w.contains('\\') ==> words_from(
            seq!['"'] + w,
            Quote::Outside,
            word,
        ) is None,
{
    let s = seq!['\''] + w;
    assert(s.skip(1) =~= w);
    let d = seq!['"'] + w;
    assert(d.skip(1) =~= w);
    if !w.contains('\'') {
        lemma_unclosed_from(w, Quote::Single, word);
    }
    if !w.contains('"') && !w.contains('\\') {
        lemma_unclosed_from(w, Quote::Double, word);
    }
}

proof fn lemma_unclosed_from(w: Seq<char>, quote: Quote, word: Seq<char>)
    requires
        quote == Quote::Single ==> !w.contains('\''),
        quote == Quote::Double ==> !w.contains('"') && !w.contains('\\'),
        quote != Quote::Outside,
    ensures
        words_from(w, quote, word) is None,
    decreases w.len(),
{
    if w.len() > 0 {
        let rest = w.skip(1);
        assert(w.contains(w[0]));
        assert forall|c: char| rest.contains(c) implies #[trigger] w.contains(c) by {
            let k = rest.index_of(c);
            assert(w[k + 1] == c);
        }
        if rest.contains('\'') {
            assert(w.contains('\''));
        }
        if rest.contains('"') {
            assert(w.contains('"'));
        }
        if rest.contains('\\') {
            assert(w.contains('\\'));
        }
        lemma_unclosed_from(rest, quote, word.push(w[0]));
    }
}

/// What was asked for, with another method.
pub open spec fn with_method(args: Args, method: Seq<char>) -> Args {
    Args { method: Some(method), ..args }
}

/// What was asked for, with another body.
pub open spec fn with_body(args: Args, body: Seq<char>) -> Args {
    Args { body: Some(body), ..args }
}

/// What was asked for, with another address.
pub open spec fn with_url(args: Args, url: Seq<char>) -> Args {
    Args { url: Some(url), ..args }
}

/// What was asked for, with a header under that name.
pub open spec fn with_named(args: Args, name: Seq<char>, value: Seq<char>) -> Args {
    Args { headers: args.headers.insert(name, value), ..args }
}

proof fn lemma_flags()
    ensures
        "-X"@.len() == 2 && "-X"@[0] == '-' && "-X"@[1] == 'X',
        "-H"@.len() == 2 && "-H"@[0] == '-' && "-H"@[1] == 'H',
        "-d"@.len() == 2 && "-d"@[0] == '-' && "-d"@[1] == 'd',
        "--request"@.len() == 9 && "--request"@[0] == '-',
        "--header"@.len() == 8 && "--header"@[0] == '-',
        "--data"@.len() == 6 && "--data"@[0] == '-',
        "--data-raw"@.len() == 10 && "--data-raw"@[0] == '-',
        "--data-binary"@.len() == 13 && "--data-binary"@[0] == '-',
        "--url"@.len() == 5 && "--url"@[0] == '-',
{
    reveal_strlit("-X");
    reveal_strlit("-H");
    reveal_strlit("-d");
    reveal_strlit("--request");
    reveal_strlit("--header");
    reveal_strlit("--data");
    reveal_strlit("--data-raw");
    reveal_strlit("--data-binary");
    reveal_strlit("--url");
}

/// Each flag for a method, a body or an address sets it to the word behind it, as
/// that is, and nothing else.
pub proof fn lemma_valued_flags(
    flag: Seq<char>,
    value: Seq<char>,
    rest: Seq<Seq<char>>,
    so_far: Args,
)
    ensures
        flag == "-X"@ || flag == "--request"@ ==> args_from(seq![flag, value] + rest, so_far)
            == args_from(rest, with_method(so_far, value)),
        flag == "-d"@ || flag == "--data"@ || flag == "--data-raw"@ || flag == "--data-binary"@
            ==> args_from(seq![flag, value] + rest, so_far) == args_from(
            rest,
            with_body(so_far, value),
        ),
        flag == "--url"@ ==> args_from(seq![flag, value] + rest, so_far) == args_from(
            rest,
            with_url(so_far, value),
        ),
{
    lemma_flags();
    let tokens = seq![flag, value] + rest;
    assert(tokens[0] == flag && tokens[1] == value);
    assert(tokens.skip(2) =~= rest);
}

/// A header is what stands before and behind its first colon, white space around
/// each aside.
pub proof fn lemma_header_flag(
    flag: Seq<char>,
    name: Seq<char>,
    value: Seq<char>,
    rest: Seq<Seq<char>>,
    so_far: Args,
)
    requires
        flag == "-H"@ || flag == "--header"@,
        !name.contains(':'),
    ensures
        args_from(seq![flag, name + seq![':'] + value] + rest, so_far) == args_from(
            rest,
            with_named(so_far, trimmed(name), trimmed(value)),
        ),
        args_from(seq![flag, name] + rest, so_far) == Err::<Args, Failure>(
            Failure::InvalidCurl("bad header"@),
        ),
{
    lemma_flags();
    let colon = seq![':'];
    let line = name + colon + value;
    assert forall|j: int| 0 <= j < name.len() implies #[trigger] line.subrange(j, j + colon.len())
        != colon by {
        assert(line.subrange(j, j + colon.len())[0] == name[j]);
        assert(name.contains(name[j]));
    }
    lemma_find_first(name, colon, value);
    assert(line.take(name.len() as int) =~= name);
    assert(line.skip(name.len() as int + 1) =~= value);
    let tokens = seq![flag, line] + rest;
    assert(tokens[0] == flag && tokens[1] == line);
    assert(tokens.skip(2) =~= rest);
    assert forall|j: int| 0 <= j <= name.len() - colon.len() implies #[trigger] name.subrange(
        j,
        j + colon.len(),
    ) != colon by {
        assert(name.subrange(j, j + colon.len())[0] == name[j]);
        assert(name.contains(name[j]));
    }
    lemma_not_mentioned(name, colon);
    let bad = seq![flag, name] + rest;
    assert(bad[0] == flag && bad[1] == name);
}

/// The first word that is no flag is the address; further ones and unknown flags
/// count for nothing; and a flag at the end lacks its value.
pub proof fn lemma_other_words(word: Seq<char>, rest: Seq<Seq<char>>, so_far: Args)
    ensures
        !(word.len() > 0 && word[0] == '-') && so_far.url is None ==> args_from(
            seq![word] + rest,
            so_far,
        ) == args_from(rest, with_url(so_far, word)),
        !(word.len() > 0 && word[0] == '-') && so_far.url is Some ==> args_from(
            seq![word] + rest,
            so_far,
        ) == args_from(rest, so_far),
        args_from(Seq::empty(), so_far) == Ok::<Args, Failure>(so_far),
        word == "-X"@ || word == "--request"@ ==> args_from(seq![word], so_far) == Err::<
            Args,
            Failure,
        >(Failure::InvalidCurl("missing -X value"@)),
        word == "-H"@ || word == "--header"@ ==> args_from(seq![word], so_far) == Err::<
            Args,
            Failure,
        >(Failure::InvalidCurl("missing -H value"@)),
        word == "-d"@ || word == "--data"@ || word == "--data-raw"@ || word == "--data-binary"@
            ==> args_from(seq![word], so_far) == Err::<Args, Failure>(
            Failure::InvalidCurl("missing -d value"@),
        ),
        word == "--url"@ ==> args_from(seq![word], so_far) == Err::<Args, Failure>(
            Failure::InvalidCurl("missing --url value"@),
        ),
{
    lemma_flags();
    let tokens = seq![word] + rest;
    assert(tokens[0] == word);
    assert(tokens.skip(1) =~= rest);
    assert(seq![word][0] == word);
}

/// A leading word `curl` counts for nothing, any other first word counts, and a
/// quote that is left open is an error.
pub proof fn lemma_leading_word(input: Seq<char>, tokens: Seq<Seq<char>>)
    ensures
        words(input) == Some(seq!["curl"@] + tokens) ==> args_of(input) == args_from(
            tokens,
            no_args(),
        ),
        words(input) == Some(tokens) && (tokens.len() > 0 ==> tokens[0] != "curl"@) ==> args_of(
            input,
        ) == args_from(tokens, no_args()),
        words(input) is None ==> args_of(input) == Err::<Args, Failure>(
            Failure::InvalidCurl("unterminated quote"@),
        ),
        no_args().url is None && no_args().method is None && no_args().body is None,
        no_args().headers == Map::<Seq<char>, Seq<char>>::empty(),
{
    let all = seq!["curl"@] + tokens;
    assert(all[0] == "curl"@);
    assert(all.skip(1) =~= tokens);
}

/// The request of a command line: its address and its headers as asked for, its
/// method as asked for, or else `POST` with a body and `GET` without one, and its
/// body as JSON.
pub proof fn lemma_request_of(args: Args, t: Tree, message: Seq<char>)
    ensures
        args.url is None ==> request_of(args, body_read(args)) == Err::<Curl, Failure>(
            Failure::InvalidCurl("missing URL"@),
        ),
        args.url is Some && (args.body is None || parsed_json(args.body->0) == Ok::<
            Tree,
            Seq<char>,
        >(t)) ==> {
            &&& request_of(args, body_read(args)) matches Ok(curl)
            &&& Some(curl.url) == args.url
            &&& curl.headers == args.headers
            &&& args.method matches Some(m) ==> curl.method == m
            &&& args.method is None && args.body is Some ==> curl.method == "POST"@
            &&& args.method is None && args.body is None ==> curl.method == "GET"@
            &&& args.body is None ==> curl.body is None
            &&& args.body is Some ==> curl.body == Some(t)
        },
        args.url is Some && args.body is Some && parsed_json(args.body->0) == Err::<
            Tree,
            Seq<char>,
        >(message) ==> request_of(args, body_read(args)) == Err::<Curl, Failure>(
            Failure::CurlParse("body json: "@ + message),
        ),
{
}

/// A command line describes the request of what it asks for, and fails as that
/// does.
pub proof fn lemma_curl_of(input: Seq<char>, args: Args, failure: Failure)
    ensures
        args_of(input) == Ok::<Args, Failure>(args) ==> curl_of(input) == request_of(
            args,
            body_read(args),
        ),
        args_of(input) == Err::<Args, Failure>(failure) ==> curl_of(input) == Err::<Curl, Failure>(
            failure,
        ),
{
}

} // verus!
