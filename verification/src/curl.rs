//! The curl command lines that describe a request: how one falls into words,
//! and what the words ask for.
//!
//! Accepted are `-X`/`--request`, `-H`/`--header`, `-d`/`--data`/`--data-raw`/
//! `--data-binary`, `--url` and a bare URL. Other flags are passed over.

use vstd::prelude::*;

use crate::json::{optional_tree, parsed_json, Json, Tree};
use crate::llm::{Failure, LlmError};
use crate::string_map::{texts, StringMap};
use crate::text::{chars_of, find, find_chars, optional, same_text, slice_text, trim, trimmed, views, white};

verus! {

/// The quotes that a character stands in.
#[derive(Clone, Copy, PartialEq, Eq, Structural)]
pub enum Quote {
    Outside,
    Single,
    Double,
}

/// The words of the rest of a command line, of which `word` is the part of the
/// current word already seen. There are none if a quote stays open.
///
/// A backslash takes the next character as it is, except in single quotes; out
/// of quotes, a backslash before a line break takes both away. White space out
/// of quotes ends a word.
pub open spec fn words_from(s: Seq<char>, quote: Quote, word: Seq<char>) -> Option<Seq<Seq<char>>>
    decreases s.len(),
{
    if s.len() == 0 {
        if quote != Quote::Outside {
            None
        } else if word.len() > 0 {
            Some(seq![word])
        } else {
            Some(Seq::empty())
        }
    } else if s[0] == '\\' && quote != Quote::Single {
        if s.len() == 1 {
            words_from(s.skip(1), quote, word)
        } else if quote == Quote::Outside && s[1] == '\n' {
            words_from(s.skip(2), quote, word)
        } else {
            words_from(s.skip(2), quote, word.push(s[1]))
        }
    } else if s[0] == '\'' && quote != Quote::Double {
        words_from(s.skip(1), toggled(quote, Quote::Single), word)
    } else if s[0] == '"' && quote != Quote::Single {
        words_from(s.skip(1), toggled(quote, Quote::Double), word)
    } else if white(s[0]) && quote == Quote::Outside {
        if word.len() > 0 {
            match words_from(s.skip(1), quote, Seq::empty()) {
                Some(more) => Some(seq![word] + more),
                None => None,
            }
        } else {
            words_from(s.skip(1), quote, word)
        }
    } else {
        words_from(s.skip(1), quote, word.push(s[0]))
    }
}

/// The state behind a quote that opens or closes.
pub open spec fn toggled(quote: Quote, by: Quote) -> Quote {
    if quote == Quote::Outside {
        by
    } else {
        Quote::Outside
    }
}

/// The words of a command line; none if a quote stays open.
pub open spec fn words(s: Seq<char>) -> Option<Seq<Seq<char>>> {
    words_from(s, Quote::Outside, Seq::empty())
}

proof fn lemma_views_push(v: Seq<String>, s: String)
    ensures
        views(v.push(s)) == views(v).push(s@),
{
    assert(views(v.push(s)) =~= views(v).push(s@));
}

/// The words of a line, given those so far and those of its rest.
spec fn after(done: Seq<Seq<char>>, more: Option<Seq<Seq<char>>>) -> Option<Seq<Seq<char>>> {
    match more {
        Some(more) => Some(done + more),
        None => None,
    }
}

/// The words of a command line.
pub fn tokenize(input: &str) -> (r: Result<Vec<String>, LlmError>)
    ensures
        match r {
            Ok(tokens) => words(input@) == Some(views(tokens@)),
            Err(e) => words(input@) is None && e@ == Failure::InvalidCurl("unterminated quote"@),
        },
{
    let s = chars_of(input);
    let n: usize = s.len();
    let mut out: Vec<String> = Vec::new();
    let mut word = String::new();
    let mut length: usize = 0;
    let mut quote = Quote::Outside;
    let mut i: usize = 0;
    assert(s@.skip(0) == s@);
    assert(word@ =~= Seq::empty());
    assert(words(s@) == after(views(out@), words(s@))) by {
        assert(views(out@) =~= Seq::empty());
        if let Some(w) = words(s@) {
            assert(views(out@) + w =~= w);
        }
    }
    while i < n
        invariant
            n == s@.len(),
            s@ == input@,
            i <= n,
            length <= i,
            length == word@.len(),
            words(s@) == after(views(out@), words_from(s@.skip(i as int), quote, word@)),
        decreases n - i,
    {
        let ghost rest = s@.skip(i as int);
        let c = s[i];
        assert(rest[0] == c);
        assert(rest.skip(1) == s@.skip(i + 1));
        if c == '\\' && quote != Quote::Single {
            if i + 1 < n {
                assert(rest[1] == s@[i + 1]);
                assert(rest.skip(2) == s@.skip(i + 2));
                if !(quote == Quote::Outside && s[i + 1] == '\n') {
                    word.push(s[i + 1]);
                    length = length + 1;
                }
                i = i + 2;
            } else {
                i = i + 1;
            }
        } else if c == '\'' && quote != Quote::Double {
            quote = if quote == Quote::Outside {
                Quote::Single
            } else {
                Quote::Outside
            };
            i = i + 1;
        } else if c == '"' && quote != Quote::Single {
            quote = if quote == Quote::Outside {
                Quote::Double
            } else {
                Quote::Outside
            };
            i = i + 1;
        } else if c.is_whitespace() && quote == Quote::Outside {
            if length > 0 {
                let ghost before = out@;
                let ghost was = word@;
                out.push(word);
                word = String::new();
                length = 0;
                proof {
                    lemma_views_push(before, out@.last());
                    assert(out@.last()@ == was);
                    assert(out@ =~= before.push(out@.last()));
                    assert(word@ =~= Seq::empty());
                    if let Some(w) = words_from(s@.skip(i + 1), quote, Seq::empty()) {
                        assert(views(before) + (seq![was] + w) =~= views(before).push(was)
                            + w);
                    }
                }
            }
            i = i + 1;
        } else {
            word.push(c);
            length = length + 1;
            i = i + 1;
        }
    }
    assert(s@.skip(n as int) =~= Seq::empty());
    if quote != Quote::Outside {
        return Err(LlmError::InvalidCurl("unterminated quote"));
    }
    let ghost before = out@;
    if length > 0 {
        out.push(word);
        proof {
            lemma_views_push(before, word);
            assert(views(before) + seq![word@] =~= views(before).push(word@));
        }
    } else {
        assert(views(before) + Seq::<Seq<char>>::empty() =~= views(before));
    }
    Ok(out)
}

/// A character that means more than itself out of quotes.
pub open spec fn special(c: char) -> bool {
    c == '\\' || c == '\'' || c == '"' || white(c)
}

/// Nothing in `w` means more than itself out of quotes.
pub open spec fn unquoted(w: Seq<char>) -> bool {
    forall|i: int| 0 <= i < w.len() ==> !special(#[trigger] w[i])
}

/// `w` in single quotes.
pub open spec fn single_quoted(w: Seq<char>) -> Seq<char> {
    seq!['\''] + w + seq!['\'']
}

/// `w` with a backslash before each quote and backslash.
pub open spec fn shielded(w: Seq<char>) -> Seq<char>
    decreases w.len(),
{
    if w.len() == 0 {
        Seq::empty()
    } else if w[0] == '"' || w[0] == '\\' {
        seq!['\\', w[0]] + shielded(w.skip(1))
    } else {
        seq![w[0]] + shielded(w.skip(1))
    }
}

/// `w` in double quotes.
pub open spec fn double_quoted(w: Seq<char>) -> Seq<char> {
    seq!['"'] + shielded(w) + seq!['"']
}

proof fn lemma_bare_run(w: Seq<char>, rest: Seq<char>, word: Seq<char>)
    requires
        unquoted(w),
    ensures
        words_from(w + rest, Quote::Outside, word) == words_from(rest, Quote::Outside, word + w),
    decreases w.len(),
{
    if w.len() == 0 {
        assert(w + rest =~= rest);
        assert(word + w =~= word);
    } else {
        let tail = w.skip(1);
        assert(!special(w[0]));
        assert forall|i: int| 0 <= i < tail.len() implies !special(#[trigger] tail[i]) by {
            assert(tail[i] == w[i + 1]);
        }
        lemma_bare_run(tail, rest, word.push(w[0]));
        assert((w + rest).skip(1) =~= tail + rest);
        assert(word.push(w[0]) + tail =~= word + w);
    }
}

proof fn lemma_single_run(w: Seq<char>, rest: Seq<char>, word: Seq<char>)
    requires
        !w.contains('\''),
    ensures
        words_from(w + rest, Quote::Single, word) == words_from(rest, Quote::Single, word + w),
    decreases w.len(),
{
    if w.len() == 0 {
        assert(w + rest =~= rest);
        assert(word + w =~= word);
    } else {
        let tail = w.skip(1);
        assert(w.contains(w[0]));
        assert forall|i: int| 0 <= i < tail.len() implies tail[i] != '\'' by {
            assert(w.contains(w[i + 1]));
        }
        lemma_single_run(tail, rest, word.push(w[0]));
        assert((w + rest).skip(1) =~= tail + rest);
        assert(word.push(w[0]) + tail =~= word + w);
    }
}

proof fn lemma_double_run(w: Seq<char>, rest: Seq<char>, word: Seq<char>)
    ensures
        words_from(shielded(w) + rest, Quote::Double, word) == words_from(
            rest,
            Quote::Double,
            word + w,
        ),
    decreases w.len(),
{
    if w.len() == 0 {
        assert(shielded(w) + rest =~= rest);
        assert(word + w =~= word);
    } else {
        let tail = w.skip(1);
        let all = shielded(w) + rest;
        lemma_double_run(tail, rest, word.push(w[0]));
        assert(word.push(w[0]) + tail =~= word + w);
        if w[0] == '"' || w[0] == '\\' {
            assert(all[0] == '\\' && all[1] == w[0]);
            assert(all.skip(2) =~= shielded(tail) + rest);
        } else {
            assert(all[0] == w[0]);
            assert(all.skip(1) =~= shielded(tail) + rest);
        }
    }
}

/// However a word is written (bare, where nothing in it needs quotes, in single
/// quotes, where it holds none, or in double quotes), it adds the same to the
/// line, whatever stands before and after it.
pub proof fn lemma_quoting(w: Seq<char>, rest: Seq<char>, word: Seq<char>)
    ensures
        unquoted(w) ==> words_from(w + rest, Quote::Outside, word) == words_from(
            rest,
            Quote::Outside,
            word + w,
        ),
        !w.contains('\'') ==> words_from(single_quoted(w) + rest, Quote::Outside, word)
            == words_from(rest, Quote::Outside, word + w),
        words_from(double_quoted(w) + rest, Quote::Outside, word) == words_from(
            rest,
            Quote::Outside,
            word + w,
        ),
{
    if unquoted(w) {
        lemma_bare_run(w, rest, word);
    }
    if !w.contains('\'') {
        let all = single_quoted(w) + rest;
        assert(all[0] == '\'');
        assert(all.skip(1) =~= w + (seq!['\''] + rest));
        lemma_single_run(w, seq!['\''] + rest, word);
        assert((seq!['\''] + rest).skip(1) =~= rest);
    }
    let all = double_quoted(w) + rest;
    assert(all[0] == '"');
    assert(all.skip(1) =~= shielded(w) + (seq!['"'] + rest));
    lemma_double_run(w, seq!['"'] + rest, word);
    assert((seq!['"'] + rest).skip(1) =~= rest);
}

/// A line that is one word, not empty, written in any of the three ways falls
/// into that word.
pub proof fn lemma_one_word(w: Seq<char>)
    requires
        w.len() > 0,
    ensures
        unquoted(w) ==> words(w) == Some(seq![w]),
        !w.contains('\'') ==> words(single_quoted(w)) == Some(seq![w]),
        words(double_quoted(w)) == Some(seq![w]),
{
    let none = Seq::<char>::empty();
    lemma_quoting(w, none, none);
    assert(none + w =~= w);
    assert(w + none =~= w);
    assert(single_quoted(w) + none =~= single_quoted(w));
    assert(double_quoted(w) + none =~= double_quoted(w));
}

/// The line ends in a backslash, out of quotes, that has nothing to act on.
pub open spec fn cut_short(s: Seq<char>, quote: Quote) -> bool
    decreases s.len(),
{
    if s.len() == 0 {
        false
    } else if s[0] == '\\' && quote != Quote::Single {
        s.len() == 1 || cut_short(s.skip(2), quote)
    } else if s[0] == '\'' && quote != Quote::Double {
        cut_short(s.skip(1), toggled(quote, Quote::Single))
    } else if s[0] == '"' && quote != Quote::Single {
        cut_short(s.skip(1), toggled(quote, Quote::Double))
    } else {
        cut_short(s.skip(1), quote)
    }
}

proof fn lemma_join_from(a: Seq<char>, b: Seq<char>, space: char, quote: Quote, word: Seq<char>)
    requires
        words_from(a, quote, word) is Some,
        !cut_short(a, quote),
        white(space),
        words(b) is Some,
    ensures
        words_from(a + seq![space] + b, quote, word) == Some(
            words_from(a, quote, word)->0 + words(b)->0,
        ),
    decreases a.len(),
{
    let all = a + seq![space] + b;
    if a.len() == 0 {
        assert(all[0] == space);
        assert(all.skip(1) =~= b);
        if word.len() == 0 {
            assert(word =~= Seq::empty());
            assert(Seq::<Seq<char>>::empty() + words(b)->0 =~= words(b)->0);
        }
    } else {
        assert(all[0] == a[0]);
        assert(all.skip(1) =~= a.skip(1) + seq![space] + b);
        if a[0] == '\\' && quote != Quote::Single {
            assert(all[1] == a[1]);
            assert(all.skip(2) =~= a.skip(2) + seq![space] + b);
            if quote == Quote::Outside && a[1] == '\n' {
                lemma_join_from(a.skip(2), b, space, quote, word);
            } else {
                lemma_join_from(a.skip(2), b, space, quote, word.push(a[1]));
            }
        } else if a[0] == '\'' && quote != Quote::Double {
            lemma_join_from(a.skip(1), b, space, toggled(quote, Quote::Single), word);
        } else if a[0] == '"' && quote != Quote::Single {
            lemma_join_from(a.skip(1), b, space, toggled(quote, Quote::Double), word);
        } else if white(a[0]) && quote == Quote::Outside {
            if word.len() > 0 {
                lemma_join_from(a.skip(1), b, space, quote, Seq::empty());
                let more = words_from(a.skip(1), quote, Seq::empty())->0;
                assert(seq![word] + (more + words(b)->0) =~= (seq![word] + more) + words(b)->0);
            } else {
                lemma_join_from(a.skip(1), b, space, quote, word);
            }
        } else {
            lemma_join_from(a.skip(1), b, space, quote, word.push(a[0]));
        }
    }
}

/// Two lines with white space between them fall into the words of the first and
/// then those of the second, if quotes are closed in both and no backslash at
/// the end of the first takes the white space for itself.
pub proof fn lemma_words_join(a: Seq<char>, b: Seq<char>, space: char)
    requires
        words(a) is Some,
        !cut_short(a, Quote::Outside),
        white(space),
        words(b) is Some,
    ensures
        words(a + seq![space] + b) == Some(words(a)->0 + words(b)->0),
{
    lemma_join_from(a, b, space, Quote::Outside, Seq::empty());
}

/// What a command line asks for, its body still a text.
pub struct Args {
    pub url: Option<Seq<char>>,
    pub method: Option<Seq<char>>,
    pub headers: Map<Seq<char>, Seq<char>>,
    pub body: Option<Seq<char>>,
}

/// Nothing asked for.
pub open spec fn no_args() -> Args {
    Args { url: None, method: None, headers: Map::empty(), body: None }
}

/// The word asks for a method.
pub open spec fn asks_method(t: Seq<char>) -> bool {
    t == "-X"@ || t == "--request"@
}

/// The word asks for a header.
pub open spec fn asks_header(t: Seq<char>) -> bool {
    t == "-H"@ || t == "--header"@
}

/// The word asks for a body.
pub open spec fn asks_body(t: Seq<char>) -> bool {
    t == "-d"@ || t == "--data"@ || t == "--data-raw"@ || t == "--data-binary"@
}

/// The word asks for a URL.
pub open spec fn asks_url(t: Seq<char>) -> bool {
    t == "--url"@
}

/// `headers` with the header that `t` writes: a name and a value with a colon
/// between them, each without the white space around it.
pub open spec fn with_header(headers: Map<Seq<char>, Seq<char>>, t: Seq<char>) -> Option<
    Map<Seq<char>, Seq<char>>,
> {
    match find(t, seq![':']) {
        Some(i) => Some(headers.insert(trimmed(t.take(i)), trimmed(t.skip(i + 1)))),
        None => None,
    }
}

/// What a command line asks for that asked for `so_far` before `tokens`. A flag
/// asked for twice counts the last time, a bare URL only where no URL stands
/// yet.
pub open spec fn args_from(tokens: Seq<Seq<char>>, so_far: Args) -> Result<Args, Failure>
    decreases tokens.len(),
{
    if tokens.len() == 0 {
        Ok(so_far)
    } else {
        let t = tokens[0];
        let value = if tokens.len() > 1 {
            Some(tokens[1])
        } else {
            None
        };
        if asks_method(t) {
            match value {
                Some(v) => args_from(tokens.skip(2), Args { method: Some(v), ..so_far }),
                None => Err(Failure::InvalidCurl("missing -X value"@)),
            }
        } else if asks_header(t) {
            match value {
                Some(v) => match with_header(so_far.headers, v) {
                    Some(headers) => args_from(tokens.skip(2), Args { headers, ..so_far }),
                    None => Err(Failure::InvalidCurl("bad header"@)),
                },
                None => Err(Failure::InvalidCurl("missing -H value"@)),
            }
        } else if asks_body(t) {
            match value {
                Some(v) => args_from(tokens.skip(2), Args { body: Some(v), ..so_far }),
                None => Err(Failure::InvalidCurl("missing -d value"@)),
            }
        } else if asks_url(t) {
            match value {
                Some(v) => args_from(tokens.skip(2), Args { url: Some(v), ..so_far }),
                None => Err(Failure::InvalidCurl("missing --url value"@)),
            }
        } else if !(t.len() > 0 && t[0] == '-') && so_far.url is None {
            args_from(tokens.skip(1), Args { url: Some(t), ..so_far })
        } else {
            args_from(tokens.skip(1), so_far)
        }
    }
}

/// What a command line asks for; a leading word `curl` counts for nothing.
pub open spec fn args_of(input: Seq<char>) -> Result<Args, Failure> {
    match words(input) {
        Some(tokens) => if tokens.len() > 0 && tokens[0] == "curl"@ {
            args_from(tokens.skip(1), no_args())
        } else {
            args_from(tokens, no_args())
        },
        None => Err(Failure::InvalidCurl("unterminated quote"@)),
    }
}

/// The long and the short spellings of a flag ask for the same.
pub proof fn lemma_spellings(t: Seq<char>, u: Seq<char>, rest: Seq<Seq<char>>, so_far: Args)
    requires
        (asks_method(t) && asks_method(u)) || (asks_header(t) && asks_header(u)) || (asks_body(t)
            && asks_body(u)),
    ensures
        args_from(seq![t] + rest, so_far) == args_from(seq![u] + rest, so_far),
{
    lemma_flags_differ();
    if rest.len() > 0 {
        assert((seq![t] + rest).skip(2) =~= (seq![u] + rest).skip(2));
        assert((seq![t] + rest)[1] == (seq![u] + rest)[1]);
    }
}

/// A flag that asks for nothing known is passed over, alone.
pub proof fn lemma_unknown_flag(t: Seq<char>, rest: Seq<Seq<char>>, so_far: Args)
    requires
        t.len() > 0 && t[0] == '-',
        !asks_method(t) && !asks_header(t) && !asks_body(t) && !asks_url(t),
    ensures
        args_from(seq![t] + rest, so_far) == args_from(rest, so_far),
{
    assert((seq![t] + rest).skip(1) =~= rest);
}

proof fn lemma_flags_differ()
    ensures
        forall|t: Seq<char>| #[trigger] asks_header(t) ==> !asks_method(t),
        forall|t: Seq<char>| #[trigger] asks_body(t) ==> !asks_method(t) && !asks_header(t),
{
    reveal_strlit("-X");
    reveal_strlit("--request");
    reveal_strlit("-H");
    reveal_strlit("--header");
    reveal_strlit("-d");
    reveal_strlit("--data");
    reveal_strlit("--data-raw");
    reveal_strlit("--data-binary");
    assert("-X"@[1] == 'X');
    assert("-H"@[1] == 'H');
    assert("-d"@[1] == 'd');
    assert("--request"@[2] == 'r');
    assert("--header"@[2] == 'h');
    assert("--data"@[2] == 'd');
    assert("--data-raw"@[2] == 'd');
    assert("--data-binary"@[2] == 'd');
    assert("-X"@.len() == 2 && "-H"@.len() == 2 && "-d"@.len() == 2);
}

/// The parts of a command line, the body still a text.
#[derive(Debug)]
pub struct CurlArgs {
    pub url: Option<String>,
    pub method: Option<String>,
    pub headers: StringMap<String>,
    pub body: Option<String>,
}

impl View for CurlArgs {
    type V = Args;

    open spec fn view(&self) -> Args {
        Args {
            url: optional(self.url),
            method: optional(self.method),
            headers: texts(self.headers@),
            body: optional(self.body),
        }
    }
}

fn is_either(t: &str, a: &str, b: &str) -> (r: bool)
    ensures
        r == (t@ == a@ || t@ == b@),
{
    same_text(t, a) || same_text(t, b)
}

fn is_flag(t: &str) -> (r: bool)
    ensures
        r == (t@.len() > 0 && t@[0] == '-'),
{
    let v = chars_of(t);
    v.len() > 0 && v[0] == '-'
}

/// Adds the header that `t` writes; `false` if `t` is none.
fn add_header(headers: &mut StringMap<String>, t: &str) -> (r: bool)
    ensures
        match with_header(texts(old(headers)@), t@) {
            Some(more) => r && texts(final(headers)@) == more,
            None => !r && final(headers)@ == old(headers)@,
        },
{
    let v = chars_of(t);
    let n: usize = v.len();
    let colon: Vec<char> = vec![':'];
    assert(colon@ == seq![':']);
    match find_chars(&v, &colon, 0) {
        Some(i) => {
            let name = trim(slice_text(&v, 0, i).as_str());
            let value = trim(slice_text(&v, i + 1, n).as_str());
            assert(v@.take(i as int) == v@.subrange(0, i as int));
            assert(v@.skip(i + 1) == v@.subrange(i + 1, v@.len() as int));
            let ghost was = headers@;
            headers.insert(name, value);
            assert(texts(headers@) =~= texts(was).insert(name@, value@));
            true
        },
        None => false,
    }
}

/// What a command line asks for, or why it does not parse.
pub fn parse_args(input: &str) -> (r: Result<CurlArgs, LlmError>)
    ensures
        match r {
            Ok(args) => args_of(input@) == Ok::<Args, Failure>(args@),
            Err(e) => args_of(input@) == Err::<Args, Failure>(e@),
        },
{
    let tokens = match tokenize(input) {
        Ok(tokens) => tokens,
        Err(e) => return Err(e),
    };
    let ghost all = views(tokens@);
    let n: usize = tokens.len();
    let mut args = CurlArgs { url: None, method: None, headers: StringMap::new(), body: None };
    assert(texts(args.headers@) =~= Map::empty());
    let mut i: usize = 0;
    assert(all.skip(0) == all);
    if n > 0 && same_text(tokens[0].as_str(), "curl") {
        i = 1;
    }
    while i < n
        invariant
            n == tokens@.len(),
            all == views(tokens@),
            i <= n,
            args_of(input@) == args_from(all.skip(i as int), args@),
        decreases n - i,
    {
        let ghost rest = all.skip(i as int);
        let ghost was = args@;
        let t = tokens[i].as_str();
        assert(rest[0] == t@);
        assert(rest.skip(1) == all.skip(i + 1));
        let more: bool = n - i > 1;
        if more {
            assert(rest[1] == tokens@[i + 1]@);
            assert(rest.skip(2) == all.skip(i + 2));
        }
        if is_either(t, "-X", "--request") {
            if !more {
                return Err(LlmError::InvalidCurl("missing -X value"));
            }
            args.method = Some(tokens[i + 1].clone());
            assert(args@ == (Args { method: Some(rest[1]), ..was }));
            i = i + 2;
        } else if is_either(t, "-H", "--header") {
            if !more {
                return Err(LlmError::InvalidCurl("missing -H value"));
            }
            if !add_header(&mut args.headers, tokens[i + 1].as_str()) {
                return Err(LlmError::InvalidCurl("bad header"));
            }
            assert(args@ == (Args { headers: texts(args.headers@), ..was }));
            i = i + 2;
        } else if is_either(t, "-d", "--data") || is_either(t, "--data-raw", "--data-binary") {
            if !more {
                return Err(LlmError::InvalidCurl("missing -d value"));
            }
            args.body = Some(tokens[i + 1].clone());
            assert(args@ == (Args { body: Some(rest[1]), ..was }));
            i = i + 2;
        } else if same_text(t, "--url") {
            if !more {
                return Err(LlmError::InvalidCurl("missing --url value"));
            }
            args.url = Some(tokens[i + 1].clone());
            assert(args@ == (Args { url: Some(rest[1]), ..was }));
            i = i + 2;
        } else {
            if !is_flag(t) && args.url.is_none() {
                args.url = Some(t.to_owned());
                assert(args@ == (Args { url: Some(t@), ..was }));
            }
            i = i + 1;
        }
    }
    Ok(args)
}

/// A request as a command line describes it.
pub struct Curl {
    pub url: Seq<char>,
    pub method: Seq<char>,
    pub headers: Map<Seq<char>, Seq<char>>,
    pub body: Option<Tree>,
}

/// What reading the body gave, `None` where there is no body.
pub type BodyRead = Option<Result<Tree, Seq<char>>>;

/// The request that `args` ask for, given what reading their body gave. The
/// method is by default `POST` where there is a body and `GET` where not.
pub open spec fn request_of(args: Args, body: BodyRead) -> Result<Curl, Failure> {
    if args.url is None {
        Err(Failure::InvalidCurl("missing URL"@))
    } else {
        let method = match args.method {
            Some(m) => m,
            None => if args.body is Some {
                "POST"@
            } else {
                "GET"@
            },
        };
        let headers = args.headers;
        let url = args.url->0;
        match body {
            None => Ok(Curl { url, method, headers, body: None }),
            Some(Ok(tree)) => Ok(Curl { url, method, headers, body: Some(tree) }),
            Some(Err(message)) => Err(Failure::CurlParse("body json: "@ + message)),
        }
    }
}

/// What reading the body of `args` gives.
pub open spec fn body_read(args: Args) -> BodyRead {
    match args.body {
        Some(text) => Some(parsed_json(text)),
        None => None,
    }
}

/// The request that a command line describes.
pub open spec fn curl_of(input: Seq<char>) -> Result<Curl, Failure> {
    match args_of(input) {
        Ok(args) => request_of(args, body_read(args)),
        Err(e) => Err(e),
    }
}

/// A request as a command line describes it.
#[derive(Debug)]
pub struct ParsedCurl {
    pub url: String,
    pub method: String,
    pub headers: StringMap<String>,
    pub body: Option<Json>,
}

impl View for ParsedCurl {
    type V = Curl;

    open spec fn view(&self) -> Curl {
        Curl {
            url: self.url@,
            method: self.method@,
            headers: texts(self.headers@),
            body: optional_tree(self.body),
        }
    }
}

/// The model of what reading a body gave.
pub open spec fn body_view(body: Option<Result<Json, String>>) -> BodyRead {
    match body {
        Some(Ok(v)) => Some(Ok(v@)),
        Some(Err(message)) => Some(Err(message@)),
        None => None,
    }
}

/// The request that `args` ask for, given what reading their body gave.
pub fn build_request(args: CurlArgs, body: Option<Result<Json, String>>) -> (r: Result<
    ParsedCurl,
    LlmError,
>)
    ensures
        match r {
            Ok(parsed) => request_of(args@, body_view(body)) == Ok::<Curl, Failure>(parsed@)
                && parsed.body == (match body {
                Some(Ok(v)) => Some(v),
                _ => None,
            }),
            Err(e) => request_of(args@, body_view(body)) == Err::<Curl, Failure>(e@),
        },
{
    let url = match args.url {
        Some(url) => url,
        None => return Err(LlmError::InvalidCurl("missing URL")),
    };
    let method = match args.method {
        Some(method) => method,
        None => if args.body.is_some() {
            "POST".to_owned()
        } else {
            "GET".to_owned()
        },
    };
    let body = match body {
        None => None,
        Some(Ok(v)) => Some(v),
        Some(Err(message)) => return Err(
            LlmError::CurlParse("body json: ".to_owned().concat(message.as_str())),
        ),
    };
    Ok(ParsedCurl { url, method, headers: args.headers, body })
}

/// The request that a command line describes, or why it describes none.
pub fn parse_curl(input: &str) -> (r: Result<ParsedCurl, LlmError>)
    ensures
        match r {
            Ok(parsed) => curl_of(input@) == Ok::<Curl, Failure>(parsed@) && (
            parsed.body matches Some(v) ==> v@.wf()),
            Err(e) => curl_of(input@) == Err::<Curl, Failure>(e@),
        },
{
    let args = match parse_args(input) {
        Ok(args) => args,
        Err(e) => return Err(e),
    };
    let body = match &args.body {
        Some(text) => Some(Json::parse(text.as_str())),
        None => None,
    };
    build_request(args, body)
}

} // verus!
