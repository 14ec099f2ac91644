//! Text as sequences of characters: searching, trimming, splitting and
//! replacing, each stated over `Seq<char>` and computed on `Vec<char>`.

use vstd::prelude::*;

verus! {

/// `needle` stands in `hay` from position `i` on.
pub open spec fn occurs_at(hay: Seq<char>, needle: Seq<char>, i: int) -> bool {
    &&& 0 <= i
    &&& i + needle.len() <= hay.len()
    &&& hay.subrange(i, i + needle.len()) == needle
}

/// The first position at or after `from` at which `needle` stands in `hay`.
pub open spec fn find_from(hay: Seq<char>, needle: Seq<char>, from: int) -> Option<int>
    decreases hay.len() - from,
{
    if from < 0 || from + needle.len() > hay.len() {
        None
    } else if occurs_at(hay, needle, from) {
        Some(from)
    } else if from == hay.len() {
        None
    } else {
        find_from(hay, needle, from + 1)
    }
}

/// The first position at which `needle` stands in `hay`.
pub open spec fn find(hay: Seq<char>, needle: Seq<char>) -> Option<int> {
    find_from(hay, needle, 0)
}

/// `needle` stands somewhere in `hay`.
pub open spec fn mentions(hay: Seq<char>, needle: Seq<char>) -> bool {
    find(hay, needle) is Some
}

/// `s` with every occurrence of `pattern` replaced, from the left and without
/// overlap.
pub open spec fn replaced(s: Seq<char>, pattern: Seq<char>, with: Seq<char>) -> Seq<char>
    decreases s.len(),
{
    match find(s, pattern) {
        Some(i) if pattern.len() > 0 && 0 <= i && i + pattern.len() <= s.len() => s.take(i) + with
            + replaced(s.skip(i + pattern.len()), pattern, with),
        _ => s,
    }
}

/// Unicode's `White_Space` property.
pub open spec fn white(c: char) -> bool {
    ||| '\u{9}' <= c <= '\u{d}'
    ||| c == '\u{20}'
    ||| c == '\u{85}'
    ||| c == '\u{a0}'
    ||| c == '\u{1680}'
    ||| '\u{2000}' <= c <= '\u{200a}'
    ||| c == '\u{2028}'
    ||| c == '\u{2029}'
    ||| c == '\u{202f}'
    ||| c == '\u{205f}'
    ||| c == '\u{3000}'
}

/// `s` without its leading white space.
pub open spec fn trimmed_start(s: Seq<char>) -> Seq<char>
    decreases s.len(),
{
    if s.len() > 0 && white(s[0]) {
        trimmed_start(s.skip(1))
    } else {
        s
    }
}

/// `s` without its trailing white space.
pub open spec fn trimmed_end(s: Seq<char>) -> Seq<char>
    decreases s.len(),
{
    if s.len() > 0 && white(s.last()) {
        trimmed_end(s.drop_last())
    } else {
        s
    }
}

/// `s` without its leading and trailing white space.
pub open spec fn trimmed(s: Seq<char>) -> Seq<char> {
    trimmed_end(trimmed_start(s))
}

/// `s` without its trailing `c`s.
pub open spec fn trimmed_end_of(s: Seq<char>, c: char) -> Seq<char>
    decreases s.len(),
{
    if s.len() > 0 && s.last() == c {
        trimmed_end_of(s.drop_last(), c)
    } else {
        s
    }
}

/// The pieces of `s` between the occurrences of `c`.
pub open spec fn split(s: Seq<char>, c: char) -> Seq<Seq<char>>
    decreases s.len(),
{
    match find(s, seq![c]) {
        Some(i) if 0 <= i < s.len() => seq![s.take(i)] + split(s.skip(i + 1), c),
        _ => seq![s],
    }
}

/// The ASCII upper-case form of a character; other characters stay.
pub open spec fn upper(c: char) -> char {
    if 'a' <= c <= 'z' {
        (c as u32 - 32) as char
    } else {
        c
    }
}

/// `s` with its ASCII letters in upper case.
pub open spec fn uppered(s: Seq<char>) -> Seq<char> {
    s.map_values(|c: char| upper(c))
}

/// A decimal digit.
pub open spec fn is_digit(c: char) -> bool {
    '0' <= c <= '9'
}

/// The number that a sequence of decimal digits writes.
pub open spec fn digits_value(s: Seq<char>) -> nat
    decreases s.len(),
{
    if s.len() == 0 {
        0
    } else {
        10 * digits_value(s.drop_last()) + (s.last() as int - '0' as int) as nat
    }
}

/// The number that `s` writes: decimal digits, at least one, behind an
/// optional plus sign.
pub open spec fn number_of(s: Seq<char>) -> Option<nat> {
    if s.len() > 0 && s[0] == '+' {
        digits_number(s.skip(1))
    } else {
        digits_number(s)
    }
}

/// The number that `s` writes in decimal digits, at least one.
pub open spec fn digits_number(s: Seq<char>) -> Option<nat> {
    if s.len() > 0 && (forall|i: int| 0 <= i < s.len() ==> is_digit(#[trigger] s[i])) {
        Some(digits_value(s))
    } else {
        None
    }
}

/// The decimal digits of `n`.
pub open spec fn decimal(n: nat) -> Seq<char>
    decreases n,
{
    if n < 10 {
        seq![('0' as int + n) as char]
    } else {
        decimal(n / 10).push(('0' as int + n % 10) as char)
    }
}

/// The texts of a sequence of strings.
pub open spec fn views(v: Seq<String>) -> Seq<Seq<char>> {
    v.map_values(|s: String| s@)
}

/// The text of an optional string.
pub open spec fn optional(s: Option<String>) -> Option<Seq<char>> {
    match s {
        Some(s) => Some(s@),
        None => None,
    }
}

/// `char::is_whitespace` tells whether a character has Unicode's `White_Space`
/// property, whose members are listed in [`white`].
pub assume_specification[ char::is_whitespace ](c: char) -> (r: bool)
    ensures
        r == white(c),
;

/// `String::push` appends one character.
pub assume_specification[ String::push ](s: &mut String, c: char)
    ensures
        final(s)@ == old(s)@.push(c),
;

pub(crate) fn chars_of(s: &str) -> (r: Vec<char>)
    ensures
        r@ == s@,
{
    let mut r: Vec<char> = Vec::new();
    for c in it: s.chars()
        invariant
            r@ == it.seq().take(it.index()),
            it.seq() == s@,
    {
        r.push(c);
    }
    assert(s@.take(s@.len() as int) == s@);
    r
}

/// The characters of `v` from `from` up to `to`.
pub(crate) fn slice_text(v: &Vec<char>, from: usize, to: usize) -> (r: String)
    requires
        from <= to <= v@.len(),
    ensures
        r@ == v@.subrange(from as int, to as int),
{
    let mut r = String::new();
    let mut i: usize = from;
    while i < to
        invariant
            from <= i <= to <= v@.len(),
            r@ == v@.subrange(from as int, i as int),
        decreases to - i,
    {
        r.push(v[i]);
        i = i + 1;
    }
    r
}

pub(crate) fn same_text(a: &str, b: &str) -> (r: bool)
    ensures
        r == (a@ == b@),
{
    a.to_owned() == b.to_owned()
}

fn stands_at(hay: &Vec<char>, needle: &Vec<char>, i: usize) -> (r: bool)
    requires
        i + needle@.len() <= hay@.len(),
    ensures
        r == occurs_at(hay@, needle@, i as int),
{
    let n: usize = hay.len();
    let mut k: usize = 0;
    while k < needle.len()
        invariant
            n == hay@.len(),
            k <= needle@.len(),
            i + needle@.len() <= hay@.len(),
            forall|j: int| 0 <= j < k ==> hay@[i + j] == needle@[j],
        decreases needle@.len() - k,
    {
        if hay[i + k] != needle[k] {
            assert(hay@.subrange(i as int, i + needle@.len())[k as int] == hay@[i + k]);
            return false;
        }
        k = k + 1;
    }
    assert(hay@.subrange(i as int, i + needle@.len()) =~= needle@);
    true
}

pub(crate) fn find_chars(hay: &Vec<char>, needle: &Vec<char>, from: usize) -> (r: Option<usize>)
    requires
        from <= hay@.len(),
    ensures
        match r {
            Some(i) => find_from(hay@, needle@, from as int) == Some(i as int) && i
                + needle@.len() <= hay@.len() && from <= i,
            None => find_from(hay@, needle@, from as int) is None,
        },
{
    let mut i: usize = from;
    while i <= hay.len() && needle.len() <= hay.len() - i
        invariant
            from <= i,
            i <= hay@.len() + 1,
            find_from(hay@, needle@, from as int) == find_from(hay@, needle@, i as int),
        decreases hay@.len() + 1 - i,
    {
        if stands_at(hay, needle, i) {
            return Some(i);
        }
        if i == hay.len() {
            return None;
        }
        i = i + 1;
    }
    None
}

pub(crate) fn has_text(hay: &str, needle: &str) -> (r: bool)
    ensures
        r == mentions(hay@, needle@),
{
    find_chars(&chars_of(hay), &chars_of(needle), 0).is_some()
}

pub(crate) fn starts_with(s: &str, prefix: &str) -> (r: bool)
    ensures
        r == occurs_at(s@, prefix@, 0),
{
    let hay = chars_of(s);
    let needle = chars_of(prefix);
    needle.len() <= hay.len() && stands_at(&hay, &needle, 0)
}

/// The rest of `s` behind `prefix`.
pub(crate) fn strip_prefix(s: &str, prefix: &str) -> (r: Option<String>)
    ensures
        match r {
            Some(rest) => occurs_at(s@, prefix@, 0) && rest@ == s@.skip(prefix@.len() as int),
            None => !occurs_at(s@, prefix@, 0),
        },
{
    let hay = chars_of(s);
    let needle = chars_of(prefix);
    if needle.len() <= hay.len() && stands_at(&hay, &needle, 0) {
        Some(slice_text(&hay, needle.len(), hay.len()))
    } else {
        None
    }
}

pub(crate) fn replace(s: &str, pattern: &str, with: &str) -> (r: String)
    requires
        pattern@.len() > 0,
    ensures
        r@ == replaced(s@, pattern@, with@),
{
    let hay = chars_of(s);
    let needle = chars_of(pattern);
    let n: usize = hay.len();
    let mut out = String::new();
    let mut at: usize = 0;
    assert(s@.skip(0) == s@);
    loop
        invariant
            n == hay@.len(),
            hay@ == s@,
            needle@ == pattern@,
            pattern@.len() > 0,
            at <= hay@.len(),
            replaced(s@, pattern@, with@) == out@ + replaced(s@.skip(at as int), pattern@, with@),
        decreases hay@.len() - at,
    {
        proof {
            lemma_find_in_rest(s@, pattern@, at as int);
        }
        match find_chars(&hay, &needle, at) {
            Some(i) => {
                out.append(slice_text(&hay, at, i).as_str());
                out.append(with);
                assert(s@.skip(at as int).take(i - at) == s@.subrange(at as int, i as int));
                assert(s@.skip(at as int).skip(i - at + pattern@.len()) == s@.skip(
                    i + pattern@.len(),
                ));
                at = i + needle.len();
            },
            None => {
                out.append(slice_text(&hay, at, hay.len()).as_str());
                assert(s@.skip(at as int) == s@.subrange(at as int, s@.len() as int));
                return out;
            },
        }
    }
}

/// Searching behind a position is searching the rest of the text from there.
pub proof fn lemma_find_in_rest(s: Seq<char>, needle: Seq<char>, at: int)
    requires
        0 <= at <= s.len(),
    ensures
        match find(s.skip(at), needle) {
            Some(i) => find_from(s, needle, at) == Some(at + i),
            None => find_from(s, needle, at) is None,
        },
{
    lemma_find_in_rest_from(s, needle, at, 0);
}

proof fn lemma_find_in_rest_from(s: Seq<char>, needle: Seq<char>, at: int, k: int)
    requires
        0 <= at <= s.len(),
        0 <= k <= s.len() - at,
    ensures
        match find_from(s.skip(at), needle, k) {
            Some(i) => find_from(s, needle, at + k) == Some(at + i),
            None => find_from(s, needle, at + k) is None,
        },
    decreases s.len() - at - k,
{
    if k + needle.len() <= s.len() - at {
        assert(s.skip(at).subrange(k, k + needle.len()) == s.subrange(
            at + k,
            at + k + needle.len(),
        ));
        if k < s.len() - at {
            lemma_find_in_rest_from(s, needle, at, k + 1);
        }
    }
}

/// What a search finds: the first occurrence, or that there is none.
pub proof fn lemma_find_from(s: Seq<char>, needle: Seq<char>, from: int)
    requires
        0 <= from,
    ensures
        match find_from(s, needle, from) {
            Some(i) => from <= i && occurs_at(s, needle, i) && forall|j: int|
                from <= j < i ==> !#[trigger] occurs_at(s, needle, j),
            None => forall|j: int| from <= j ==> !#[trigger] occurs_at(s, needle, j),
        },
    decreases s.len() - from,
{
    if from + needle.len() <= s.len() && !occurs_at(s, needle, from) && from != s.len() {
        lemma_find_from(s, needle, from + 1);
    }
}

pub(crate) fn trim(s: &str) -> (r: String)
    ensures
        r@ == trimmed(s@),
{
    let v = chars_of(s);
    let mut from: usize = 0;
    assert(s@.skip(0) == s@);
    while from < v.len() && v[from].is_whitespace()
        invariant
            v@ == s@,
            from <= v@.len(),
            trimmed_start(s@) == trimmed_start(s@.skip(from as int)),
        decreases v@.len() - from,
    {
        assert(s@.skip(from as int).skip(1) == s@.skip(from + 1));
        from = from + 1;
    }
    let mut to: usize = v.len();
    let ghost rest = s@.skip(from as int);
    assert(rest.take(rest.len() as int) == rest);
    while from < to && v[to - 1].is_whitespace()
        invariant
            v@ == s@,
            from <= to <= v@.len(),
            rest == s@.skip(from as int),
            trimmed_end(rest) == trimmed_end(rest.take(to - from)),
        decreases to,
    {
        assert(rest.take(to - from).drop_last() == rest.take(to - 1 - from));
        assert(rest.take(to - from).last() == v@[to - 1]);
        to = to - 1;
    }
    assert(rest.take(to - from) == v@.subrange(from as int, to as int));
    slice_text(&v, from, to)
}

pub(crate) fn trim_end_of(s: &str, c: char) -> (r: String)
    ensures
        r@ == trimmed_end_of(s@, c),
{
    let v = chars_of(s);
    let mut to: usize = v.len();
    assert(s@.take(s@.len() as int) == s@);
    while to > 0 && v[to - 1] == c
        invariant
            v@ == s@,
            to <= v@.len(),
            trimmed_end_of(s@, c) == trimmed_end_of(s@.take(to as int), c),
        decreases to,
    {
        assert(s@.take(to as int).drop_last() == s@.take(to - 1));
        to = to - 1;
    }
    assert(s@.take(to as int) == v@.subrange(0, to as int));
    slice_text(&v, 0, to)
}

pub(crate) fn to_upper(s: &str) -> (r: String)
    ensures
        r@ == uppered(s@),
{
    let v = chars_of(s);
    let mut r = String::new();
    let mut i: usize = 0;
    while i < v.len()
        invariant
            v@ == s@,
            i <= v@.len(),
            r@ == uppered(s@.take(i as int)),
        decreases v@.len() - i,
    {
        assert(s@.take(i + 1) == s@.take(i as int).push(s@[i as int]));
        r.push(to_upper_char(v[i]));
        assert(r@ == uppered(s@.take(i + 1)));
        i = i + 1;
    }
    assert(s@.take(i as int) == s@);
    r
}

fn to_upper_char(c: char) -> (r: char)
    ensures
        r == upper(c),
{
    if 'a' <= c && c <= 'z' {
        ((c as u8) - 32) as char
    } else {
        c
    }
}

pub(crate) fn split_text(s: &str, c: char) -> (r: Vec<String>)
    ensures
        views(r@) == split(s@, c),
{
    let v = chars_of(s);
    let sep: Vec<char> = vec![c];
    let n: usize = v.len();
    let mut out: Vec<String> = Vec::new();
    let mut at: usize = 0;
    assert(sep@ == seq![c]);
    assert(s@.skip(0) == s@);
    assert(views(out@) + split(s@, c) == split(s@, c));
    loop
        invariant
            n == v@.len(),
            v@ == s@,
            sep@ == seq![c],
            at <= v@.len(),
            split(s@, c) == views(out@) + split(s@.skip(at as int), c),
        decreases v@.len() - at,
    {
        proof {
            lemma_find_in_rest(s@, seq![c], at as int);
        }
        let ghost before = out@;
        match find_chars(&v, &sep, at) {
            Some(i) => {
                let piece = slice_text(&v, at, i);
                assert(s@.skip(at as int).take(i - at) == piece@);
                assert(s@.skip(at as int).skip(i - at + 1) == s@.skip(i + 1));
                out.push(piece);
                assert(views(out@) =~= views(before).push(piece@));
                at = i + 1;
            },
            None => {
                let piece = slice_text(&v, at, v.len());
                assert(s@.skip(at as int) == piece@);
                out.push(piece);
                assert(views(out@) =~= views(before).push(piece@));
                return out;
            },
        }
    }
}

/// The number that `s` writes, if it fits.
pub(crate) fn parse_usize(s: &str) -> (r: Option<usize>)
    ensures
        match r {
            Some(n) => number_of(s@) == Some(n as nat),
            None => number_of(s@) is None || number_of(s@)->0 > usize::MAX,
        },
{
    let v = chars_of(s);
    let from: usize = if v.len() > 0 && v[0] == '+' {
        1
    } else {
        0
    };
    let ghost digits = s@.skip(from as int);
    assert(s@.skip(0) == s@);
    if v.len() == from {
        return None;
    }
    let mut value: usize = 0;
    let mut fits: bool = true;
    let mut i: usize = from;
    while i < v.len()
        invariant
            v@ == s@,
            from <= i <= v@.len(),
            digits == s@.skip(from as int),
            number_of(s@) == digits_number(digits),
            forall|j: int| 0 <= j < i - from ==> is_digit(#[trigger] digits[j]),
            fits ==> value == digits_value(digits.take(i - from)),
            !fits ==> digits_value(digits.take(i - from)) > usize::MAX,
        decreases v@.len() - i,
    {
        let c = v[i];
        assert(digits[i - from] == c);
        if !('0' <= c && c <= '9') {
            assert(!is_digit(digits[i - from]));
            return None;
        }
        let d: usize = (c as u8 - '0' as u8) as usize;
        proof {
            let now = digits.take(i - from + 1);
            assert(now.drop_last() == digits.take(i - from));
            assert(now.last() == c);
        }
        if fits {
            match value.checked_mul(10) {
                Some(tens) => match tens.checked_add(d) {
                    Some(sum) => {
                        value = sum;
                    },
                    None => {
                        fits = false;
                    },
                },
                None => {
                    fits = false;
                },
            }
        }
        i = i + 1;
    }
    assert(digits.take(i - from) == digits);
    if fits {
        Some(value)
    } else {
        None
    }
}

/// The decimal digits of a number.
pub(crate) fn decimal_text(n: u16) -> (r: String)
    ensures
        r@ == decimal(n as nat),
    decreases n,
{
    let d = (('0' as u8) + (n % 10) as u8) as char;
    if n < 10 {
        let mut r = String::new();
        r.push(d);
        assert(r@ == seq![d]);
        r
    } else {
        let mut r = decimal_text(n / 10);
        r.push(d);
        r
    }
}

} // verus!
