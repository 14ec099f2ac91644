//! Laws of the text operations.

use vstd::prelude::*;

use crate::text::{
    decimal, digits_value, find, is_digit, lemma_find_from, mentions, number_of, occurs_at,
    replaced, split, trimmed, trimmed_end, trimmed_end_of, trimmed_start, uppered, white,
};

verus! {

/// Every character is white space.
pub open spec fn blank(s: Seq<char>) -> bool {
    forall|i: int| 0 <= i < s.len() ==> white(#[trigger] s[i])
}

/// The text is empty or has white space neither first nor last.
pub open spec fn trim_free(s: Seq<char>) -> bool {
    s.len() > 0 ==> !white(s[0]) && !white(s.last())
}

/// The first place of `p` in `a + p + b` is right behind `a`.
pub open spec fn first_behind(a: Seq<char>, p: Seq<char>, b: Seq<char>) -> bool {
    forall|j: int|
        0 <= j < a.len() ==> #[trigger] (a + p + b).subrange(j, j + p.len()) != p
}

/// `p` stands nowhere in `s`.
pub open spec fn lacks(s: Seq<char>, p: Seq<char>) -> bool {
    forall|j: int| 0 <= j <= s.len() - p.len() ==> #[trigger] s.subrange(j, j + p.len()) != p
}

proof fn lemma_trimmed_start(w: Seq<char>, x: Seq<char>)
    requires
        blank(w),
        x.len() > 0 ==> !white(x[0]),
    ensures
        trimmed_start(w + x) == x,
    decreases w.len(),
{
    let s = w + x;
    if w.len() > 0 {
        let rest = w.skip(1);
        assert(white(w[0]));
        assert forall|i: int| 0 <= i < rest.len() implies white(#[trigger] rest[i]) by {
            assert(rest[i] == w[i + 1]);
        }
        lemma_trimmed_start(rest, x);
        assert(s.skip(1) =~= rest + x);
    } else {
        assert(s =~= x);
    }
}

proof fn lemma_trimmed_end(x: Seq<char>, w: Seq<char>)
    requires
        blank(w),
        x.len() > 0 ==> !white(x.last()),
    ensures
        trimmed_end(x + w) == x,
    decreases w.len(),
{
    let s = x + w;
    if w.len() > 0 {
        let rest = w.drop_last();
        assert(white(w[w.len() - 1]));
        assert forall|i: int| 0 <= i < rest.len() implies white(#[trigger] rest[i]) by {
            assert(rest[i] == w[i]);
        }
        lemma_trimmed_end(x, rest);
        assert(s.drop_last() =~= x + rest);
    } else {
        assert(s =~= x);
    }
}

/// Trimming takes the white space around a text away, all of it, and nothing
/// else.
pub proof fn lemma_trimmed(before: Seq<char>, x: Seq<char>, after: Seq<char>)
    requires
        blank(before),
        blank(after),
        trim_free(x),
    ensures
        trimmed(before + x + after) == x,
{
    let s = before + x + after;
    if x.len() > 0 {
        assert(s =~= before + (x + after));
        lemma_trimmed_start(before, x + after);
        lemma_trimmed_end(x, after);
    } else {
        let w = before + after;
        assert(s =~= w);
        assert forall|i: int| 0 <= i < w.len() implies white(#[trigger] w[i]) by {
            if i < before.len() {
                assert(w[i] == before[i]);
            } else {
                assert(w[i] == after[i - before.len()]);
            }
        }
        let none = Seq::<char>::empty();
        assert(w =~= w + none);
        lemma_trimmed_start(w, none);
        assert(x =~= none);
    }
}

/// A text that trimming empties is white space and nothing else.
pub proof fn lemma_trimmed_blank(s: Seq<char>)
    ensures
        trimmed(s).len() == 0 <==> blank(s),
{
    if blank(s) {
        let none = Seq::<char>::empty();
        assert(s + none + none =~= s);
        lemma_trimmed(s, none, none);
    } else {
        let i = choose|i: int| 0 <= i < s.len() && !white(#[trigger] s[i]);
        lemma_start_keeps(s, i);
        let rest = trimmed_start(s);
        let k = choose|k: int| 0 <= k < rest.len() && !white(#[trigger] rest[k]);
        lemma_end_keeps(rest, k);
    }
}

proof fn lemma_start_keeps(s: Seq<char>, i: int)
    requires
        0 <= i < s.len(),
        !white(s[i]),
    ensures
        exists|k: int| 0 <= k < trimmed_start(s).len() && !white(#[trigger] trimmed_start(s)[k]),
    decreases s.len(),
{
    if white(s[0]) {
        assert(s.skip(1)[i - 1] == s[i]);
        lemma_start_keeps(s.skip(1), i - 1);
        assert(trimmed_start(s) == trimmed_start(s.skip(1)));
    } else {
        assert(!white(trimmed_start(s)[i]));
    }
}

proof fn lemma_end_keeps(s: Seq<char>, i: int)
    requires
        0 <= i < s.len(),
        !white(s[i]),
    ensures
        trimmed_end(s).len() > 0,
    decreases s.len(),
{
    if white(s.last()) {
        assert(s.drop_last()[i] == s[i]);
        lemma_end_keeps(s.drop_last(), i);
    }
}

/// A text is found where it stands: `mentions` says whether it stands anywhere.
pub proof fn lemma_mentions(a: Seq<char>, p: Seq<char>, b: Seq<char>)
    ensures
        mentions(a + p + b, p),
{
    let s = a + p + b;
    assert(s.subrange(a.len() as int, a.len() as int + p.len()) =~= p);
    assert(occurs_at(s, p, a.len() as int));
    lemma_find_from(s, p, 0);
}

/// A text that stands nowhere is not found, and one that is not found stands
/// nowhere.
pub proof fn lemma_not_mentioned(s: Seq<char>, p: Seq<char>)
    ensures
        lacks(s, p) <==> !mentions(s, p),
{
    lemma_find_from(s, p, 0);
    if mentions(s, p) {
        let i = find(s, p)->0;
        assert(s.subrange(i, i + p.len()) == p);
    } else {
        assert forall|j: int| 0 <= j <= s.len() - p.len() implies #[trigger] s.subrange(
            j,
            j + p.len(),
        ) != p by {
            assert(!occurs_at(s, p, j));
        }
    }
}

/// A text is found at its first place.
pub proof fn lemma_find_first(a: Seq<char>, p: Seq<char>, b: Seq<char>)
    requires
        first_behind(a, p, b),
    ensures
        find(a + p + b, p) == Some(a.len() as int),
{
    let s = a + p + b;
    let n = a.len() as int;
    assert(s.subrange(n, n + p.len()) =~= p);
    assert(occurs_at(s, p, n));
    lemma_find_from(s, p, 0);
    let i = find(s, p)->0;
    if i < n {
        assert(s.subrange(i, i + p.len()) == p);
    }
}

/// No two `c` stand side by side in `s`, nor would with one more behind it.
pub open spec fn pair_free(s: Seq<char>, c: char) -> bool {
    lacks(s, seq![c, c]) && (s.len() > 0 ==> s.last() != c)
}

/// Behind a text that is free of a pair, the pair comes first.
pub proof fn lemma_pair_behind(a: Seq<char>, c: char, b: Seq<char>)
    requires
        pair_free(a, c),
    ensures
        first_behind(a, seq![c, c], b),
{
    let p = seq![c, c];
    let s = a + p + b;
    assert forall|j: int| 0 <= j < a.len() implies #[trigger] s.subrange(j, j + p.len()) != p by {
        if j + 2 <= a.len() {
            assert(s.subrange(j, j + p.len()) =~= a.subrange(j, j + p.len()));
        } else {
            assert(s.subrange(j, j + p.len())[0] == a.last());
        }
    }
}

/// A text without a character at all is free of its pairs.
pub proof fn lemma_pair_free(s: Seq<char>, c: char)
    requires
        !s.contains(c),
    ensures
        pair_free(s, c),
{
    let p = seq![c, c];
    assert forall|j: int| 0 <= j <= s.len() - p.len() implies #[trigger] s.subrange(
        j,
        j + p.len(),
    ) != p by {
        assert(s.subrange(j, j + p.len())[0] == s[j]);
    }
    if s.len() > 0 {
        assert(s[s.len() - 1] == s.last());
    }
}

/// Replacing puts the new text in the place of the first occurrence, keeps what
/// stands before it, and goes on behind it.
pub proof fn lemma_replaced_first(a: Seq<char>, p: Seq<char>, b: Seq<char>, w: Seq<char>)
    requires
        p.len() > 0,
        first_behind(a, p, b),
    ensures
        replaced(a + p + b, p, w) == a + w + replaced(b, p, w),
{
    let s = a + p + b;
    let n = a.len() as int;
    assert(s.subrange(n, n + p.len()) =~= p);
    assert(occurs_at(s, p, n));
    lemma_find_from(s, p, 0);
    let i = find(s, p)->0;
    if i < n {
        assert(s.subrange(i, i + p.len()) == p);
    }
    assert(s.take(n) =~= a);
    assert(s.skip(n + p.len()) =~= b);
}

/// Replacing changes nothing where there is nothing to replace.
pub proof fn lemma_replaced_none(s: Seq<char>, p: Seq<char>, w: Seq<char>)
    requires
        lacks(s, p),
    ensures
        replaced(s, p, w) == s,
{
    lemma_not_mentioned(s, p);
}

/// Pieces put together with a separator between them.
pub open spec fn rejoined(pieces: Seq<Seq<char>>, c: char) -> Seq<char>
    decreases pieces.len(),
{
    if pieces.len() == 0 {
        Seq::empty()
    } else if pieces.len() == 1 {
        pieces[0]
    } else {
        pieces[0] + seq![c] + rejoined(pieces.skip(1), c)
    }
}

/// Splitting a text at a separator gives pieces that are free of it and that,
/// put together with it, give the text back.
pub proof fn lemma_split(s: Seq<char>, c: char)
    ensures
        split(s, c).len() > 0,
        rejoined(split(s, c), c) == s,
        forall|i: int| 0 <= i < split(s, c).len() ==> !(#[trigger] split(s, c)[i]).contains(c),
    decreases s.len(),
{
    let sep = seq![c];
    lemma_find_from(s, sep, 0);
    match find(s, sep) {
        Some(i) => {
            let head = s.take(i);
            let rest = s.skip(i + 1);
            let pieces = split(s, c);
            lemma_split(rest, c);
            assert(s.subrange(i, i + 1) == sep);
            assert(s.subrange(i, i + 1)[0] == s[i]);
            if head.contains(c) {
                let k = head.index_of(c);
                assert(s.subrange(k, k + 1) =~= sep);
                assert(occurs_at(s, sep, k));
            }
            assert(pieces == seq![head] + split(rest, c));
            assert(pieces.skip(1) =~= split(rest, c));
            assert(head + sep + rest =~= s);
            assert forall|k: int| 0 <= k < pieces.len() implies !(#[trigger] pieces[k]).contains(
                c,
            ) by {
                if k > 0 {
                    assert(pieces[k] == split(rest, c)[k - 1]);
                }
            }
        },
        None => {
            if s.contains(c) {
                let k = s.index_of(c);
                assert(s.subrange(k, k + 1) =~= sep);
                assert(occurs_at(s, sep, k));
            }
        },
    }
}

/// Upper case keeps the length, changes the letters `a` to `z` and no other
/// character, and is the same for two texts that differ in case alone.
pub proof fn lemma_uppered(s: Seq<char>, t: Seq<char>)
    ensures
        uppered(s).len() == s.len(),
        uppered(uppered(s)) == uppered(s),
        forall|i: int|
            0 <= i < s.len() ==> {
                let c = #[trigger] s[i];
                if 'a' <= c && c <= 'z' {
                    uppered(s)[i] as int == c as int - 'a' as int + 'A' as int
                } else {
                    uppered(s)[i] == c
                }
            },
        uppered(s + t) == uppered(s) + uppered(t),
{
    assert(uppered(uppered(s)) =~= uppered(s));
    assert(uppered(s + t) =~= uppered(s) + uppered(t));
}

/// Trimming a character off the end takes all of it and nothing else.
pub proof fn lemma_trimmed_end_of(s: Seq<char>, c: char, n: nat)
    requires
        s.len() > 0 ==> s.last() != c,
    ensures
        trimmed_end_of(s + Seq::new(n, |i: int| c), c) == s,
    decreases n,
{
    let tail = Seq::new(n, |i: int| c);
    if n == 0 {
        assert(s + tail =~= s);
    } else {
        let fewer = (n - 1) as nat;
        lemma_trimmed_end_of(s, c, fewer);
        assert((s + tail).drop_last() =~= s + Seq::new(fewer, |i: int| c));
        assert((s + tail).last() == c);
    }
}

/// The digits of a number read as that number, with and without a plus sign,
/// and do not begin with a needless zero.
pub proof fn lemma_decimal(n: nat)
    ensures
        number_of(decimal(n)) == Some(n),
        number_of(seq!['+'] + decimal(n)) == Some(n),
        n > 0 ==> decimal(n)[0] != '0',
        decimal(n).len() > 0,
        forall|i: int| 0 <= i < decimal(n).len() ==> '0' <= #[trigger] decimal(n)[i] <= '9',
{
    lemma_decimal_digits(n);
    let s = decimal(n);
    assert(s[0] != '+') by {
        assert(is_digit(s[0]));
    }
    let signed = seq!['+'] + s;
    assert(signed.skip(1) =~= s);
    assert forall|i: int| 0 <= i < s.len() implies '0' <= #[trigger] s[i] <= '9' by {
        assert(is_digit(s[i]));
    }
}

proof fn lemma_decimal_digits(n: nat)
    ensures
        decimal(n).len() > 0,
        forall|i: int| 0 <= i < decimal(n).len() ==> is_digit(#[trigger] decimal(n)[i]),
        digits_value(decimal(n)) == n,
        n > 0 ==> decimal(n)[0] != '0',
    decreases n,
{
    let s = decimal(n);
    reveal_with_fuel(digits_value, 2);
    if n < 10 {
        assert(s.drop_last() =~= Seq::empty());
    } else {
        lemma_decimal_digits(n / 10);
        assert(s.drop_last() =~= decimal(n / 10));
    }
}

/// What holds a character that is no digit writes no number, a plus sign in
/// front aside; nor does an empty text.
pub proof fn lemma_no_number(s: Seq<char>, i: int)
    requires
        0 <= i < s.len(),
        !('0' <= s[i] <= '9'),
        i == 0 ==> s[0] != '+',
    ensures
        number_of(s) is None,
{
    if s[0] == '+' {
        assert(s.skip(1)[i - 1] == s[i]);
        assert(!is_digit(s.skip(1)[i - 1]));
    } else {
        assert(!is_digit(s[i]));
    }
}

} // verus!
