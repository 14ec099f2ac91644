//! The compact text of a JSON value, and what replacing a placeholder in that
//! text does to the value.

use vstd::prelude::*;

use crate::json::{entries_depth, items_depth, numeric, precedes, reads_as, Tree};
use crate::text::{decimal, find, lemma_find_from, mentions, occurs_at, replaced};

verus! {

/// How deep a text may nest for it to be read.
pub open spec fn read_depth() -> nat {
    127
}

/// The lower-case hexadecimal digit of a number below sixteen.
pub open spec fn hex_digit(n: int) -> char {
    if n < 10 {
        ('0' as int + n) as char
    } else {
        ('a' as int + n - 10) as char
    }
}

/// A character inside a JSON string literal.
pub open spec fn escaped_char(c: char) -> Seq<char> {
    if c == '"' {
        seq!['\\', '"']
    } else if c == '\\' {
        seq!['\\', '\\']
    } else if c == '\u{8}' {
        seq!['\\', 'b']
    } else if c == '\u{9}' {
        seq!['\\', 't']
    } else if c == '\u{a}' {
        seq!['\\', 'n']
    } else if c == '\u{c}' {
        seq!['\\', 'f']
    } else if c == '\u{d}' {
        seq!['\\', 'r']
    } else if (c as u32) < 32 {
        seq!['\\', 'u', '0', '0', hex_digit(c as int / 16), hex_digit(c as int % 16)]
    } else {
        seq![c]
    }
}

/// A text inside a JSON string literal.
pub open spec fn escaped(s: Seq<char>) -> Seq<char>
    decreases s.len(),
{
    if s.len() == 0 {
        Seq::empty()
    } else {
        escaped_char(s[0]) + escaped(s.skip(1))
    }
}

/// A JSON string literal.
pub open spec fn quoted(s: Seq<char>) -> Seq<char> {
    seq!['"'] + escaped(s) + seq!['"']
}

/// The compact text of a tree.
pub open spec fn json_text(t: Tree) -> Seq<char>
    decreases t,
{
    match t {
        Tree::Null => seq!['n', 'u', 'l', 'l'],
        Tree::Bool(true) => seq!['t', 'r', 'u', 'e'],
        Tree::Bool(false) => seq!['f', 'a', 'l', 's', 'e'],
        Tree::Number(s) => s,
        Tree::Text(s) => quoted(s),
        Tree::Array(items) => seq!['['] + items_text(items) + seq![']'],
        Tree::Object(entries) => seq!['{'] + entries_text(entries) + seq!['}'],
    }
}

/// The texts of the items of an array, with commas between them.
pub open spec fn items_text(items: Seq<Tree>) -> Seq<char>
    decreases items,
{
    if items.len() == 0 {
        Seq::empty()
    } else if items.len() == 1 {
        json_text(items[0])
    } else {
        items_text(items.drop_last()) + seq![','] + json_text(items.last())
    }
}

/// The texts of the entries of an object, with commas between them.
pub open spec fn entries_text(entries: Seq<(Seq<char>, Tree)>) -> Seq<char>
    decreases entries,
{
    if entries.len() == 0 {
        Seq::empty()
    } else if entries.len() == 1 {
        quoted(entries[0].0) + seq![':'] + json_text(entries[0].1)
    } else {
        entries_text(entries.drop_last()) + seq![','] + quoted(entries.last().0) + seq![':']
            + json_text(entries.last().1)
    }
}

/// The text of an integer: its decimal digits, behind a minus sign if it is
/// negative.
pub open spec fn integer_text(n: int) -> Seq<char> {
    if n < 0 {
        seq!['-'] + decimal((-n) as nat)
    } else {
        decimal(n as nat)
    }
}

/// The text is that of an integer that an `i64` or a `u64` holds.
pub open spec fn whole(s: Seq<char>) -> bool {
    exists|n: int| i64::MIN <= n <= u64::MAX && s == #[trigger] integer_text(n)
}

/// Each number in the tree is such an integer, or reads back as itself.
pub open spec fn numbers_read_back(t: Tree) -> bool
    decreases t,
{
    match t {
        Tree::Number(s) => whole(s) || reads_as(s, Tree::Number(s)),
        Tree::Array(items) => forall|i: int|
            0 <= i < items.len() ==> numbers_read_back(#[trigger] items[i]),
        Tree::Object(entries) => forall|i: int|
            0 <= i < entries.len() ==> numbers_read_back((#[trigger] entries[i]).1),
        _ => true,
    }
}

/// A tree whose compact text reads back as the tree.
pub open spec fn reads_back(t: Tree) -> bool {
    t.wf() && t.depth() <= read_depth() && numbers_read_back(t)
}

/// What may come out of reading a text, `None` for an error: of the compact
/// text of a tree that reads back, this tree; of that of any plain tree,
/// nothing that nests deeper.
pub open spec fn read_of(text: Seq<char>, result: Option<Tree>) -> bool {
    forall|t: Tree| #[trigger]
        json_text(t) == text ==> {
            &&& reads_back(t) ==> result == Some(t)
            &&& t.plain() && result is Some ==> result->0.depth() <= t.depth()
        }
}

/// A character of a placeholder's name.
pub open spec fn shout(c: char) -> bool {
    'A' <= c <= 'Z' || c == '_'
}

/// The name of a placeholder: upper-case letters and underscores, at least one.
pub open spec fn shouted(name: Seq<char>) -> bool {
    name.len() > 0 && forall|i: int| 0 <= i < name.len() ==> shout(#[trigger] name[i])
}

/// A name between two pairs of braces.
pub open spec fn placeholder(name: Seq<char>) -> Seq<char> {
    seq!['{', '{'] + name + seq!['}', '}']
}

/// The tree with every occurrence of `pattern` in a text or a key replaced.
pub open spec fn filled(t: Tree, pattern: Seq<char>, with: Seq<char>) -> Tree
    decreases t,
{
    match t {
        Tree::Text(s) => Tree::Text(replaced(s, pattern, with)),
        Tree::Array(items) => Tree::Array(filled_items(items, pattern, with)),
        Tree::Object(entries) => Tree::Object(filled_entries(entries, pattern, with)),
        _ => t,
    }
}

/// The items with the pattern replaced in each.
pub open spec fn filled_items(items: Seq<Tree>, pattern: Seq<char>, with: Seq<char>) -> Seq<Tree>
    decreases items,
{
    if items.len() == 0 {
        Seq::empty()
    } else {
        filled_items(items.drop_last(), pattern, with).push(filled(items.last(), pattern, with))
    }
}

/// The entries with the pattern replaced in each key and value.
pub open spec fn filled_entries(
    entries: Seq<(Seq<char>, Tree)>,
    pattern: Seq<char>,
    with: Seq<char>,
) -> Seq<(Seq<char>, Tree)>
    decreases entries,
{
    if entries.len() == 0 {
        Seq::empty()
    } else {
        filled_entries(entries.drop_last(), pattern, with).push(
            (replaced(entries.last().0, pattern, with), filled(entries.last().1, pattern, with)),
        )
    }
}

/// No occurrence of `p` in `a + b` begins in `a` and ends in `b`.
spec fn apart(a: Seq<char>, b: Seq<char>, p: Seq<char>) -> bool {
    forall|i: int| #[trigger]
        occurs_at(a + b, p, i) ==> i + p.len() <= a.len() || i >= a.len()
}

/// Replacing goes piece by piece where no occurrence lies across the pieces.
proof fn lemma_replaced_split(a: Seq<char>, b: Seq<char>, p: Seq<char>, w: Seq<char>)
    requires
        p.len() > 0,
        apart(a, b, p),
    ensures
        replaced(a + b, p, w) == replaced(a, p, w) + replaced(b, p, w),
    decreases a.len() + b.len(),
{
    let ab = a + b;
    lemma_find_from(a, p, 0);
    lemma_find_from(b, p, 0);
    lemma_find_from(ab, p, 0);
    match find(a, p) {
        Some(i) => {
            assert(ab.subrange(i, i + p.len()) == a.subrange(i, i + p.len()));
            assert(occurs_at(ab, p, i));
            let k = find(ab, p)->0;
            if k < i {
                assert(occurs_at(ab, p, k));
                assert(ab.subrange(k, k + p.len()) == a.subrange(k, k + p.len()));
                assert(occurs_at(a, p, k));
            }
            assert(k == i);
            let rest = a.skip(i + p.len());
            assert(ab.skip(i + p.len()) == rest + b);
            assert forall|j: int| #[trigger] occurs_at(rest + b, p, j) implies j + p.len()
                <= rest.len() || j >= rest.len() by {
                let at = j + i + p.len();
                assert(ab.subrange(at, at + p.len()) == (rest + b).subrange(j, j + p.len()));
                assert(occurs_at(ab, p, at));
            }
            lemma_replaced_split(rest, b, p, w);
            assert(ab.take(i) == a.take(i));
        },
        None => {
            match find(b, p) {
                Some(i) => {
                    let at = a.len() + i;
                    assert(ab.subrange(at, at + p.len()) == b.subrange(i, i + p.len()));
                    assert(occurs_at(ab, p, at));
                    let k = find(ab, p)->0;
                    if k < at {
                        assert(occurs_at(ab, p, k));
                        if k + p.len() <= a.len() {
                            assert(ab.subrange(k, k + p.len()) == a.subrange(k, k + p.len()));
                            assert(occurs_at(a, p, k));
                        } else {
                            assert(ab.subrange(k, k + p.len()) == b.subrange(
                                k - a.len(),
                                k - a.len() + p.len(),
                            ));
                            assert(occurs_at(b, p, k - a.len()));
                        }
                    }
                    assert(k == at);
                    assert(ab.take(at) == a + b.take(i));
                    assert(ab.skip(at + p.len()) == b.skip(i + p.len()));
                },
                None => {
                    if let Some(k) = find(ab, p) {
                        if k + p.len() <= a.len() {
                            assert(ab.subrange(k, k + p.len()) == a.subrange(k, k + p.len()));
                            assert(occurs_at(a, p, k));
                        } else {
                            assert(ab.subrange(k, k + p.len()) == b.subrange(
                                k - a.len(),
                                k - a.len() + p.len(),
                            ));
                            assert(occurs_at(b, p, k - a.len()));
                        }
                    }
                },
            }
        },
    }
}

/// A character that the pattern lacks, next to the seam, keeps pieces apart.
proof fn lemma_apart(a: Seq<char>, b: Seq<char>, p: Seq<char>)
    requires
        (a.len() > 0 && !p.contains(a.last())) || (b.len() > 0 && !p.contains(b[0])) || a.len()
            == 0 || b.len() == 0,
    ensures
        apart(a, b, p),
{
    assert forall|i: int| #[trigger] occurs_at(a + b, p, i) implies i + p.len() <= a.len() || i
        >= a.len() by {
        if i < a.len() < i + p.len() {
            let sub = (a + b).subrange(i, i + p.len());
            assert(sub[a.len() - 1 - i] == a.last());
            assert(p[a.len() - 1 - i] == a.last());
            assert(sub[a.len() - i] == b[0]);
            assert(p[a.len() - i] == b[0]);
        }
    }
}

/// A text without the pattern's first character stays.
proof fn lemma_replaced_without(s: Seq<char>, p: Seq<char>, w: Seq<char>)
    requires
        p.len() > 0,
        !s.contains(p[0]),
    ensures
        replaced(s, p, w) == s,
{
    lemma_find_from(s, p, 0);
    if let Some(i) = find(s, p) {
        assert(s.subrange(i, i + p.len())[0] == s[i]);
    }
}

/// A text shorter than the pattern stays.
proof fn lemma_replaced_short(s: Seq<char>, p: Seq<char>, w: Seq<char>)
    requires
        s.len() < p.len(),
    ensures
        replaced(s, p, w) == s,
{
    lemma_find_from(s, p, 0);
}

/// A character that placeholders are made of; none is escaped.
spec fn bare(c: char) -> bool {
    shout(c) || c == '{' || c == '}'
}

proof fn lemma_placeholder(name: Seq<char>)
    requires
        shouted(name),
    ensures
        placeholder(name).len() == name.len() + 4,
        placeholder(name)[0] == '{',
        placeholder(name)[placeholder(name).len() - 2] == '}',
        shout(placeholder(name)[placeholder(name).len() - 3]),
        forall|i: int| 0 <= i < placeholder(name).len() ==> bare(#[trigger] placeholder(name)[i]),
        forall|c: char| #[trigger] placeholder(name).contains(c) ==> bare(c),
{
    let p = placeholder(name);
    assert(p[p.len() - 3] == name[name.len() - 1]);
    assert forall|i: int| 0 <= i < p.len() implies bare(#[trigger] p[i]) by {
        if 2 <= i < p.len() - 2 {
            assert(p[i] == name[i - 2]);
        }
    }
}

/// Escaping goes piece by piece.
pub proof fn lemma_escaped_concat(a: Seq<char>, b: Seq<char>)
    ensures
        escaped(a + b) == escaped(a) + escaped(b),
    decreases a.len(),
{
    if a.len() == 0 {
        assert(a + b == b);
    } else {
        assert((a + b).skip(1) == a.skip(1) + b);
        lemma_escaped_concat(a.skip(1), b);
    }
}

proof fn lemma_escaped_bare(s: Seq<char>)
    requires
        forall|i: int| 0 <= i < s.len() ==> bare(#[trigger] s[i]),
    ensures
        escaped(s) == s,
    decreases s.len(),
{
    if s.len() > 0 {
        assert(bare(s[0]));
        assert forall|i: int| 0 <= i < s.skip(1).len() implies bare(#[trigger] s.skip(1)[i]) by {
            assert(s.skip(1)[i] == s[i + 1]);
        }
        lemma_escaped_bare(s.skip(1));
        assert(s == seq![s[0]] + s.skip(1));
    }
}

/// Bare characters at the front of an escaped text stand there unescaped too.
proof fn lemma_escaped_prefix(s: Seq<char>, q: Seq<char>)
    requires
        forall|i: int| 0 <= i < q.len() ==> bare(#[trigger] q[i]),
        occurs_at(escaped(s), q, 0),
    ensures
        occurs_at(s, q, 0),
    decreases q.len(),
{
    if q.len() == 0 {
        assert(s.subrange(0, 0) == q);
    } else {
        assert(escaped(s).subrange(0, q.len() as int)[0] == escaped(s)[0]);
        assert(bare(q[0]));
        assert(s.len() > 0);
        assert(escaped(s)[0] == escaped_char(s[0])[0]);
        assert(escaped_char(s[0]) == seq![s[0]]);
        let rest = s.skip(1);
        let tail = q.skip(1);
        assert(escaped(s).skip(1) == escaped(rest));
        assert(escaped(rest).subrange(0, tail.len() as int) == tail) by {
            assert forall|i: int| 0 <= i < tail.len() implies #[trigger] escaped(rest)[i]
                == tail[i] by {
                assert(escaped(s).subrange(0, q.len() as int)[i + 1] == escaped(s)[i + 1]);
            }
        }
        assert forall|i: int| 0 <= i < tail.len() implies bare(#[trigger] tail[i]) by {
            assert(tail[i] == q[i + 1]);
        }
        lemma_escaped_prefix(rest, tail);
        assert forall|i: int| 0 <= i < q.len() implies #[trigger] s[i] == q[i] by {
            if i > 0 {
                assert(rest.subrange(0, tail.len() as int)[i - 1] == rest[i - 1]);
            }
        }
        assert(s.subrange(0, q.len() as int) == q);
    }
}

/// Behind its first character an escape holds no brace.
proof fn lemma_escape_tail(c: char, j: int)
    requires
        1 <= j < escaped_char(c).len(),
    ensures
        escaped_char(c)[j] != '{',
{
    if j >= 4 {
        let n = if j == 4 {
            c as int / 16
        } else {
            c as int % 16
        };
        assert(0 <= n < 16);
        assert(escaped_char(c)[j] == hex_digit(n));
        assert(hex_digit(n) as int <= 'f' as int);
    }
}

/// A placeholder in an escaped text comes from the same placeholder in the
/// text itself.
proof fn lemma_escaped_occurrence(s: Seq<char>, p: Seq<char>, j: int) -> (i: int)
    requires
        p.len() > 0,
        p[0] == '{',
        forall|i: int| 0 <= i < p.len() ==> bare(#[trigger] p[i]),
        occurs_at(escaped(s), p, j),
    ensures
        0 <= i <= s.len(),
        j == escaped(s.take(i)).len(),
        occurs_at(s, p, i),
    decreases s.len(),
{
    if j == 0 {
        lemma_escaped_prefix(s, p);
        assert(s.take(0) == Seq::<char>::empty());
        0
    } else {
        let head = escaped_char(s[0]);
        let rest = s.skip(1);
        assert(escaped(s).subrange(j, j + p.len())[0] == escaped(s)[j]);
        if j < head.len() {
            assert(escaped(s)[j] == head[j]);
            lemma_escape_tail(s[0], j);
        }
        let k = j - head.len();
        assert(escaped(rest).subrange(k, k + p.len()) == escaped(s).subrange(j, j + p.len()));
        let i = lemma_escaped_occurrence(rest, p, k);
        assert(s.take(i + 1) == seq![s[0]] + rest.take(i));
        assert(s.take(i + 1).skip(1) == rest.take(i));
        assert(s.subrange(i + 1, i + 1 + p.len()) == rest.subrange(i, i + p.len()));
        i + 1
    }
}

/// Replacing a placeholder in an escaped text by an escaped text is replacing
/// it first and escaping then.
proof fn lemma_replaced_escaped(s: Seq<char>, name: Seq<char>, w: Seq<char>)
    requires
        shouted(name),
    ensures
        replaced(escaped(s), placeholder(name), escaped(w)) == escaped(
            replaced(s, placeholder(name), w),
        ),
    decreases s.len(),
{
    let p = placeholder(name);
    lemma_placeholder(name);
    lemma_find_from(s, p, 0);
    lemma_find_from(escaped(s), p, 0);
    match find(s, p) {
        None => {
            if let Some(j) = find(escaped(s), p) {
                let i = lemma_escaped_occurrence(s, p, j);
                assert(occurs_at(s, p, i));
            }
        },
        Some(i) => {
            let x = s.take(i);
            let y = s.skip(i + p.len());
            lemma_escaped_parts(s, p, i);
            let at = escaped(x).len() as int;
            let e = escaped(s);
            let k = find(e, p)->0;
            if k < at {
                let m = lemma_escaped_occurrence(s, p, k);
                lemma_escaped_longer(s, i, m);
            }
            lemma_replaced_escaped(y, name, w);
            let z = replaced(y, p, w);
            assert(replaced(s, p, w) == x + w + z);
            lemma_escaped_concat(x, w);
            lemma_escaped_concat(x + w, z);
            assert(replaced(e, p, escaped(w)) == e.take(at) + escaped(w) + replaced(
                e.skip(at + p.len()),
                p,
                escaped(w),
            ));
        },
    }
}

/// The escaped text around an occurrence of unescaped characters.
proof fn lemma_escaped_parts(s: Seq<char>, p: Seq<char>, i: int)
    requires
        forall|i: int| 0 <= i < p.len() ==> bare(#[trigger] p[i]),
        occurs_at(s, p, i),
    ensures
        occurs_at(escaped(s), p, escaped(s.take(i)).len() as int),
        escaped(s).take(escaped(s.take(i)).len() as int) == escaped(s.take(i)),
        escaped(s).skip(escaped(s.take(i)).len() as int + p.len()) == escaped(s.skip(i + p.len())),
{
    let x = s.take(i);
    let y = s.skip(i + p.len());
    assert(s == x + (p + y));
    lemma_escaped_concat(x, p + y);
    lemma_escaped_concat(p, y);
    lemma_escaped_bare(p);
    let e = escaped(s);
    let at = escaped(x).len() as int;
    assert(e == escaped(x) + (p + escaped(y)));
    assert(e.subrange(at, at + p.len()) == p);
    assert(e.take(at) == escaped(x));
    assert(e.skip(at + p.len()) == escaped(y));
}

proof fn lemma_escaped_longer(s: Seq<char>, i: int, m: int)
    requires
        0 <= i <= m <= s.len(),
    ensures
        escaped(s.take(i)).len() <= escaped(s.take(m)).len(),
{
    assert(s.take(m) == s.take(i) + s.subrange(i, m));
    lemma_escaped_concat(s.take(i), s.subrange(i, m));
}

/// The items of a plain array are plain, and so is the array without its last.
proof fn lemma_plain_items(items: Seq<Tree>)
    requires
        Tree::Array(items).plain(),
        items.len() > 0,
    ensures
        items.last().plain(),
        Tree::Array(items.drop_last()).plain(),
{
    let t = Tree::Array(items);
    assert(t->Array_0 == items);
    let u = Tree::Array(items.drop_last());
    assert(u->Array_0 == items.drop_last());
}

/// The values of a plain object are plain, and so is the object without its
/// last entry.
proof fn lemma_plain_entries(entries: Seq<(Seq<char>, Tree)>)
    requires
        Tree::Object(entries).plain(),
        entries.len() > 0,
    ensures
        entries.last().1.plain(),
        Tree::Object(entries.drop_last()).plain(),
{
    let t = Tree::Object(entries);
    assert(t->Object_0 == entries);
    let u = Tree::Object(entries.drop_last());
    assert(u->Object_0 == entries.drop_last());
}

/// How the text of a tree ends: in no character of a name, and in a closing
/// brace only behind a character that is none of a name either.
spec fn ends_well(s: Seq<char>) -> bool {
    &&& s.len() > 0
    &&& !shout(s.last())
    &&& s.last() == '}' ==> s.len() >= 2 && !shout(s[s.len() - 2])
}

proof fn lemma_ends_well_concat(a: Seq<char>, b: Seq<char>)
    requires
        ends_well(b),
    ensures
        ends_well(a + b),
{
    assert((a + b).last() == b.last());
    if b.len() >= 2 {
        assert((a + b)[(a + b).len() - 2] == b[b.len() - 2]);
    }
}

proof fn lemma_json_text_ends_well(t: Tree)
    requires
        t.plain(),
    ensures
        ends_well(json_text(t)),
    decreases t,
{
    match t {
        Tree::Number(s) => {
            assert(numeric(s[s.len() - 1]));
        },
        Tree::Object(entries) => {
            let s = json_text(t);
            assert(s.last() == '}');
            if entries.len() > 0 {
                lemma_entries_text_ends_well(entries);
                assert(s[s.len() - 2] == entries_text(entries).last());
            } else {
                assert(s[s.len() - 2] == '{');
            }
        },
        _ => {},
    }
}

proof fn lemma_entries_text_ends_well(entries: Seq<(Seq<char>, Tree)>)
    requires
        entries.len() > 0,
        Tree::Object(entries).plain(),
    ensures
        ends_well(entries_text(entries)),
        entries_text(entries)[0] == '"',
    decreases entries,
{
    let last = entries.last();
    lemma_plain_entries(entries);
    lemma_json_text_ends_well(last.1);
    if entries.len() == 1 {
        lemma_ends_well_concat(quoted(last.0) + seq![':'], json_text(last.1));
    } else {
        let init = entries.drop_last();
        lemma_entries_text_ends_well(init);
        lemma_ends_well_concat(
            entries_text(init) + seq![','] + quoted(last.0) + seq![':'],
            json_text(last.1),
        );
    }
}

/// A closing brace behind a text that ends well is no part of a placeholder.
proof fn lemma_closing_apart(a: Seq<char>, name: Seq<char>)
    requires
        shouted(name),
        a.len() > 0,
        a.last() == '}' ==> a.len() >= 2 && !shout(a[a.len() - 2]),
    ensures
        apart(a, seq!['}'], placeholder(name)),
{
    let p = placeholder(name);
    let b = seq!['}'];
    lemma_placeholder(name);
    assert forall|i: int| #[trigger] occurs_at(a + b, p, i) implies i + p.len() <= a.len() || i
        >= a.len() by {
        if i < a.len() < i + p.len() {
            let sub = (a + b).subrange(i, i + p.len());
            assert(i + p.len() == a.len() + 1);
            assert(sub[p.len() - 2] == a.last());
            assert(sub[p.len() - 3] == a[a.len() - 2]);
        }
    }
}

/// Two seams in a row: `a`, a separator that placeholders lack, and `b`.
proof fn lemma_replaced_around(
    a: Seq<char>,
    c: char,
    b: Seq<char>,
    p: Seq<char>,
    w: Seq<char>,
)
    requires
        p.len() > 1,
        !p.contains(c),
    ensures
        replaced(a + seq![c] + b, p, w) == replaced(a, p, w) + seq![c] + replaced(b, p, w),
{
    let s = seq![c];
    lemma_apart(a, s, p);
    lemma_replaced_split(a, s, p, w);
    lemma_replaced_short(s, p, w);
    lemma_apart(a + s, b, p);
    lemma_replaced_split(a + s, b, p, w);
}

proof fn lemma_replaced_quoted(s: Seq<char>, name: Seq<char>, w: Seq<char>)
    requires
        shouted(name),
    ensures
        replaced(quoted(s), placeholder(name), escaped(w)) == quoted(
            replaced(s, placeholder(name), w),
        ),
{
    let p = placeholder(name);
    lemma_placeholder(name);
    let e = Seq::<char>::empty();
    lemma_replaced_escaped(s, name, w);
    assert(quoted(s) == (e + seq!['"'] + escaped(s)) + seq!['"'] + e);
    lemma_replaced_around(e + seq!['"'] + escaped(s), '"', e, p, escaped(w));
    lemma_replaced_around(e, '"', escaped(s), p, escaped(w));
    lemma_replaced_short(e, p, escaped(w));
}

proof fn lemma_replaced_brackets(inner: Seq<char>, p: Seq<char>, w: Seq<char>)
    requires
        p.len() > 1,
        !p.contains('['),
        !p.contains(']'),
    ensures
        replaced(seq!['['] + inner + seq![']'], p, w) == seq!['['] + replaced(inner, p, w)
            + seq![']'],
{
    let e = Seq::<char>::empty();
    assert(seq!['['] + inner + seq![']'] == (e + seq!['['] + inner) + seq![']'] + e);
    lemma_replaced_around(e + seq!['['] + inner, ']', e, p, w);
    lemma_replaced_around(e, '[', inner, p, w);
    lemma_replaced_short(e, p, w);
}

proof fn lemma_replaced_braces(entries: Seq<(Seq<char>, Tree)>, name: Seq<char>, w: Seq<char>)
    requires
        shouted(name),
        Tree::Object(entries).plain(),
    ensures
        replaced(seq!['{'] + entries_text(entries) + seq!['}'], placeholder(name), w) == seq!['{']
            + replaced(entries_text(entries), placeholder(name), w) + seq!['}'],
{
    let p = placeholder(name);
    lemma_placeholder(name);
    let open = seq!['{'];
    let inner = entries_text(entries);
    lemma_replaced_short(open, p, w);
    lemma_replaced_short(seq!['}'], p, w);
    if entries.len() > 0 {
        lemma_entries_text_ends_well(entries);
        lemma_ends_well_concat(open, inner);
    } else {
        assert((open + inner).last() == '{');
    }
    lemma_apart(open, inner, p);
    lemma_replaced_split(open, inner, p, w);
    lemma_closing_apart(open + inner, name);
    lemma_replaced_split(open + inner, seq!['}'], p, w);
}

/// Replacing a placeholder in the compact text of a value by an escaped text
/// gives the compact text of the value in which the placeholder is replaced,
/// in every text and key, by that text: no replacement breaks the JSON.
pub proof fn lemma_replaced_json(t: Tree, name: Seq<char>, w: Seq<char>)
    requires
        shouted(name),
        t.plain(),
    ensures
        replaced(json_text(t), placeholder(name), escaped(w)) == json_text(
            filled(t, placeholder(name), w),
        ),
    decreases t,
{
    let p = placeholder(name);
    let ew = escaped(w);
    lemma_placeholder(name);
    match t {
        Tree::Text(s) => lemma_replaced_quoted(s, name, w),
        Tree::Array(items) => {
            lemma_replaced_items(items, name, w);
            lemma_replaced_brackets(items_text(items), p, ew);
        },
        Tree::Object(entries) => {
            lemma_replaced_entries(entries, name, w);
            lemma_replaced_braces(entries, name, ew);
        },
        Tree::Number(s) => {
            assert forall|i: int| 0 <= i < s.len() implies s[i] != p[0] by {
                assert(numeric(s[i]));
            }
            lemma_replaced_without(s, p, ew);
        },
        _ => lemma_replaced_without(json_text(t), p, ew),
    }
}

proof fn lemma_replaced_items(items: Seq<Tree>, name: Seq<char>, w: Seq<char>)
    requires
        shouted(name),
        Tree::Array(items).plain(),
    ensures
        replaced(items_text(items), placeholder(name), escaped(w)) == items_text(
            filled_items(items, placeholder(name), w),
        ),
    decreases items,
{
    let p = placeholder(name);
    let ew = escaped(w);
    lemma_placeholder(name);
    let out = filled_items(items, p, w);
    lemma_filled_lengths(items, Seq::empty(), p, w);
    if items.len() == 0 {
        lemma_replaced_short(Seq::<char>::empty(), p, ew);
    } else {
        let last = items.last();
        lemma_plain_items(items);
        lemma_replaced_json(last, name, w);
        assert(out.last() == filled(last, p, w));
        assert(out.drop_last() == filled_items(items.drop_last(), p, w));
        if items.len() > 1 {
            let init = items.drop_last();
            lemma_replaced_items(init, name, w);
            lemma_replaced_around(items_text(init), ',', json_text(last), p, ew);
        }
    }
}

proof fn lemma_replaced_entries(entries: Seq<(Seq<char>, Tree)>, name: Seq<char>, w: Seq<char>)
    requires
        shouted(name),
        Tree::Object(entries).plain(),
    ensures
        replaced(entries_text(entries), placeholder(name), escaped(w)) == entries_text(
            filled_entries(entries, placeholder(name), w),
        ),
    decreases entries,
{
    let p = placeholder(name);
    let ew = escaped(w);
    lemma_placeholder(name);
    let out = filled_entries(entries, p, w);
    lemma_filled_lengths(Seq::empty(), entries, p, w);
    if entries.len() == 0 {
        lemma_replaced_short(Seq::<char>::empty(), p, ew);
    } else {
        let last = entries.last();
        lemma_plain_entries(entries);
        lemma_replaced_json(last.1, name, w);
        lemma_replaced_quoted(last.0, name, w);
        assert(out.last() == (replaced(last.0, p, w), filled(last.1, p, w)));
        assert(out.drop_last() == filled_entries(entries.drop_last(), p, w));
        if entries.len() > 1 {
            let init = entries.drop_last();
            lemma_replaced_entries(init, name, w);
            lemma_replaced_around(entries_text(init), ',', quoted(last.0), p, ew);
            lemma_replaced_around(
                entries_text(init) + seq![','] + quoted(last.0),
                ':',
                json_text(last.1),
                p,
                ew,
            );
        } else {
            lemma_replaced_around(quoted(last.0), ':', json_text(last.1), p, ew);
        }
    }
}

proof fn lemma_filled_lengths(
    items: Seq<Tree>,
    entries: Seq<(Seq<char>, Tree)>,
    p: Seq<char>,
    w: Seq<char>,
)
    ensures
        filled_items(items, p, w).len() == items.len(),
        filled_entries(entries, p, w).len() == entries.len(),
    decreases items.len() + entries.len(),
{
    if items.len() > 0 {
        lemma_filled_lengths(items.drop_last(), entries, p, w);
    } else if entries.len() > 0 {
        lemma_filled_lengths(items, entries.drop_last(), p, w);
    }
}

/// No key of an object in the tree holds `pattern`.
pub open spec fn keys_lack(t: Tree, pattern: Seq<char>) -> bool
    decreases t,
{
    match t {
        Tree::Array(items) => forall|i: int|
            0 <= i < items.len() ==> keys_lack(#[trigger] items[i], pattern),
        Tree::Object(entries) => forall|i: int|
            0 <= i < entries.len() ==> !mentions((#[trigger] entries[i]).0, pattern) && keys_lack(
                entries[i].1,
                pattern,
            ),
        _ => true,
    }
}

/// Replacing keeps the shape of a tree: its depth and its numbers.
pub proof fn lemma_filled_shape(t: Tree, pattern: Seq<char>, with: Seq<char>)
    ensures
        filled(t, pattern, with).depth() == t.depth(),
        t.plain() ==> filled(t, pattern, with).plain(),
        numbers_read_back(t) ==> numbers_read_back(filled(t, pattern, with)),
        t.wf() && keys_lack(t, pattern) ==> filled(t, pattern, with).wf(),
    decreases t,
{
    let u = filled(t, pattern, with);
    match t {
        Tree::Array(items) => {
            let out = filled_items(items, pattern, with);
            assert(u->Array_0 == out);
            lemma_filled_items(items, pattern, with);
            assert forall|i: int| 0 <= i < items.len() implies {
                &&& items[i].plain() ==> (#[trigger] out[i]).plain()
                &&& numbers_read_back(items[i]) ==> numbers_read_back(out[i])
                &&& items[i].wf() && keys_lack(items[i], pattern) ==> out[i].wf()
            } by {
                lemma_filled_shape(items[i], pattern, with);
            }
        },
        Tree::Object(entries) => {
            let out = filled_entries(entries, pattern, with);
            assert(u->Object_0 == out);
            lemma_filled_entries(entries, pattern, with);
            assert forall|i: int| 0 <= i < entries.len() implies {
                &&& entries[i].1.plain() ==> (#[trigger] out[i]).1.plain()
                &&& numbers_read_back(entries[i].1) ==> numbers_read_back(out[i].1)
                &&& entries[i].1.wf() && keys_lack(entries[i].1, pattern) ==> out[i].1.wf()
            } by {
                lemma_filled_shape(entries[i].1, pattern, with);
            }
            if t.wf() && keys_lack(t, pattern) {
                assert forall|i: int, j: int| 0 <= i < j < out.len() implies precedes(
                    #[trigger] out[i].0,
                    #[trigger] out[j].0,
                ) by {
                    assert(!mentions(entries[i].0, pattern) && !mentions(entries[j].0, pattern));
                    assert(out[i].0 == entries[i].0 && out[j].0 == entries[j].0);
                }
            }
        },
        _ => {},
    }
}

/// Replacing goes item by item and keeps the depth of the items.
pub proof fn lemma_filled_items(items: Seq<Tree>, pattern: Seq<char>, with: Seq<char>)
    ensures
        filled_items(items, pattern, with).len() == items.len(),
        forall|i: int|
            0 <= i < items.len() ==> #[trigger] filled_items(items, pattern, with)[i] == filled(
                items[i],
                pattern,
                with,
            ),
        items_depth(filled_items(items, pattern, with)) == items_depth(items),
    decreases items,
{
    if items.len() > 0 {
        let init = items.drop_last();
        lemma_filled_items(init, pattern, with);
        lemma_filled_shape(items.last(), pattern, with);
        let out = filled_items(items, pattern, with);
        assert(out.drop_last() == filled_items(init, pattern, with));
    }
}

/// Replacing goes entry by entry and keeps the depth of the entries.
pub proof fn lemma_filled_entries(
    entries: Seq<(Seq<char>, Tree)>,
    pattern: Seq<char>,
    with: Seq<char>,
)
    ensures
        filled_entries(entries, pattern, with).len() == entries.len(),
        forall|i: int|
            0 <= i < entries.len() ==> #[trigger] filled_entries(entries, pattern, with)[i] == (
                replaced(entries[i].0, pattern, with),
                filled(entries[i].1, pattern, with),
            ),
        entries_depth(filled_entries(entries, pattern, with)) == entries_depth(entries),
    decreases entries,
{
    if entries.len() > 0 {
        let init = entries.drop_last();
        lemma_filled_entries(init, pattern, with);
        lemma_filled_shape(entries.last().1, pattern, with);
        let out = filled_entries(entries, pattern, with);
        assert(out.drop_last() == filled_entries(init, pattern, with));
    }
}

/// A value that reads back and has the placeholder in no key reads back after
/// the placeholder was replaced, too.
pub proof fn lemma_filled_reads_back(t: Tree, pattern: Seq<char>, with: Seq<char>)
    requires
        reads_back(t),
        keys_lack(t, pattern),
    ensures
        reads_back(filled(t, pattern, with)),
{
    lemma_filled_shape(t, pattern, with);
}

/// A placeholder that stands in a text stands in its string literal too.
pub proof fn lemma_placeholder_quoted(s: Seq<char>, name: Seq<char>, i: int)
    requires
        shouted(name),
        occurs_at(s, placeholder(name), i),
    ensures
        occurs_at(quoted(s), placeholder(name), escaped(s.take(i)).len() as int + 1),
{
    let p = placeholder(name);
    lemma_placeholder(name);
    lemma_escaped_parts(s, p, i);
    let at = escaped(s.take(i)).len() as int;
    assert(quoted(s).subrange(at + 1, at + 1 + p.len()) =~= escaped(s).subrange(at, at + p.len()));
}

} // verus!
