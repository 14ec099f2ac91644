//! A map with texts for keys.

use vstd::prelude::*;

use crate::json::{comes_before, lemma_precedes_total, lemma_precedes_transitive, precedes};
use crate::text::{same_text, views};

verus! {

/// What a sequence of entries with distinct keys maps its keys to.
pub open spec fn entries_map<V>(entries: Seq<(String, V)>) -> Map<Seq<char>, V>
    decreases entries.len(),
{
    if entries.len() == 0 {
        Map::empty()
    } else {
        entries_map(entries.drop_last()).insert(entries.last().0@, entries.last().1)
    }
}

/// No two entries have the same key.
pub open spec fn keys_distinct<V>(entries: Seq<(String, V)>) -> bool {
    forall|i: int, j: int|
        0 <= i < j < entries.len() ==> (#[trigger] entries[i]).0@ != (#[trigger] entries[j]).0@
}

/// The texts that a map of strings holds.
pub open spec fn texts(map: Map<Seq<char>, String>) -> Map<Seq<char>, Seq<char>> {
    map.map_values(|s: String| s@)
}

/// A map from texts to values.
#[derive(Debug)]
pub struct StringMap<V> {
    entries: Vec<(String, V)>,
}

impl<V> View for StringMap<V> {
    type V = Map<Seq<char>, V>;

    closed spec fn view(&self) -> Map<Seq<char>, V> {
        entries_map(self.entries@)
    }
}

/// What entries with distinct keys map a key to: the value of the entry that has
/// it.
pub proof fn lemma_entries_map<V>(entries: Seq<(String, V)>, key: Seq<char>)
    requires
        keys_distinct(entries),
    ensures
        entries_map(entries).contains_key(key) <==> exists|i: int|
            0 <= i < entries.len() && (#[trigger] entries[i]).0@ == key,
        forall|i: int|
            0 <= i < entries.len() && (#[trigger] entries[i]).0@ == key ==> entries_map(
                entries,
            )[key] == entries[i].1,
    decreases entries.len(),
{
    if entries.len() > 0 {
        let init = entries.drop_last();
        assert(keys_distinct(init)) by {
            assert forall|i: int, j: int| 0 <= i < j < init.len() implies (
            #[trigger] init[i]).0@ != (#[trigger] init[j]).0@ by {
                assert(init[i] == entries[i] && init[j] == entries[j]);
            }
        }
        lemma_entries_map(init, key);
        let n = entries.len() - 1;
        if entries_map(entries).contains_key(key) {
            if key == entries.last().0@ {
                assert(entries[n].0@ == key);
            } else {
                let i = choose|i: int| 0 <= i < init.len() && (#[trigger] init[i]).0@ == key;
                assert(entries[i].0@ == key);
            }
        }
        assert forall|i: int| 0 <= i < entries.len() && (#[trigger] entries[i]).0@
            == key implies entries_map(entries)[key] == entries[i].1 && entries_map(
            entries,
        ).contains_key(key) by {
            if i < n {
                assert(init[i].0@ == key);
                assert(entries[i].0@ != entries[n].0@);
            }
        }
    }
}

impl<V> StringMap<V> {
    #[verifier::type_invariant]
    closed spec fn wf(self) -> bool {
        keys_distinct(self.entries@)
    }

    /// An empty map.
    pub fn new() -> (r: Self)
        ensures
            r@ == Map::<Seq<char>, V>::empty(),
    {
        StringMap { entries: Vec::new() }
    }

    /// The entries, in no particular order.
    pub fn entries(&self) -> (r: &Vec<(String, V)>)
        ensures
            entries_map(r@) == self@,
            keys_distinct(r@),
    {
        proof {
            use_type_invariant(self);
        }
        &self.entries
    }

    fn position(&self, key: &str) -> (r: Option<usize>)
        ensures
            match r {
                Some(i) => i < self.entries@.len() && self.entries@[i as int].0@ == key@,
                None => forall|i: int|
                    0 <= i < self.entries@.len() ==> (#[trigger] self.entries@[i]).0@ != key@,
            },
    {
        let mut i: usize = 0;
        while i < self.entries.len()
            invariant
                i <= self.entries@.len(),
                forall|j: int| 0 <= j < i ==> (#[trigger] self.entries@[j]).0@ != key@,
            decreases self.entries@.len() - i,
        {
            if same_text(self.entries[i].0.as_str(), key) {
                return Some(i);
            }
            i = i + 1;
        }
        None
    }

    /// The value under a key.
    pub fn get(&self, key: &str) -> (r: Option<&V>)
        ensures
            match r {
                Some(v) => self@.contains_key(key@) && *v == self@[key@],
                None => !self@.contains_key(key@),
            },
    {
        proof {
            use_type_invariant(self);
            lemma_entries_map(self.entries@, key@);
        }
        match self.position(key) {
            Some(i) => Some(&self.entries[i].1),
            None => None,
        }
    }

    /// Whether there is a value under a key.
    pub fn contains_key(&self, key: &str) -> (r: bool)
        ensures
            r == self@.contains_key(key@),
    {
        self.get(key).is_some()
    }

    /// Whether there is no value at all.
    pub fn is_empty(&self) -> (r: bool)
        ensures
            r == (self@ == Map::<Seq<char>, V>::empty()),
    {
        proof {
            use_type_invariant(self);
            if self.entries@.len() > 0 {
                lemma_entries_map(self.entries@, self.entries@[0].0@);
                assert(self@.contains_key(self.entries@[0].0@));
            }
        }
        self.entries.len() == 0
    }

    /// Puts a value under a key, in the place of one that is there.
    pub fn insert(&mut self, key: String, value: V)
        ensures
            final(self)@ == old(self)@.insert(key@, value),
    {
        proof {
            use_type_invariant(&*self);
        }
        let found = self.position(key.as_str());
        let mut entries: Vec<(String, V)> = Vec::new();
        let ghost was = self.entries@;
        std::mem::swap(&mut entries, &mut self.entries);
        match found {
            Some(i) => {
                entries.set(i, (key, value));
            },
            None => {
                entries.push((key, value));
            },
        }
        proof {
            let now = entries@;
            assert(keys_distinct(now)) by {
                assert forall|i: int, j: int| 0 <= i < j < now.len() implies (
                #[trigger] now[i]).0@ != (#[trigger] now[j]).0@ by {
                    if i < was.len() && j < was.len() {
                        assert(was[i].0@ != was[j].0@);
                    }
                }
            }
            let a = entries_map(now);
            let b = entries_map(was).insert(key@, value);
            assert forall|k: Seq<char>|
                #![trigger a.dom().contains(k)]
                #![trigger a[k]]
                a.dom().contains(k) == b.dom().contains(k) && (a.dom().contains(k) ==> a[k]
                    == b[k]) by {
                lemma_entries_map(now, k);
                lemma_entries_map(was, k);
                let at = if found is Some {
                    found->0 as int
                } else {
                    was.len() as int
                };
                assert(now[at] == (key, value));
                if entries_map(was).contains_key(k) && k != key@ {
                    let i = choose|i: int| 0 <= i < was.len() && (#[trigger] was[i]).0@ == k;
                    assert(now[i] == was[i]);
                }
                if entries_map(now).contains_key(k) && k != key@ {
                    let i = choose|i: int| 0 <= i < now.len() && (#[trigger] now[i]).0@ == k;
                    assert(now[i] == was[i]);
                }
            }
            assert(a =~= b);
        }
        self.entries = entries;
    }

    /// Takes the value under a key out.
    pub fn remove(&mut self, key: &str) -> (r: Option<V>)
        ensures
            final(self)@ == old(self)@.remove(key@),
            match r {
                Some(v) => old(self)@.contains_key(key@) && v == old(self)@[key@],
                None => !old(self)@.contains_key(key@),
            },
    {
        proof {
            use_type_invariant(&*self);
            lemma_entries_map(self.entries@, key@);
        }
        let found = self.position(key);
        let mut entries: Vec<(String, V)> = Vec::new();
        let ghost was = self.entries@;
        std::mem::swap(&mut entries, &mut self.entries);
        let out = match found {
            Some(i) => {
                let (_, v) = entries.remove(i);
                Some(v)
            },
            None => None,
        };
        proof {
            let now = entries@;
            let at = if found is Some {
                found->0 as int
            } else {
                was.len() as int
            };
            assert forall|i: int| 0 <= i < now.len() implies #[trigger] now[i] == was[if i < at {
                i
            } else {
                i + 1
            }] by {}
            assert(keys_distinct(now)) by {
                assert forall|i: int, j: int| 0 <= i < j < now.len() implies (
                #[trigger] now[i]).0@ != (#[trigger] now[j]).0@ by {
                    let a = if i < at {
                        i
                    } else {
                        i + 1
                    };
                    let b = if j < at {
                        j
                    } else {
                        j + 1
                    };
                    assert(was[a].0@ != was[b].0@);
                }
            }
            let a = entries_map(now);
            let b = entries_map(was).remove(key@);
            assert forall|k: Seq<char>|
                #![trigger a.dom().contains(k)]
                #![trigger a[k]]
                a.dom().contains(k) == b.dom().contains(k) && (a.dom().contains(k) ==> a[k]
                    == b[k]) by {
                lemma_entries_map(now, k);
                lemma_entries_map(was, k);
                if entries_map(was).contains_key(k) && k != key@ {
                    let i = choose|i: int| 0 <= i < was.len() && (#[trigger] was[i]).0@ == k;
                    let j = if i < at {
                        i
                    } else {
                        i - 1
                    };
                    assert(now[j] == was[i]);
                }
                if entries_map(now).contains_key(k) {
                    let i = choose|i: int| 0 <= i < now.len() && (#[trigger] now[i]).0@ == k;
                    let j = if i < at {
                        i
                    } else {
                        i + 1
                    };
                    assert(now[i] == was[j]);
                    if k == key@ {
                        if j < at {
                            assert(was[j].0@ != was[at].0@);
                        } else {
                            assert(was[at].0@ != was[j].0@);
                        }
                    }
                }
            }
            assert(a =~= b);
        }
        self.entries = entries;
        out
    }
}

impl StringMap<String> {
    /// Takes over the entries of another map, which win over those of this one.
    pub fn overlay(&mut self, other: &StringMap<String>)
        ensures
            texts(final(self)@) == texts(old(self)@).union_prefer_right(texts(other@)),
    {
        let entries = other.entries();
        let ghost was = texts(self@);
        let ghost all = entries@;
        let mut i: usize = 0;
        assert(texts(entries_map(all.take(0))) =~= Map::empty());
        assert(was.union_prefer_right(texts(entries_map(all.take(0)))) =~= was);
        while i < entries.len()
            invariant
                all == entries@,
                i <= entries@.len(),
                texts(self@) == was.union_prefer_right(texts(entries_map(all.take(i as int)))),
            decreases entries@.len() - i,
        {
            let ghost before = self@;
            let ghost now = all.take(i + 1);
            assert(now.drop_last() =~= all.take(i as int));
            assert(now.last() == all[i as int]);
            let key = entries[i].0.clone();
            let value = entries[i].1.clone();
            self.insert(key, value);
            assert(texts(self@) =~= texts(before).insert(key@, value@));
            assert(texts(entries_map(now)) =~= texts(entries_map(all.take(i as int))).insert(
                key@,
                value@,
            ));
            assert(texts(self@) =~= was.union_prefer_right(texts(entries_map(now))));
            i = i + 1;
        }
        assert(all.take(i as int) =~= all);
    }

    /// The map again.
    pub fn duplicate(&self) -> (r: StringMap<String>)
        ensures
            texts(r@) == texts(self@),
    {
        let mut r: StringMap<String> = StringMap::new();
        r.overlay(self);
        assert(texts(r@) =~= texts(self@));
        r
    }
}

/// The keys stand in order, each once.
pub open spec fn in_order(keys: Seq<Seq<char>>) -> bool {
    forall|i: int, j: int|
        0 <= i < j < keys.len() ==> precedes(#[trigger] keys[i], #[trigger] keys[j])
}

/// Puts a key where it belongs among keys in order.
fn insert_in_order(keys: &mut Vec<String>, key: String)
    requires
        in_order(views(old(keys)@)),
        !views(old(keys)@).contains(key@),
    ensures
        in_order(views(final(keys)@)),
        forall|k: Seq<char>| #[trigger]
            views(final(keys)@).contains(k) <==> k == key@ || views(old(keys)@).contains(k),
{
    let ghost was = views(keys@);
    let n: usize = keys.len();
    let mut i: usize = 0;
    while i < n && comes_before(keys[i].as_str(), key.as_str())
        invariant
            n == keys@.len(),
            was == views(keys@),
            i <= n,
            forall|j: int| 0 <= j < i ==> precedes(#[trigger] was[j], key@),
        decreases n - i,
    {
        assert(was[i as int] == keys@[i as int]@);
        i = i + 1;
    }
    keys.insert(i, key);
    proof {
        let now = views(keys@);
        assert(now =~= was.insert(i as int, key@));
        if i < n {
            lemma_precedes_total(key@, was[i as int]);
            assert(was.contains(was[i as int]));
        }
        assert forall|a: int, b: int| 0 <= a < b < now.len() implies precedes(
            #[trigger] now[a],
            #[trigger] now[b],
        ) by {
            if a < i && b > i {
                assert(now[a] == was[a] && now[b] == was[b - 1]);
            } else if a < i && b < i {
                assert(now[a] == was[a] && now[b] == was[b]);
            } else if a == i {
                assert(now[b] == was[b - 1]);
                if b - 1 > i {
                    lemma_precedes_transitive(key@, was[i as int], was[b - 1]);
                }
            } else if a > i {
                assert(now[a] == was[a - 1] && now[b] == was[b - 1]);
            }
        }
        assert forall|k: Seq<char>| #[trigger] now.contains(k) <==> k == key@ || was.contains(k) by {
            if now.contains(k) {
                let j = now.index_of(k);
                if j < i {
                    assert(was[j] == k);
                } else if j > i {
                    assert(was[j - 1] == k);
                }
            }
            if was.contains(k) {
                let j = was.index_of(k);
                if j < i {
                    assert(now[j] == k);
                } else {
                    assert(now[j + 1] == k);
                }
            }
            assert(now[i as int] == key@);
        }
    }
}

impl<V> StringMap<V> {
    /// The keys, in order.
    pub fn sorted_keys(&self) -> (r: Vec<String>)
        ensures
            in_order(views(r@)),
            forall|k: Seq<char>| #[trigger] views(r@).contains(k) <==> self@.contains_key(k),
    {
        let entries = self.entries();
        let ghost all = entries@;
        let mut out: Vec<String> = Vec::new();
        let mut i: usize = 0;
        while i < entries.len()
            invariant
                all == entries@,
                keys_distinct(all),
                i <= entries@.len(),
                in_order(views(out@)),
                forall|k: Seq<char>| #[trigger]
                    views(out@).contains(k) <==> exists|j: int|
                        0 <= j < i && (#[trigger] all[j]).0@ == k,
            decreases entries@.len() - i,
        {
            let ghost was = views(out@);
            let key = entries[i].0.clone();
            proof {
                if was.contains(key@) {
                    let j = choose|j: int| 0 <= j < i && (#[trigger] all[j]).0@ == key@;
                    assert(all[j].0@ != all[i as int].0@);
                }
            }
            insert_in_order(&mut out, key);
            proof {
                let now = views(out@);
                assert forall|k: Seq<char>| #[trigger] now.contains(k) <==> exists|j: int|
                    0 <= j < i + 1 && (#[trigger] all[j]).0@ == k by {
                    assert(now.contains(k) <==> k == key@ || was.contains(k));
                    if k == key@ {
                        assert(all[i as int].0@ == k);
                    }
                    if was.contains(k) {
                        let j = choose|j: int| 0 <= j < i && (#[trigger] all[j]).0@ == k;
                        assert(0 <= j < i + 1 && all[j].0@ == k);
                    }
                    if exists|j: int| 0 <= j < i + 1 && (#[trigger] all[j]).0@ == k {
                        let j = choose|j: int| 0 <= j < i + 1 && (#[trigger] all[j]).0@ == k;
                        if j < i {
                            assert(was.contains(k));
                        }
                    }
                }
            }
            i = i + 1;
        }
        proof {
            assert forall|k: Seq<char>| #[trigger] views(out@).contains(k) <==> self@.contains_key(
                k,
            ) by {
                lemma_entries_map(all, k);
            }
        }
        out
    }
}

} // verus!
