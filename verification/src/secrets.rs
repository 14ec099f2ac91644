//! The secrets of the custom providers, in the system's keychain.
//!
//! Each provider has one keychain entry: service `pluely.provider.<id>`, account
//! `secrets`, and as its content a JSON object of names and values. `Secrets` is
//! a write-through cache in front of it. It decides what to ask of the keychain
//! and takes in the replies; whoever holds it makes the calls.

use vstd::prelude::*;

use crate::json::{
    entry, keys_ordered, lemma_with_entry_get, with_entry, Json, Tree,
};
use crate::json_text::json_text;
use crate::llm::{Failure, LlmError};
use crate::string_map::{entries_map, keys_distinct, texts, StringMap};

verus! {

/// The keychain service of a provider.
pub open spec fn service_of(id: Seq<char>) -> Seq<char> {
    "pluely.provider."@ + id
}

/// The keychain account of every provider.
pub open spec fn account() -> Seq<char> {
    "secrets"@
}

/// Where the keychain has the secrets of a provider.
pub fn provider_service(id: &str) -> (r: String)
    ensures
        r@ == service_of(id@),
{
    "pluely.provider.".to_owned().concat(id)
}

/// The values of the entries are texts.
pub open spec fn text_entries(entries: Seq<(Seq<char>, Tree)>) -> bool {
    forall|i: int| 0 <= i < entries.len() ==> (#[trigger] entries[i]).1 is Text
}

/// What entries whose values are texts map their keys to.
pub open spec fn text_map(entries: Seq<(Seq<char>, Tree)>) -> Map<Seq<char>, Seq<char>> {
    Map::new(
        |key: Seq<char>| entry(entries, key) is Some,
        |key: Seq<char>| entry(entries, key)->0->Text_0,
    )
}

/// The entries of an object that stores `secrets`.
pub open spec fn storing(
    entries: Seq<(Seq<char>, Tree)>,
    secrets: Map<Seq<char>, Seq<char>>,
) -> bool {
    keys_ordered(entries) && text_entries(entries) && text_map(entries) == secrets
}

/// The text is a JSON object that stores `secrets`.
pub open spec fn stores(text: Seq<char>, secrets: Map<Seq<char>, Seq<char>>) -> bool {
    exists|entries: Seq<(Seq<char>, Tree)>| #[trigger]
        storing(entries, secrets) && text == json_text(Tree::Object(entries))
}

/// What `serde_json::from_str` reads a text as, for a map from texts to texts:
/// the map, or an error message.
pub uninterp spec fn parsed_map(text: Seq<char>) -> Result<Map<Seq<char>, Seq<char>>, Seq<char>>;

/// The entries are those of the map, or there is the error message.
pub open spec fn map_read(
    result: Result<Vec<(String, String)>, String>,
    named: Result<Map<Seq<char>, Seq<char>>, Seq<char>>,
) -> bool {
    match result {
        Ok(entries) => keys_distinct(entries@) && named == Ok::<
            Map<Seq<char>, Seq<char>>,
            Seq<char>,
        >(texts(entries_map(entries@))),
        Err(message) => named == Err::<Map<Seq<char>, Seq<char>>, Seq<char>>(message@),
    }
}

/// Where the text stores secrets, the entries are those.
pub open spec fn stored_read(
    result: Result<Vec<(String, String)>, String>,
    text: Seq<char>,
) -> bool {
    forall|secrets: Map<Seq<char>, Seq<char>>| #[trigger]
        stores(text, secrets) ==> (result matches Ok(entries) && texts(entries_map(entries@))
            == secrets)
}

/// `serde_json::from_str` into a `HashMap` from strings to strings, whose
/// entries are then handed out. Which map it is depends on the text alone; a
/// JSON object with distinct keys and texts for values gives just these.
#[verifier::external_body]
fn read_map(text: &str) -> (r: Result<Vec<(String, String)>, String>)
    ensures
        map_read(r, parsed_map(text@)),
        stored_read(r, text@),
{
    serde_json::from_str::<std::collections::HashMap<String, String>>(text)
        .map(|map| map.into_iter().collect())
        .map_err(|e| e.to_string())
}

/// A map of the given entries.
fn map_of(entries: Vec<(String, String)>) -> (r: StringMap<String>)
    requires
        keys_distinct(entries@),
    ensures
        r@ == entries_map(entries@),
{
    let ghost all = entries@;
    let mut r: StringMap<String> = StringMap::new();
    assert(all.take(0) =~= Seq::empty());
    for entry in it: entries
        invariant
            it.seq() == all,
            r@ == entries_map(all.take(it.index())),
    {
        let ghost now = all.take(it.index() + 1);
        assert(now.drop_last() =~= all.take(it.index()));
        assert(now.last() == entry);
        r.insert(entry.0, entry.1);
    }
    assert(all.take(all.len() as int) =~= all);
    r
}

/// The secrets that a stored text holds.
pub fn parse_secrets(text: &str) -> (r: Result<StringMap<String>, LlmError>)
    ensures
        match r {
            Ok(map) => parsed_map(text@) == Ok::<Map<Seq<char>, Seq<char>>, Seq<char>>(
                texts(map@),
            ),
            Err(e) => parsed_map(text@) matches Err(message) && e@ == Failure::Json(message),
        },
        forall|secrets: Map<Seq<char>, Seq<char>>| #[trigger]
            stores(text@, secrets) ==> (r matches Ok(map) && texts(map@) == secrets),
{
    match read_map(text) {
        Ok(entries) => Ok(map_of(entries)),
        Err(message) => Err(LlmError::Json(message)),
    }
}

/// The text that stores secrets.
pub fn secrets_text(secrets: &StringMap<String>) -> (r: String)
    ensures
        stores(r@, texts(secrets@)),
{
    let entries = secrets.entries();
    let ghost all = entries@;
    let mut object = Json::object();
    let mut i: usize = 0;
    assert(texts(entries_map(all.take(0))) =~= Map::empty());
    assert(text_map(Seq::empty()) =~= Map::empty());
    while i < entries.len()
        invariant
            all == entries@,
            i <= entries@.len(),
            object@ is Object,
            object@.wf(),
            storing(object@->Object_0, texts(entries_map(all.take(i as int)))),
        decreases entries@.len() - i,
    {
        let ghost had = object@->Object_0;
        let ghost before = texts(entries_map(all.take(i as int)));
        let ghost now = all.take(i + 1);
        let ghost key = all[i as int].0@;
        let ghost value = Tree::Text(all[i as int].1@);
        object = object.with(entries[i].0.as_str(), Json::text(entries[i].1.as_str()));
        proof {
            assert(now.drop_last() =~= all.take(i as int));
            assert(texts(entries_map(now)) =~= before.insert(key, all[i as int].1@));
            let has = object@->Object_0;
            assert(has == with_entry(had, key, value));
            lemma_with_entry_texts(had, key, value);
            assert forall|k: Seq<char>|
                #![trigger text_map(has).dom().contains(k)]
                #![trigger text_map(has)[k]]
                text_map(has).dom().contains(k) == before.insert(
                    key,
                    all[i as int].1@,
                ).dom().contains(k) && (text_map(has).dom().contains(k) ==> text_map(has)[k]
                    == before.insert(key, all[i as int].1@)[k]) by {
                lemma_with_entry_get(had, key, value, k);
                assert(text_map(had).dom().contains(k) == before.dom().contains(k));
                if k != key && before.dom().contains(k) {
                    assert(text_map(had)[k] == before[k]);
                }
            }
            assert(text_map(has) =~= before.insert(key, all[i as int].1@));
        }
        i = i + 1;
    }
    assert(all.take(i as int) =~= all);
    assert(object@ == Tree::Object(object@->Object_0));
    object.to_text()
}

/// An object of texts stays one when a text is put in.
proof fn lemma_with_entry_texts(entries: Seq<(Seq<char>, Tree)>, key: Seq<char>, value: Tree)
    requires
        text_entries(entries),
        value is Text,
    ensures
        text_entries(with_entry(entries, key, value)),
    decreases entries.len(),
{
    let out = with_entry(entries, key, value);
    if entries.len() > 0 {
        let rest = entries.skip(1);
        assert forall|i: int| 0 <= i < rest.len() implies (#[trigger] rest[i]).1 is Text by {
            assert(rest[i] == entries[i + 1]);
        }
        lemma_with_entry_texts(rest, key, value);
        assert forall|i: int| 0 <= i < out.len() implies (#[trigger] out[i]).1 is Text by {
            if entries[0].0 == key {
                if i > 0 {
                    assert(out[i] == entries[i]);
                }
            } else if crate::json::precedes(key, entries[0].0) {
                if i > 0 {
                    assert(out[i] == entries[i - 1]);
                }
            } else if i > 0 {
                assert(out[i] == with_entry(rest, key, value)[i - 1]);
            }
        }
    }
}

/// What is wanted with the secrets of a provider.
#[derive(Debug)]
pub enum Wanted {
    Read,
    Put { name: String, value: String },
    Delete { name: String },
}

/// The secrets after what was wanted is done.
pub open spec fn changed(secrets: Map<Seq<char>, Seq<char>>, wanted: Wanted) -> Map<
    Seq<char>,
    Seq<char>,
> {
    match wanted {
        Wanted::Read => secrets,
        Wanted::Put { name, value } => secrets.insert(name@, value@),
        Wanted::Delete { name } => secrets.remove(name@),
    }
}

/// A provider whose secrets are being loaded, and what for.
#[derive(Debug)]
pub struct Loading {
    pub id: String,
    pub wanted: Wanted,
}

/// A provider whose secrets are being stored.
#[derive(Debug)]
pub struct Storing {
    pub id: String,
    pub secrets: StringMap<String>,
}

/// What the keychain replied.
#[derive(Debug)]
pub enum Reply<T> {
    Done(T),
    /// The call failed with this message; `no_entry` if there was no such entry.
    Failed { no_entry: bool, message: String },
}

/// How to store secrets: write the entry, or remove it where none are left.
#[derive(Debug)]
pub enum Store {
    Write { service: String, account: String, text: String },
    Remove { service: String, account: String },
}

impl Store {
    /// This stores `secrets` for the provider.
    pub open spec fn puts(self, id: Seq<char>, secrets: Map<Seq<char>, Seq<char>>) -> bool {
        match self {
            Store::Write { service, account: acct, text } => {
                &&& secrets != Map::<Seq<char>, Seq<char>>::empty()
                &&& service@ == service_of(id)
                &&& acct@ == account()
                &&& stores(text@, secrets)
            },
            Store::Remove { service, account: acct } => {
                &&& secrets == Map::<Seq<char>, Seq<char>>::empty()
                &&& service@ == service_of(id)
                &&& acct@ == account()
            },
        }
    }
}

/// What to do next.
#[derive(Debug)]
pub enum Turn {
    /// Nothing: these are the provider's secrets, or this went wrong.
    Done(Result<StringMap<String>, LlmError>),
    /// Load an entry, and hand the reply to [`Secrets::loaded`].
    Load { service: String, account: String, loading: Loading },
    /// Store an entry, and hand the reply to [`Secrets::stored`].
    Store { store: Store, storing: Storing },
}

impl Turn {
    /// The operation ends with these secrets.
    pub open spec fn ends_with(self, secrets: Map<Seq<char>, Seq<char>>) -> bool {
        self matches Turn::Done(Ok(map)) && texts(map@) == secrets
    }

    /// The operation ends with this failure.
    pub open spec fn fails_with(self, failure: Failure) -> bool {
        self matches Turn::Done(Err(e)) && e@ == failure
    }

    /// The secrets of the provider are to be loaded for what is wanted.
    pub open spec fn loads(self, id: Seq<char>, wanted: Wanted) -> bool {
        match self {
            Turn::Load { service, account: acct, loading } => {
                &&& service@ == service_of(id)
                &&& acct@ == account()
                &&& loading.id@ == id
                &&& loading.wanted == wanted
            },
            _ => false,
        }
    }

    /// These secrets are to be stored for the provider.
    pub open spec fn puts(self, id: Seq<char>, secrets: Map<Seq<char>, Seq<char>>) -> bool {
        match self {
            Turn::Store { store, storing } => {
                &&& store.puts(id, secrets)
                &&& storing.id@ == id
                &&& texts(storing.secrets@) == secrets
            },
            _ => false,
        }
    }

    /// The operation goes on with the secrets of the provider known: one that
    /// only reads them ends, one that changes them has them stored.
    pub open spec fn goes_on(
        self,
        id: Seq<char>,
        secrets: Map<Seq<char>, Seq<char>>,
        wanted: Wanted,
    ) -> bool {
        match wanted {
            Wanted::Read => self.ends_with(secrets),
            _ => self.puts(id, changed(secrets, wanted)),
        }
    }
}

/// The secrets of the providers that were loaded, by provider.
pub open spec fn cached(cache: Map<Seq<char>, StringMap<String>>) -> Map<
    Seq<char>,
    Map<Seq<char>, Seq<char>>,
> {
    cache.map_values(|secrets: StringMap<String>| texts(secrets@))
}

/// The cache. That it has a provider means that the provider was loaded.
#[derive(Debug)]
pub struct Secrets {
    cache: StringMap<StringMap<String>>,
}

impl View for Secrets {
    type V = Map<Seq<char>, Map<Seq<char>, Seq<char>>>;

    closed spec fn view(&self) -> Map<Seq<char>, Map<Seq<char>, Seq<char>>> {
        cached(self.cache@)
    }
}

fn make_store(id: &str, secrets: &StringMap<String>) -> (r: Store)
    ensures
        r.puts(id@, texts(secrets@)),
{
    let service = provider_service(id);
    let account = "secrets".to_owned();
    if secrets.is_empty() {
        assert(texts(secrets@) =~= Map::empty());
        Store::Remove { service, account }
    } else {
        proof {
            if texts(secrets@) == Map::<Seq<char>, Seq<char>>::empty() {
                assert forall|k: Seq<char>| !secrets@.dom().contains(k) by {
                    assert(!texts(secrets@).dom().contains(k));
                }
                assert(secrets@ =~= Map::empty());
            }
        }
        let text = secrets_text(secrets);
        Store::Write { service, account, text }
    }
}

fn go_on(id: String, secrets: StringMap<String>, wanted: Wanted) -> (r: Turn)
    ensures
        r.goes_on(id@, texts(secrets@), wanted),
{
    let mut secrets = secrets;
    let ghost was = texts(secrets@);
    match wanted {
        Wanted::Read => {
            return Turn::Done(Ok(secrets));
        },
        Wanted::Put { name, value } => {
            secrets.insert(name, value);
            assert(texts(secrets@) =~= was.insert(name@, value@));
        },
        Wanted::Delete { name } => {
            let _ = secrets.remove(name.as_str());
            assert(texts(secrets@) =~= was.remove(name@));
        },
    }
    let store = make_store(id.as_str(), &secrets);
    Turn::Store { store, storing: Storing { id, secrets } }
}

impl Secrets {
    /// A cache to which no provider was loaded.
    pub fn new() -> (r: Secrets)
        ensures
            r@ == Map::<Seq<char>, Map<Seq<char>, Seq<char>>>::empty(),
    {
        let r = Secrets { cache: StringMap::new() };
        assert(r@ =~= Map::empty());
        r
    }

    fn start(&self, id: &str, wanted: Wanted) -> (r: Turn)
        ensures
            if self@.contains_key(id@) {
                r.goes_on(id@, self@[id@], wanted)
            } else {
                r.loads(id@, wanted)
            },
    {
        match self.cache.get(id) {
            Some(secrets) => go_on(id.to_owned(), secrets.duplicate(), wanted),
            None => Turn::Load {
                service: provider_service(id),
                account: "secrets".to_owned(),
                loading: Loading { id: id.to_owned(), wanted },
            },
        }
    }

    /// Begins to read the secrets of a provider: from the cache, or by loading
    /// them.
    pub fn provider(&self, id: &str) -> (r: Turn)
        ensures
            if self@.contains_key(id@) {
                r.ends_with(self@[id@])
            } else {
                r.loads(id@, Wanted::Read)
            },
    {
        self.start(id, Wanted::Read)
    }

    /// Begins to set a secret of a provider. Nothing changes here before the
    /// keychain has it.
    pub fn set(&self, id: &str, name: &str, value: &str) -> (r: Turn)
        ensures
            if self@.contains_key(id@) {
                r.puts(id@, self@[id@].insert(name@, value@))
            } else {
                r matches Turn::Load { loading, .. } && loading.wanted matches Wanted::Put {
                    name: n,
                    value: v,
                } && n@ == name@ && v@ == value@ && r.loads(id@, loading.wanted)
            },
    {
        self.start(id, Wanted::Put { name: name.to_owned(), value: value.to_owned() })
    }

    /// Begins to delete a secret of a provider.
    pub fn delete(&self, id: &str, name: &str) -> (r: Turn)
        ensures
            if self@.contains_key(id@) {
                r.puts(id@, self@[id@].remove(name@))
            } else {
                r matches Turn::Load { loading, .. } && loading.wanted matches Wanted::Delete { name: n }
                    && n@ == name@ && r.loads(id@, loading.wanted)
            },
    {
        self.start(id, Wanted::Delete { name: name.to_owned() })
    }

    /// Begins to delete all secrets of a provider. They are not loaded first, so
    /// this works on an entry that cannot be read, too.
    pub fn delete_all(&self, id: &str) -> (r: Turn)
        ensures
            r.puts(id@, Map::empty()),
    {
        let secrets: StringMap<String> = StringMap::new();
        assert(texts(secrets@) =~= Map::empty());
        let store = make_store(id, &secrets);
        Turn::Store { store, storing: Storing { id: id.to_owned(), secrets } }
    }

    fn remember(&mut self, id: &str, secrets: &StringMap<String>)
        ensures
            final(self)@ == old(self)@.insert(id@, texts(secrets@)),
    {
        let ghost was = self.cache@;
        let copy = secrets.duplicate();
        self.cache.insert(id.to_owned(), copy);
        assert(self@ =~= cached(was).insert(id@, texts(secrets@)));
    }

    /// Takes in what loading gave. The secrets go into the cache; one that has
    /// no entry has none. An entry that cannot be read and any other failure
    /// end the operation and leave the cache as it was.
    pub fn loaded(&mut self, next: Loading, reply: Reply<String>) -> (r: Turn)
        ensures
            match reply {
                Reply::Done(text) => {
                    &&& match parsed_map(text@) {
                        Ok(secrets) => final(self)@ == old(self)@.insert(next.id@, secrets)
                            && r.goes_on(next.id@, secrets, next.wanted),
                        Err(message) => final(self)@ == old(self)@ && r.fails_with(
                            Failure::Json(message),
                        ),
                    }
                    &&& forall|secrets: Map<Seq<char>, Seq<char>>| #[trigger]
                        stores(text@, secrets) ==> final(self)@ == old(self)@.insert(
                            next.id@,
                            secrets,
                        ) && r.goes_on(next.id@, secrets, next.wanted)
                },
                Reply::Failed { no_entry: true, .. } => {
                    &&& final(self)@ == old(self)@.insert(next.id@, Map::empty())
                    &&& r.goes_on(next.id@, Map::empty(), next.wanted)
                },
                Reply::Failed { no_entry: false, message } => {
                    &&& final(self)@ == old(self)@
                    &&& r.fails_with(Failure::Keychain(message@))
                },
            },
    {
        let read = match reply {
            Reply::Done(text) => parse_secrets(text.as_str()),
            Reply::Failed { no_entry: true, .. } => {
                let none: StringMap<String> = StringMap::new();
                assert(texts(none@) =~= Map::empty());
                Ok(none)
            },
            Reply::Failed { no_entry: false, message } => Err(LlmError::Keychain(message)),
        };
        self.resume(next, read)
    }

    /// Goes on with the secrets that were loaded, or with why they were not.
    pub fn resume(&mut self, next: Loading, read: Result<StringMap<String>, LlmError>) -> (r: Turn)
        ensures
            match read {
                Ok(secrets) => {
                    &&& final(self)@ == old(self)@.insert(next.id@, texts(secrets@))
                    &&& r.goes_on(next.id@, texts(secrets@), next.wanted)
                },
                Err(e) => final(self)@ == old(self)@ && r.fails_with(e@),
            },
    {
        match read {
            Ok(secrets) => {
                self.remember(next.id.as_str(), &secrets);
                go_on(next.id, secrets, next.wanted)
            },
            Err(e) => Turn::Done(Err(e)),
        }
    }

    /// Takes in what storing gave: the cache follows the keychain, and only
    /// where the keychain has it. To remove an entry that is not there is no
    /// failure.
    pub fn stored(&mut self, store: &Store, next: Storing, reply: Reply<()>) -> (r: Turn)
        ensures
            match reply {
                Reply::Done(_) => {
                    &&& final(self)@ == old(self)@.insert(next.id@, texts(next.secrets@))
                    &&& r.ends_with(texts(next.secrets@))
                },
                Reply::Failed { no_entry, message } => if no_entry && store is Remove {
                    &&& final(self)@ == old(self)@.insert(next.id@, texts(next.secrets@))
                    &&& r.ends_with(texts(next.secrets@))
                } else {
                    &&& final(self)@ == old(self)@
                    &&& r.fails_with(Failure::Keychain(message@))
                },
            },
    {
        let removing: bool = match store {
            Store::Remove { .. } => true,
            Store::Write { .. } => false,
        };
        match reply {
            Reply::Failed { no_entry, message } => {
                if !(no_entry && removing) {
                    return Turn::Done(Err(LlmError::Keychain(message)));
                }
            },
            Reply::Done(_) => {},
        }
        self.remember(next.id.as_str(), &next.secrets);
        Turn::Done(Ok(next.secrets))
    }
}

/// To delete the last secret of a provider removes its entry.
pub proof fn lemma_last_deleted(
    id: Seq<char>,
    secrets: Map<Seq<char>, Seq<char>>,
    name: Seq<char>,
    turn: Turn,
)
    requires
        secrets.dom() == set![name],
        turn.puts(id, secrets.remove(name)),
    ensures
        turn matches Turn::Store { store: Store::Remove { .. }, .. },
{
    assert(secrets.remove(name) =~= Map::empty());
}

/// A secret that was set is there, and every other secret is as it was.
pub proof fn lemma_put(
    secrets: Map<Seq<char>, Seq<char>>,
    name: String,
    value: String,
    other: Seq<char>,
)
    ensures
        changed(secrets, Wanted::Put { name, value }).contains_key(name@),
        changed(secrets, Wanted::Put { name, value })[name@] == value@,
        other != name@ ==> changed(secrets, Wanted::Put { name, value }).contains_key(other)
            == secrets.contains_key(other) && changed(secrets, Wanted::Put { name, value })[other]
            == secrets[other],
{
}

/// What a keychain holds, by service and account.
pub type Kept = Map<(Seq<char>, Seq<char>), Seq<char>>;

/// The keychain holds these secrets for the provider: an entry that stores them
/// or reads as them, or no entry where there are none.
pub open spec fn holds(kept: Kept, id: Seq<char>, secrets: Map<Seq<char>, Seq<char>>) -> bool {
    let place = (service_of(id), account());
    if kept.contains_key(place) {
        stores(kept[place], secrets) || parsed_map(kept[place]) == Ok::<
            Map<Seq<char>, Seq<char>>,
            Seq<char>,
        >(secrets)
    } else {
        secrets == Map::<Seq<char>, Seq<char>>::empty()
    }
}

/// The keychain holds what the cache has, for every provider in the cache.
pub open spec fn agrees(cache: Map<Seq<char>, Map<Seq<char>, Seq<char>>>, kept: Kept) -> bool {
    forall|id: Seq<char>| #[trigger] cache.contains_key(id) ==> holds(kept, id, cache[id])
}

/// The keychain after a store was carried out.
pub open spec fn after_store(kept: Kept, store: Store) -> Kept {
    match store {
        Store::Write { service, account: acct, text } => kept.insert((service@, acct@), text@),
        Store::Remove { service, account: acct } => kept.remove((service@, acct@)),
    }
}

/// Providers have services of their own.
proof fn lemma_services_differ(a: Seq<char>, b: Seq<char>)
    requires
        service_of(a) == service_of(b),
    ensures
        a == b,
{
    let n = "pluely.provider."@.len() as int;
    assert(service_of(a).skip(n) =~= a);
    assert(service_of(b).skip(n) =~= b);
}

/// A cache that agrees with the keychain still does when secrets were stored
/// and both follow.
pub proof fn lemma_stored_agrees(
    cache: Map<Seq<char>, Map<Seq<char>, Seq<char>>>,
    kept: Kept,
    id: Seq<char>,
    secrets: Map<Seq<char>, Seq<char>>,
    store: Store,
)
    requires
        agrees(cache, kept),
        store.puts(id, secrets),
    ensures
        agrees(cache.insert(id, secrets), after_store(kept, store)),
        holds(after_store(kept, store), id, secrets),
{
    let now = cache.insert(id, secrets);
    let kept_now = after_store(kept, store);
    assert(holds(kept_now, id, secrets));
    assert forall|other: Seq<char>| #[trigger] now.contains_key(other) implies holds(
        kept_now,
        other,
        now[other],
    ) by {
        if other != id {
            if service_of(other) == service_of(id) {
                lemma_services_differ(other, id);
            }
            assert(cache.contains_key(other));
            assert(holds(kept, other, cache[other]));
        }
    }
}

/// A cache that agrees with the keychain still does when it takes in secrets
/// that the keychain holds.
pub proof fn lemma_loaded_agrees(
    cache: Map<Seq<char>, Map<Seq<char>, Seq<char>>>,
    kept: Kept,
    id: Seq<char>,
    secrets: Map<Seq<char>, Seq<char>>,
)
    requires
        agrees(cache, kept),
        holds(kept, id, secrets),
    ensures
        agrees(cache.insert(id, secrets), kept),
{
    let now = cache.insert(id, secrets);
    assert forall|other: Seq<char>| #[trigger] now.contains_key(other) implies holds(
        kept,
        other,
        now[other],
    ) by {
        if other != id {
            assert(cache.contains_key(other));
        }
    }
}

} // verus!
