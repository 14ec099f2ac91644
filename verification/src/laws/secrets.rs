//! Laws of stored secrets.

use vstd::prelude::*;

use crate::json::{entry, Tree};
use crate::json_text::json_text;
use crate::keychain::{license_places, moved_places, LegacySecureStorage};
use crate::secrets::{account, changed, service_of, storing, text_map, Store, Turn, Wanted};
use crate::string_map::{entries_map, keys_distinct, lemma_entries_map, texts};

verus! {

/// The secrets of a provider are kept under a service of their own.
pub proof fn lemma_place(a: Seq<char>, b: Seq<char>)
    ensures
        service_of(a) == "pluely.provider."@ + a,
        account() == "secrets"@,
        a != b ==> service_of(a) != service_of(b),
{
    let prefix = "pluely.provider."@;
    if service_of(a) == service_of(b) {
        assert(a =~= service_of(a).skip(prefix.len() as int));
        assert(b =~= service_of(b).skip(prefix.len() as int));
    }
}

/// What is stored of secrets is an object with each secret under its name, as it
/// is, the empty one too, and nothing else.
pub proof fn lemma_storing(
    entries: Seq<(Seq<char>, Tree)>,
    secrets: Map<Seq<char>, Seq<char>>,
    name: Seq<char>,
)
    requires
        storing(entries, secrets),
    ensures
        Tree::Object(entries).get(name) == (if secrets.contains_key(name) {
            Some(Tree::Text(secrets[name]))
        } else {
            None
        }),
{
    lemma_texts_found(entries, name);
    assert(text_map(entries).contains_key(name) == (entry(entries, name) is Some));
}

proof fn lemma_texts_found(entries: Seq<(Seq<char>, Tree)>, name: Seq<char>)
    requires
        forall|i: int| 0 <= i < entries.len() ==> (#[trigger] entries[i]).1 is Text,
    ensures
        entry(entries, name) matches Some(v) ==> v is Text,
    decreases entries.len(),
{
    if entries.len() > 0 {
        let rest = entries.skip(1);
        assert(entries[0].1 is Text);
        assert forall|i: int| 0 <= i < rest.len() implies (#[trigger] rest[i]).1 is Text by {
            assert(rest[i] == entries[i + 1]);
        }
        lemma_texts_found(rest, name);
    }
}

/// Secrets go to the keychain of their provider: written if there are any, and
/// removed if there are none.
pub proof fn lemma_put_store(store: Store, id: Seq<char>, secrets: Map<Seq<char>, Seq<char>>)
    requires
        store.puts(id, secrets),
    ensures
        match store {
            Store::Write { service, account, text } => service@ == "pluely.provider."@ + id
                && account@ == "secrets"@ && (exists|name: Seq<char>| #[trigger]
                secrets.contains_key(name)) && (exists|entries: Seq<(Seq<char>, Tree)>| #[trigger]
                storing(entries, secrets) && text@ == json_text(Tree::Object(entries))),
            Store::Remove { service, account } => service@ == "pluely.provider."@ + id && account@
                == "secrets"@ && (forall|name: Seq<char>| !#[trigger] secrets.contains_key(name)),
        },
{
    if forall|name: Seq<char>| !#[trigger] secrets.contains_key(name) {
        assert(secrets =~= Map::empty());
    }
}

/// A turn asks for, puts or gives just the secrets that it is for.
pub proof fn lemma_turns(
    turn: Turn,
    id: Seq<char>,
    secrets: Map<Seq<char>, Seq<char>>,
    wanted: Wanted,
)
    ensures
        turn.loads(id, wanted) ==> {
            &&& turn matches Turn::Load { service, account, loading }
            &&& service@ == "pluely.provider."@ + id
            &&& account@ == "secrets"@
            &&& loading.id@ == id
            &&& loading.wanted == wanted
        },
        turn.puts(id, secrets) ==> {
            &&& turn matches Turn::Store { store, storing }
            &&& store.puts(id, secrets)
            &&& storing.id@ == id
            &&& texts(storing.secrets@) == secrets
        },
        turn.ends_with(secrets) ==> {
            &&& turn matches Turn::Done(Ok(map))
            &&& texts(map@) == secrets
        },
        turn.goes_on(id, secrets, Wanted::Read) == turn.ends_with(secrets),
        !(wanted is Read) ==> turn.goes_on(id, secrets, wanted) == turn.puts(
            id,
            changed(secrets, wanted),
        ),
{
}

/// Reading secrets changes none; setting one gives it that value, the empty one
/// too, and changes no other; deleting one takes it away and changes no other.
pub proof fn lemma_changed(
    secrets: Map<Seq<char>, Seq<char>>,
    wanted: Wanted,
    other: Seq<char>,
)
    ensures
        match wanted {
            Wanted::Read => changed(secrets, wanted) == secrets,
            Wanted::Put { name, value } => changed(secrets, wanted).contains_key(name@) && changed(
                secrets,
                wanted,
            )[name@] == value@ && (other != name@ ==> changed(secrets, wanted).contains_key(other)
                == secrets.contains_key(other) && (secrets.contains_key(other) ==> changed(
                secrets,
                wanted,
            )[other] == secrets[other])),
            Wanted::Delete { name } => !changed(secrets, wanted).contains_key(name@) && (other
                != name@ ==> changed(secrets, wanted).contains_key(other) == secrets.contains_key(
                other,
            ) && (secrets.contains_key(other) ==> changed(secrets, wanted)[other]
                == secrets[other])),
        },
{
}

/// A licence is kept as its key and its instance, each in its own place and as it
/// is.
pub proof fn lemma_license_places(key: Seq<char>, instance: Seq<char>)
    ensures
        license_places(key, instance) == seq![
            ("pluely.license"@, "license_key"@, key),
            ("pluely.license"@, "instance_id"@, instance),
        ],
{
    assert(license_places(key, instance) =~= seq![
        ("pluely.license"@, "license_key"@, key),
        ("pluely.license"@, "instance_id"@, instance),
    ]);
}

/// Of a plain-text store the licence moves where it has both its key and its
/// instance, though they be empty, and the selected model moves where there is
/// one; each as it is.
pub proof fn lemma_moved_places(storage: LegacySecureStorage)
    ensures
        ({
            let both = storage.license_key is Some && storage.instance_id is Some;
            let n = if both {
                2int
            } else {
                0int
            };
            let out = moved_places(storage);
            &&& both ==> out[0] == (
                "pluely.license"@,
                "license_key"@,
                storage.license_key->0@,
            ) && out[1] == ("pluely.license"@, "instance_id"@, storage.instance_id->0@)
            &&& storage.selected_pluely_model matches Some(json) ==> out.len() == n + 1 && out[n]
                == ("pluely.license"@, "selected_model"@, json@)
            &&& storage.selected_pluely_model is None ==> out.len() == n
        }),
{
}

/// The texts of a map are those of its values, under the same keys.
pub proof fn lemma_texts(map: Map<Seq<char>, String>, key: Seq<char>)
    ensures
        texts(map).contains_key(key) == map.contains_key(key),
        map.contains_key(key) ==> texts(map)[key] == map[key]@,
{
}

/// A map of entries with distinct keys has under each key the value of its entry,
/// and no other key.
pub proof fn lemma_entries<V>(entries: Seq<(String, V)>, i: int, other: Seq<char>)
    requires
        keys_distinct(entries),
        0 <= i < entries.len(),
    ensures
        entries_map(entries).contains_key(entries[i].0@),
        entries_map(entries)[entries[i].0@] == entries[i].1,
        (forall|k: int| 0 <= k < entries.len() ==> (#[trigger] entries[k]).0@ != other)
            ==> !entries_map(entries).contains_key(other),
{
    lemma_entries_map(entries, entries[i].0@);
    lemma_entries_map(entries, other);
}

} // verus!
