//! The fixed places in the system's keychain: licence, selected model and the
//! mark of the one-time move from the plain-text store.

use vstd::prelude::*;

verus! {

/// A keychain entry: where it stands and what it holds.
#[derive(Debug)]
pub struct KeychainEntry {
    pub service: String,
    pub account: String,
    pub value: String,
}

/// What a keychain entry is: service, account and content.
pub type Place = (Seq<char>, Seq<char>, Seq<char>);

impl View for KeychainEntry {
    type V = Place;

    open spec fn view(&self) -> Place {
        (self.service@, self.account@, self.value@)
    }
}

/// What a sequence of keychain entries is.
pub open spec fn places(entries: Seq<KeychainEntry>) -> Seq<Place> {
    entries.map_values(|e: KeychainEntry| e@)
}

/// The service of everything about the licence.
pub open spec fn license_service() -> Seq<char> {
    "pluely.license"@
}

/// The entries that hold a licence.
pub open spec fn license_places(license_key: Seq<char>, instance_id: Seq<char>) -> Seq<Place> {
    seq![
        (license_service(), "license_key"@, license_key),
        (license_service(), "instance_id"@, instance_id),
    ]
}

fn make_entry(service: &str, account: &str, value: &str) -> (r: KeychainEntry)
    ensures
        r@ == (service@, account@, value@),
{
    KeychainEntry {
        service: service.to_owned(),
        account: account.to_owned(),
        value: value.to_owned(),
    }
}

/// The entries that hold a licence.
pub fn license_entries(license_key: &str, instance_id: &str) -> (r: Vec<KeychainEntry>)
    ensures
        places(r@) == license_places(license_key@, instance_id@),
{
    let r: Vec<KeychainEntry> = vec![
        make_entry("pluely.license", "license_key", license_key),
        make_entry("pluely.license", "instance_id", instance_id),
    ];
    assert(places(r@) =~= license_places(license_key@, instance_id@));
    r
}

/// The entry that marks that the plain-text store was moved.
pub fn migrated_marker() -> (r: KeychainEntry)
    ensures
        r@ == ("pluely.meta"@, "keychain_migrated_v1"@, "1"@),
{
    make_entry("pluely.meta", "keychain_migrated_v1", "1")
}

/// What the plain-text store held.
#[derive(Debug)]
pub struct LegacySecureStorage {
    pub license_key: Option<String>,
    pub instance_id: Option<String>,
    pub selected_pluely_model: Option<String>,
}

/// The plain-text store is to be moved: it is there and was not moved yet.
pub fn needs_move(marker: &Option<String>, store_exists: bool) -> (r: bool)
    ensures
        r == (marker is None && store_exists),
{
    marker.is_none() && store_exists
}

/// The entries that a plain-text store becomes: the licence where key and
/// instance are both there, and the selected model.
pub open spec fn moved_places(storage: LegacySecureStorage) -> Seq<Place> {
    let license = match (storage.license_key, storage.instance_id) {
        (Some(key), Some(id)) => license_places(key@, id@),
        _ => Seq::empty(),
    };
    let model = match storage.selected_pluely_model {
        Some(json) => seq![(license_service(), "selected_model"@, json@)],
        None => Seq::empty(),
    };
    license + model
}

/// The entries that a plain-text store becomes, in the order in which they are
/// written.
pub fn moved_entries(storage: &LegacySecureStorage) -> (r: Vec<KeychainEntry>)
    ensures
        places(r@) == moved_places(*storage),
{
    let mut r: Vec<KeychainEntry> = Vec::new();
    if let (Some(key), Some(id)) = (&storage.license_key, &storage.instance_id) {
        r = license_entries(key.as_str(), id.as_str());
    }
    let ghost license = places(r@);
    if let Some(json) = &storage.selected_pluely_model {
        let e = make_entry("pluely.license", "selected_model", json.as_str());
        r.push(e);
        assert(places(r@) =~= license + seq![e@]);
    }
    assert(places(r@) =~= moved_places(*storage));
    r
}

} // verus!
