//! Licence activation: the requests to the payment service and what is kept of
//! its answers.

use vstd::prelude::*;

use crate::api::{resolve, result_texts, setting};
use crate::call::{
    authorization, content_type, make_authorization, make_content_type, pairs, Call, HttpCall,
};
use crate::json::{empty_object, well_formed, Json, Tree};
use crate::provider::Method;
use crate::text::{chars_of, find, find_chars, optional, slice_text};

verus! {

/// What a call about a licence sends.
#[derive(Debug)]
pub struct ActivationRequest {
    pub license_key: String,
    pub instance_name: String,
    pub machine_id: String,
    pub app_version: String,
}

/// What the payment service says of an activation or deactivation.
#[derive(Debug)]
pub struct ActivationResponse {
    pub activated: bool,
    pub error: Option<String>,
    pub license_key: Option<String>,
    pub instance: Option<InstanceInfo>,
    pub is_dev_license: bool,
}

/// What the payment service says of a licence.
#[derive(Debug)]
pub struct ValidateResponse {
    pub is_active: bool,
    pub last_validated_at: Option<String>,
    pub is_dev_license: bool,
}

/// An activated installation.
#[derive(Debug)]
pub struct InstanceInfo {
    pub id: String,
    pub name: String,
    pub created_at: String,
}

/// Where to buy a licence.
#[derive(Debug)]
pub struct CheckoutResponse {
    pub success: Option<bool>,
    pub checkout_url: Option<String>,
    pub error: Option<String>,
}

/// The address of the payment service.
pub fn get_payment_endpoint(runtime: Option<String>, built_in: Option<String>) -> (r: Result<
    String,
    String,
>)
    ensures
        result_texts(r) == setting("PAYMENT_ENDPOINT"@, optional(runtime), optional(built_in)),
{
    resolve("PAYMENT_ENDPOINT", runtime, built_in)
}

/// What is shown of a failed request: its error, without the URL in it.
pub open spec fn request_error(error: Seq<char>) -> Seq<char> {
    let shown = match find(error, " for url ("@) {
        Some(i) => error.take(i),
        None => error,
    };
    "Failed to make chat request: "@ + shown
}

/// What is shown of a failed request.
pub fn map_reqwest_error(error: &str) -> (r: String)
    ensures
        r@ == request_error(error@),
{
    let v = chars_of(error);
    let n: usize = v.len();
    let url = chars_of(" for url (");
    let to: usize = match find_chars(&v, &url, 0) {
        Some(i) => i,
        None => n,
    };
    assert(v@.subrange(0, to as int) =~= v@.take(to as int));
    assert(v@.take(n as int) =~= v@);
    "Failed to make chat request: ".to_owned().concat(slice_text(&v, 0, to).as_str())
}

/// What a call about a licence sends: four texts.
pub open spec fn activation_body(request: ActivationRequest) -> Tree {
    empty_object().with("license_key"@, Tree::Text(request.license_key@)).with(
        "instance_name"@,
        Tree::Text(request.instance_name@),
    ).with("machine_id"@, Tree::Text(request.machine_id@)).with(
        "app_version"@,
        Tree::Text(request.app_version@),
    )
}

/// A call of the payment service.
pub open spec fn payment_call(
    endpoint: Seq<char>,
    key: Seq<char>,
    path: Seq<char>,
    body: Tree,
) -> Call {
    Call {
        method: Method::Post,
        url: endpoint + path,
        headers: seq![content_type(), authorization(key)],
        body: Some(body),
    }
}

fn make_payment_call(endpoint: &str, key: &str, path: &str, body: Json) -> (r: HttpCall)
    ensures
        r@ == payment_call(endpoint@, key@, path@, body@),
        body@.wf() ==> well_formed(r.body),
{
    let headers: Vec<(String, String)> = vec![make_content_type(), make_authorization(key)];
    assert(pairs(headers@) =~= seq![content_type(), authorization(key@)]);
    HttpCall {
        method: Method::Post,
        url: endpoint.to_owned().concat(path),
        headers,
        body: Some(body),
    }
}

fn make_activation_body(request: &ActivationRequest) -> (r: Json)
    ensures
        r@ == activation_body(*request),
        r@.wf(),
{
    Json::object().with("license_key", Json::text(request.license_key.as_str())).with(
        "instance_name",
        Json::text(request.instance_name.as_str()),
    ).with("machine_id", Json::text(request.machine_id.as_str())).with(
        "app_version",
        Json::text(request.app_version.as_str()),
    )
}

/// The call that activates a licence.
pub fn activate_call(endpoint: &str, key: &str, request: &ActivationRequest) -> (r: HttpCall)
    ensures
        r@ == payment_call(endpoint@, key@, "/activate"@, activation_body(*request)),
        well_formed(r.body),
{
    make_payment_call(endpoint, key, "/activate", make_activation_body(request))
}

/// The call that deactivates a licence.
pub fn deactivate_call(endpoint: &str, key: &str, request: &ActivationRequest) -> (r: HttpCall)
    ensures
        r@ == payment_call(endpoint@, key@, "/deactivate"@, activation_body(*request)),
        well_formed(r.body),
{
    make_payment_call(endpoint, key, "/deactivate", make_activation_body(request))
}

/// The call that validates a licence.
pub fn validate_call(endpoint: &str, key: &str, request: &ActivationRequest) -> (r: HttpCall)
    ensures
        r@ == payment_call(endpoint@, key@, "/validate"@, activation_body(*request)),
        well_formed(r.body),
{
    make_payment_call(endpoint, key, "/validate", make_activation_body(request))
}

/// The call for the address of the checkout.
pub fn checkout_call(endpoint: &str, key: &str) -> (r: HttpCall)
    ensures
        r@ == payment_call(endpoint@, key@, "/checkout"@, empty_object()),
        well_formed(r.body),
{
    make_payment_call(endpoint, key, "/checkout", Json::object())
}

/// What a call about a licence says. To activate one, the instance is named by a
/// fresh name; later, by the stored identifier.
pub fn activation_request(
    license_key: &str,
    instance_name: &str,
    machine_id: &str,
    app_version: &str,
) -> (r: ActivationRequest)
    ensures
        r.license_key@ == license_key@,
        r.instance_name@ == instance_name@,
        r.machine_id@ == machine_id@,
        r.app_version@ == app_version@,
{
    ActivationRequest {
        license_key: license_key.to_owned(),
        instance_name: instance_name.to_owned(),
        machine_id: machine_id.to_owned(),
        app_version: app_version.to_owned(),
    }
}

/// The licence key and instance identifier to keep of an activation: those of
/// the response, if it says that the licence is active and has both.
pub fn credentials_to_keep(response: &ActivationResponse) -> (r: Option<(String, String)>)
    ensures
        match r {
            Some(kept) => response.activated && response.license_key is Some
                && response.instance is Some && kept.0@ == response.license_key->0@ && kept.1@
                == response.instance->0.id@,
            None => !response.activated || response.license_key is None
                || response.instance is None,
        },
{
    if !response.activated {
        return None;
    }
    match (&response.license_key, &response.instance) {
        (Some(key), Some(instance)) => Some((key.clone(), instance.id.clone())),
        _ => None,
    }
}

/// A deactivation clears the stored credentials unless the response says that
/// the licence is active and names an error.
pub fn clears_credentials(response: &ActivationResponse) -> (r: bool)
    ensures
        r == !(response.activated && response.error is Some),
{
    !response.activated || response.error.is_none()
}

/// The answer of a validation that needs no call: without a stored licence key
/// or instance identifier nothing is active.
pub fn validated_without_call(license_key: &str, instance_id: &str) -> (r: Option<
    ValidateResponse,
>)
    ensures
        match r {
            Some(answer) => (license_key@.len() == 0 || instance_id@.len() == 0)
                && !answer.is_active && answer.last_validated_at is None
                && !answer.is_dev_license,
            None => license_key@.len() > 0 && instance_id@.len() > 0,
        },
{
    if license_key.is_empty() || instance_id.is_empty() {
        Some(
            ValidateResponse { is_active: false, last_validated_at: None, is_dev_license: false },
        )
    } else {
        None
    }
}

} // verus!
