//! What the host does with a verdict of the flat engine, and the signed
//! header it adds when forwarding.

use vstd::prelude::*;
use vstd::utf8::encode_utf8;
use crate::rules::Action;
use crate::text::{decimal, decimal_text, join2, same_text};

verus! {

/// The header that carries the edge signature on forwarded requests.
pub const EDGE_AUTH_HEADER: &'static str = "Edge-Auth";

/// How the host answers a request.
#[derive(Debug, PartialEq, Eq)]
pub enum Plan {
    /// Answer directly with a status and a plain-text body.
    Respond { status: u16, body: String },
    /// Forward to the named backend, or to the default one.
    Forward { backend: Option<String> },
}

/// A plan with the action recorded in the log and the log's blocked flag.
#[derive(Debug, PartialEq, Eq)]
pub struct ResponsePlan {
    pub plan: Plan,
    pub final_action: String,
    pub blocked: bool,
}

/// A status code the host accepts: three digits, from 100 to 999.
pub open spec fn valid_status(code: u16) -> bool {
    100 <= code <= 999
}

/// The status a block answers with: the rule's own when valid, else 403.
pub open spec fn block_status(a: Action) -> u16 {
    match a.response_code {
        Some(c) => if valid_status(c) { c } else { 403 },
        None => 403,
    }
}

/// The content of a [`Plan`].
pub enum PlanView {
    Respond { status: u16, body: Seq<char> },
    Forward { backend: Option<Seq<char>> },
}

impl View for Plan {
    type V = PlanView;

    open spec fn view(&self) -> PlanView {
        match self {
            Plan::Respond { status, body } => PlanView::Respond { status: *status, body: body@ },
            Plan::Forward { backend } => PlanView::Forward {
                backend: match backend {
                    Some(b) => Some(b@),
                    None => None,
                },
            },
        }
    }
}

/// The plan, the logged action and the blocked flag for the outcome of rule
/// evaluation, given the names of the backends the host could create.
pub open spec fn plan_of(matched: Option<(String, Action)>, backends: Seq<Seq<char>>) -> (PlanView, Seq<char>, bool) {
    match matched {
        None => (PlanView::Forward { backend: None }, "forwarded"@, false),
        Some((name, a)) => {
            if a.type_@ == "block"@ {
                let body = match a.response_message {
                    Some(m) => m@,
                    None => "Blocked by rule: "@ + name@,
                };
                (PlanView::Respond { status: block_status(a), body }, "blocked"@, true)
            } else if a.type_@ == "challenge"@ {
                (PlanView::Respond { status: 403, body: "Challenge required by rule: "@ + name@ }, "challenged"@, true)
            } else if a.type_@ == "route"@ {
                match a.backend {
                    Some(b) => if backends.contains(b@) {
                        (PlanView::Forward { backend: Some(b@) }, "routed:"@ + b@, false)
                    } else {
                        (PlanView::Forward { backend: None }, "route_backend_missing"@, true)
                    },
                    None => (PlanView::Forward { backend: None }, "route_no_backend"@, true),
                }
            } else {
                (PlanView::Forward { backend: None }, "unknown_action"@, true)
            }
        },
    }
}

fn has_name(names: &Vec<String>, b: &str) -> (r: bool)
    ensures
        r == names@.map_values(|s: String| s@).contains(b@),
{
    let ghost v = names@.map_values(|s: String| s@);
    let mut i: usize = 0;
    while i < names.len()
        invariant
            i <= names@.len(),
            v == names@.map_values(|s: String| s@),
            forall|k: int| 0 <= k < i ==> names@[k]@ != b@,
        decreases names@.len() - i,
    {
        if same_text(names[i].as_str(), b) {
            assert(v[i as int] == b@);
            return true;
        }
        i += 1;
    }
    proof {
        if v.contains(b@) {
            let k = choose|k: int| 0 <= k < v.len() && v[k] == b@;
            assert(names@[k]@ == b@);
        }
    }
    false
}

/// Decides how the host answers: `block` and `challenge` answer directly,
/// `route` forwards to its backend when the host has it, and anything else,
/// or no match, forwards to the default backend.
pub fn plan_response(matched: &Option<(String, Action)>, backends: &Vec<String>) -> (r: ResponsePlan)
    ensures
        ({
            let (plan, action, blocked) = plan_of(*matched, backends@.map_values(|s: String| s@));
            &&& r.plan@ == plan
            &&& r.final_action@ == action
            &&& r.blocked == blocked
        }),
{
    match matched {
        None => ResponsePlan { plan: Plan::Forward { backend: None }, final_action: "forwarded".to_owned(), blocked: false },
        Some((name, action)) => {
            if same_text(action.type_.as_str(), "block") {
                let status = match action.response_code {
                    Some(c) => if 100 <= c && c <= 999 { c } else { 403 },
                    None => 403,
                };
                let body = match &action.response_message {
                    Some(m) => m.clone(),
                    None => join2("Blocked by rule: ", name.as_str()),
                };
                ResponsePlan { plan: Plan::Respond { status, body }, final_action: "blocked".to_owned(), blocked: true }
            } else if same_text(action.type_.as_str(), "challenge") {
                let body = join2("Challenge required by rule: ", name.as_str());
                ResponsePlan { plan: Plan::Respond { status: 403, body }, final_action: "challenged".to_owned(), blocked: true }
            } else if same_text(action.type_.as_str(), "route") {
                match &action.backend {
                    Some(b) => {
                        if has_name(backends, b.as_str()) {
                            ResponsePlan {
                                plan: Plan::Forward { backend: Some(b.clone()) },
                                final_action: join2("routed:", b.as_str()),
                                blocked: false,
                            }
                        } else {
                            ResponsePlan { plan: Plan::Forward { backend: None }, final_action: "route_backend_missing".to_owned(), blocked: true }
                        }
                    },
                    None => ResponsePlan { plan: Plan::Forward { backend: None }, final_action: "route_no_backend".to_owned(), blocked: true },
                }
            } else {
                ResponsePlan { plan: Plan::Forward { backend: None }, final_action: "unknown_action".to_owned(), blocked: true }
            }
        },
    }
}

/// HMAC-SHA256 of `data` under `key`, as `hmac_sha256::HMAC::mac` computes it.
pub uninterp spec fn hmac_sha256_of(data: Seq<u8>, key: Seq<u8>) -> Seq<u8>;

/// Relies on `hmac_sha256::HMAC::mac` over the UTF-8 bytes of both texts: 32 bytes.
#[verifier::external_body]
fn hmac_sha256(data: &str, key: &str) -> (r: Vec<u8>)
    ensures
        r@ == hmac_sha256_of(encode_utf8(data@), encode_utf8(key@)),
        r@.len() == 32,
{
    hmac_sha256::HMAC::mac(data.as_bytes(), key.as_bytes()).to_vec()
}

/// The lower-case hex digit of a value below 16.
pub open spec fn hex_digit(n: u8) -> char {
    if n < 10 { ((48 + n) as u8) as char } else { ((87 + n) as u8) as char }
}

/// Two lower-case hex digits per byte, high nibble first.
pub open spec fn hex_of(b: Seq<u8>) -> Seq<char>
    decreases b.len(),
{
    if b.len() == 0 {
        seq![]
    } else {
        hex_of(b.drop_last()) + seq![hex_digit(b.last() / 16), hex_digit(b.last() % 16)]
    }
}

/// Relies on `hex::encode`: two lower-case hex digits per byte.
#[verifier::external_body]
fn hex_encode(b: &Vec<u8>) -> (r: String)
    ensures
        r@ == hex_of(b@),
{
    hex::encode(b)
}

/// Why a forwarded request cannot be signed.
#[derive(Debug, PartialEq, Eq)]
pub enum AuthError {
    /// The shared secret is not configured.
    AuthSecretMissing,
}

/// The signed part of the header: `<seconds>,<pop>`.
pub open spec fn auth_data(now_secs: u64, pop: Seq<char>) -> Seq<char> {
    decimal(now_secs as nat) + ","@ + pop
}

/// The value of the edge-auth header: `<seconds>,<pop>,0x<hex of the HMAC>`,
/// the HMAC taken over `<seconds>,<pop>` with the shared secret as key.
pub fn edge_auth_value(now_secs: u64, pop: &str, secret: Option<&str>) -> (r: Result<String, AuthError>)
    ensures
        match secret {
            None => r == Err::<String, AuthError>(AuthError::AuthSecretMissing),
            Some(k) => r is Ok && r->Ok_0@ == auth_data(now_secs, pop@) + ",0x"@
                + hex_of(hmac_sha256_of(encode_utf8(auth_data(now_secs, pop@)), encode_utf8(k@))),
        },
{
    let key = match secret {
        None => return Err(AuthError::AuthSecretMissing),
        Some(k) => k,
    };
    let secs = decimal_text(now_secs);
    let mut data = join2(secs.as_str(), ",");
    data.append(pop);
    let sig = hmac_sha256(data.as_str(), key);
    let digits = hex_encode(&sig);
    let mut value = join2(data.as_str(), ",0x");
    value.append(digits.as_str());
    Ok(value)
}

} // verus!
